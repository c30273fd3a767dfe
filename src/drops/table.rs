use vstd::arithmetic::div_mod::lemma_div_is_ordered_by_denominator;
use vstd::prelude::*;

use crate::drops::{drop_at, index_of, is_major_spec, Drop, DropSet};
use crate::rng::{lemma_zero_low_byte_escapes, rng1_spec, Rng};

verus! {

/// The kind of explosion whose end gives one more drop.
#[derive(Clone, Copy, Debug, PartialEq, Eq, Hash, Structural)]
pub enum ExplosionDrop {
    Metroid,
    Minikraid,
}

impl ExplosionDrop {
    /// Frames between explosions.
    pub open spec fn interval_spec(self) -> u32 {
        8
    }

    /// Explosions before the extra drop.
    pub open spec fn explosions_spec(self) -> u32 {
        match self {
            ExplosionDrop::Metroid => 5,
            ExplosionDrop::Minikraid => 16,
        }
    }

    /// Generator calls per explosion.
    pub open spec fn rolls_spec(self) -> u32 {
        match self {
            ExplosionDrop::Metroid => 2,
            ExplosionDrop::Minikraid => 3,
        }
    }

    /// The number of frames between explosions.
    pub fn explosion_interval(&self) -> (r: u32)
        ensures
            r == self.interval_spec(),
    {
        8
    }

    /// The number of explosions before the extra drop.
    pub fn num_explosions(&self) -> (r: u32)
        ensures
            r == self.explosions_spec(),
    {
        match self {
            ExplosionDrop::Metroid => 5,
            ExplosionDrop::Minikraid => 16,
        }
    }

    /// The number of generator calls each explosion makes.
    pub fn rng_per_explosion(&self) -> (r: u32)
        ensures
            r == self.rolls_spec(),
    {
        match self {
            ExplosionDrop::Metroid => 2,
            ExplosionDrop::Minikraid => 3,
        }
    }
}

/// The seed after one draw from `seed`: one generator call, and a second one if the low
/// byte of the first result is zero.
pub open spec fn draw_state(seed: u16) -> u16 {
    let s1 = rng1_spec(seed);
    if s1 % 256 != 0 {
        s1
    } else {
        rng1_spec(s1)
    }
}

/// The value of one draw from `seed`: the low byte of the first generator result whose
/// low byte is not zero.
pub open spec fn draw_value(seed: u16) -> int {
    draw_state(seed) as int % 256
}

/// A draw never needs more than one resample, so its value is in `1..=255`.
pub proof fn lemma_draw_range(seed: u16)
    ensures
        1 <= draw_value(seed) <= 255,
{
    let s1 = rng1_spec(seed);
    if s1 % 256 == 0 {
        lemma_zero_low_byte_escapes(s1);
    }
}

/// An enemy's drop chances, in 255ths.
#[derive(Clone, Copy, Debug, PartialEq, Eq, Structural)]
pub struct DropTable {
    pub nothing: u8,
    pub small_energy: u8,
    pub big_energy: u8,
    pub missile: u8,
    pub super_missile: u8,
    pub power_bomb: u8,
    /// For an enemy that drops several items, how many.
    pub count: Option<u32>,
    /// For an enemy whose explosion gives one more drop, the kind of explosion.
    pub extra: Option<ExplosionDrop>,
}

impl DropTable {
    /// The weight of drop `d`.
    pub open spec fn weight(self, d: Drop) -> int {
        match d {
            Drop::Nothing => self.nothing as int,
            Drop::SmallEnergy => self.small_energy as int,
            Drop::BigEnergy => self.big_energy as int,
            Drop::Missile => self.missile as int,
            Drop::SuperMissile => self.super_missile as int,
            Drop::PowerBomb => self.power_bomb as int,
        }
    }

    /// The eligible major-tier weights leave a non-negative complement in 255.
    pub open spec fn fits(self, possible: Set<Drop>) -> bool {
        self.eligible_weight(possible, 4, 6) <= 255
    }

    /// Primary draws per enemy.
    pub open spec fn multiplicity(self) -> int {
        match self.count {
            Some(c) => c as int,
            None => 1,
        }
    }

    /// Draws per enemy, the extra one included.
    pub open spec fn draws_per_kill(self) -> int {
        self.multiplicity() + if self.extra.is_some() {
            1int
        } else {
            0int
        }
    }

    /// The summed weight of the eligible drops at canonical positions `lo..hi`.
    pub open spec fn eligible_weight(self, possible: Set<Drop>, lo: int, hi: int) -> int
        decreases hi - lo,
    {
        if hi <= lo {
            0
        } else {
            self.eligible_weight(possible, lo, hi - 1) + if possible.contains(drop_at(hi - 1)) {
                self.weight(drop_at(hi - 1))
            } else {
                0
            }
        }
    }

    /// The pooled weight of the eligible minor drops.
    pub open spec fn minor_pool(self, possible: Set<Drop>) -> int {
        self.eligible_weight(possible, 0, 4)
    }

    /// 255 less the weight of the eligible major drops.
    pub open spec fn major_complement(self, possible: Set<Drop>) -> int {
        255 - self.eligible_weight(possible, 4, 6)
    }

    /// The width of the drop at canonical position `i` on the scale of draw values: minor
    /// weights are rescaled from the minor pool to the major complement, major ones are kept.
    pub open spec fn share(self, possible: Set<Drop>, i: int) -> int {
        if i < 4 {
            if self.minor_pool(possible) == 0 {
                0
            } else {
                self.weight(drop_at(i)) * self.major_complement(possible) / self.minor_pool(possible)
            }
        } else {
            self.weight(drop_at(i))
        }
    }

    /// The summed shares of canonical positions `0..k`.
    pub open spec fn cumulative(self, possible: Set<Drop>, k: int) -> int
        decreases k,
    {
        if k <= 0 {
            0
        } else {
            self.cumulative(possible, k - 1) + self.share(possible, k - 1)
        }
    }

    /// The drop that draw value `r` selects, looking from canonical position `i` on: the
    /// first whose cumulative share reaches `r`, the minor ones skipped when the minor pool
    /// is empty; nothing if none does.
    pub open spec fn pick_from(self, possible: Set<Drop>, r: int, i: int) -> Drop
        decreases 6 - i,
    {
        if i >= 6 {
            Drop::Nothing
        } else if i < 4 && self.minor_pool(possible) == 0 {
            self.pick_from(possible, r, i + 1)
        } else if self.cumulative(possible, i + 1) >= r {
            drop_at(i)
        } else {
            self.pick_from(possible, r, i + 1)
        }
    }

    /// The drop that draw value `r` selects.
    pub open spec fn pick_spec(self, possible: Set<Drop>, r: int) -> Drop {
        self.pick_from(possible, r, 0)
    }

    /// The expected count of `drop` per enemy over one draw of each kind, in 255ths.
    pub open spec fn ideal_chance(self, drop: Drop, possible: Set<Drop>) -> int {
        if possible.contains(drop) {
            self.share(possible, index_of(drop) as int)
        } else {
            0
        }
    }

    /// The weight of `drop`.
    pub fn get(&self, drop: Drop) -> (r: u8)
        ensures
            r as int == self.weight(drop),
    {
        match drop {
            Drop::Nothing => self.nothing,
            Drop::SmallEnergy => self.small_energy,
            Drop::BigEnergy => self.big_energy,
            Drop::Missile => self.missile,
            Drop::SuperMissile => self.super_missile,
            Drop::PowerBomb => self.power_bomb,
        }
    }

    proof fn lemma_major_weight(self, possible: Set<Drop>)
        ensures
            0 <= self.eligible_weight(possible, 4, 6) <= self.super_missile + self.power_bomb,
    {
        assert(self.eligible_weight(possible, 4, 4) == 0);
        assert(self.eligible_weight(possible, 4, 5) <= self.super_missile);
    }

    fn eligible_sum(&self, possible: &DropSet, lo: u8, hi: u8) -> (r: u32)
        requires
            lo <= hi <= 6,
        ensures
            r == self.eligible_weight(possible@, lo as int, hi as int),
            r <= 255 * (hi - lo),
    {
        let mut acc: u32 = 0;
        let mut i: u8 = lo;
        while i < hi
            invariant
                lo <= i <= hi <= 6,
                acc == self.eligible_weight(possible@, lo as int, i as int),
                acc <= 255 * (i - lo),
            decreases hi - i,
        {
            let d = Drop::from_index(i);
            if possible.contains(&d) {
                acc = acc + self.get(d) as u32;
            }
            i = i + 1;
        }
        acc
    }

    /// The drop that the draw value `random` selects among `possible`.
    pub fn pick(&self, possible: &DropSet, random: u16) -> (r: Drop)
        requires
            self.fits(possible@),
        ensures
            r == self.pick_spec(possible@, random as int),
    {
        let pool = self.eligible_sum(possible, 0, 4);
        let major = self.eligible_sum(possible, 4, 6);
        proof {
            self.lemma_major_weight(possible@);
        }
        let complement: u32 = 255 - major;
        let mut acc: u32 = 0;
        let mut i: u8 = 0;
        if pool > 0 {
            while i < 4
                invariant
                    i <= 4,
                    pool == self.minor_pool(possible@),
                    pool > 0,
                    complement == self.major_complement(possible@),
                    complement <= 255,
                    acc == self.cumulative(possible@, i as int),
                    acc <= 65025 * i,
                    self.pick_spec(possible@, random as int) == self.pick_from(
                        possible@,
                        random as int,
                        i as int,
                    ),
                decreases 4 - i,
            {
                let w = self.get(Drop::from_index(i)) as u32;
                proof {
                    lemma_div_is_ordered_by_denominator((w * complement) as int, 1, pool as int);
                    assert(w * complement <= 65025) by (nonlinear_arith)
                        requires
                            w <= 255,
                            complement <= 255,
                    ;
                }
                acc = acc + w * complement / pool;
                if acc >= random as u32 {
                    return Drop::from_index(i);
                }
                i = i + 1;
            }
        } else {
            proof {
                let p = possible@;
                let r = random as int;
                assert(self.minor_pool(p) == 0);
                assert(self.cumulative(p, 0) == 0);
                assert(self.share(p, 0) == 0);
                assert(self.cumulative(p, 1) == 0);
                assert(self.cumulative(p, 2) == 0);
                assert(self.cumulative(p, 3) == 0);
                assert(self.cumulative(p, 4) == 0);
                assert(self.pick_from(p, r, 0) == self.pick_from(p, r, 1));
                assert(self.pick_from(p, r, 1) == self.pick_from(p, r, 2));
                assert(self.pick_from(p, r, 2) == self.pick_from(p, r, 3));
                assert(self.pick_from(p, r, 3) == self.pick_from(p, r, 4));
            }
            i = 4;
        }
        while i < 6
            invariant
                4 <= i <= 6,
                acc == self.cumulative(possible@, i as int),
                acc <= 65025 * 4 + 255 * (i - 4),
                self.pick_spec(possible@, random as int) == self.pick_from(
                    possible@,
                    random as int,
                    i as int,
                ),
            decreases 6 - i,
        {
            acc = acc + self.get(Drop::from_index(i)) as u32;
            if acc >= random as u32 {
                return Drop::from_index(i);
            }
            i = i + 1;
        }
        Drop::Nothing
    }

    /// Simulates one drop: one draw from the generator, resolved by `pick`.
    pub fn roll_one(&self, rng: &mut Rng, possible: &DropSet) -> (r: Drop)
        requires
            self.fits(possible@),
        ensures
            *final(rng) == (Rng { seed: draw_state(old(rng).seed), ..*old(rng) }),
            r == self.pick_spec(possible@, draw_value(old(rng).seed)),
    {
        let mut random = rng.roll() % 256;
        if random == 0 {
            random = rng.roll() % 256;
        }
        self.pick(possible, random)
    }

    /// The expected count of `drop` after farming `farms` enemies, times 255: the drop's
    /// share of the draw values if it is possible, times the draws per enemy and `farms`.
    pub fn ideal_drops_per_farm_scaled(&self, drop: Drop, possible: &DropSet, farms: u32) -> (r: u128)
        requires
            self.fits(possible@),
        ensures
            r == self.ideal_chance(drop, possible@) * self.draws_per_kill() * farms,
    {
        if !possible.contains(&drop) {
            proof {
                let c = self.ideal_chance(drop, possible@);
                let k = self.draws_per_kill();
                assert(c == 0);
                assert(c * k * farms == 0) by (nonlinear_arith)
                    requires
                        c == 0,
                ;
            }
            return 0;
        }
        let pool = self.eligible_sum(possible, 0, 4);
        let major = self.eligible_sum(possible, 4, 6);
        proof {
            self.lemma_major_weight(possible@);
        }
        let complement: u32 = 255 - major;
        let w = self.get(drop) as u32;
        let chance: u32 = if drop.is_major() {
            w
        } else if pool == 0 {
            0
        } else {
            proof {
                lemma_div_is_ordered_by_denominator((w * complement) as int, 1, pool as int);
                assert(w * complement <= 65025) by (nonlinear_arith)
                    requires
                        w <= 255,
                        complement <= 255,
                ;
            }
            w * complement / pool
        };
        let draws: u64 = match self.count {
            Some(c) => c as u64,
            None => 1,
        } + match self.extra {
            Some(_) => 1,
            None => 0,
        };
        proof {
            assert(chance * draws <= 65025 * 0x1_0000_0000) by (nonlinear_arith)
                requires
                    chance <= 65025,
                    draws <= 0x1_0000_0000,
            ;
        }
        let per_kill: u64 = chance as u64 * draws;
        proof {
            assert(per_kill * farms <= 65025 * 0x1_0000_0000 * 0x1_0000_0000) by (nonlinear_arith)
                requires
                    per_kill <= 65025 * 0x1_0000_0000,
                    farms < 0x1_0000_0000,
            ;
        }
        per_kill as u128 * farms as u128
    }
}

/// With every drop possible, no major weight, minor weights that add up to 255, one draw per
/// enemy and one enemy, a minor drop's expected count is its weight in 255ths.
pub proof fn lemma_ideal_minor_is_weight(t: DropTable, d: Drop)
    requires
        t.super_missile == 0,
        t.power_bomb == 0,
        t.small_energy + t.big_energy + t.missile + t.nothing == 255,
        t.count == Some(1u32) || t.count.is_none(),
        t.extra.is_none(),
        !is_major_spec(d),
    ensures
        t.ideal_chance(d, Set::<Drop>::full()) * t.draws_per_kill() * 1 == t.weight(d),
{
    let p = Set::<Drop>::full();
    assert(t.eligible_weight(p, 0, 0) == 0);
    assert(t.eligible_weight(p, 0, 1) == t.small_energy);
    assert(t.eligible_weight(p, 0, 2) == t.small_energy + t.big_energy);
    assert(t.eligible_weight(p, 0, 3) == t.small_energy + t.big_energy + t.missile);
    assert(t.minor_pool(p) == 255);
    assert(t.eligible_weight(p, 4, 4) == 0);
    assert(t.eligible_weight(p, 4, 5) == 0);
    assert(t.major_complement(p) == 255);
    let w = t.weight(d);
    assert((w * 255) / 255 == w) by (nonlinear_arith)
        requires
            0 <= w,
    ;
    assert(index_of(d) < 4);
    assert(drop_at(index_of(d) as int) == d);
    assert(p.contains(d));
    assert(t.share(p, index_of(d) as int) == w);
    assert(t.draws_per_kill() == 1);
}

} // verus!
