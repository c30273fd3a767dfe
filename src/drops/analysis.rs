use vstd::prelude::*;

use crate::drops::batch::lemma_batch_len;
use crate::drops::table::draw_value;
use crate::drops::{Drop, DropSet, DropTable};
use crate::rng::Rng;

verus! {

/// How often `d` occurs in `ds`.
pub open spec fn count_of(ds: Seq<Drop>, d: Drop) -> nat
    decreases ds.len(),
{
    if ds.len() == 0 {
        0
    } else {
        count_of(ds.drop_last(), d) + if ds.last() == d {
            1nat
        } else {
            0nat
        }
    }
}

/// A drop occurs at most as often as the sequence is long.
proof fn lemma_count_le_len(ds: Seq<Drop>, d: Drop)
    ensures
        count_of(ds, d) <= ds.len(),
    decreases ds.len(),
{
    if ds.len() > 0 {
        lemma_count_le_len(ds.drop_last(), d);
    }
}

/// The simulated results of farming an enemy over a set of seeds.
#[derive(Clone, Copy, Debug, PartialEq, Eq, Hash, Structural)]
pub struct DropAnalysis {
    /// The number of seeds sampled.
    pub seeds: u32,
    pub nothing: u32,
    pub small_energy: u32,
    pub big_energy: u32,
    pub missile: u32,
    pub super_missile: u32,
    pub power_bomb: u32,
}

impl Default for DropAnalysis {
    fn default() -> (r: DropAnalysis)
        ensures
            r == DropAnalysis::zero(),
    {
        DropAnalysis::new()
    }
}

impl DropAnalysis {
    /// The counter of drop `d`.
    pub open spec fn tally(self, d: Drop) -> int {
        match d {
            Drop::Nothing => self.nothing as int,
            Drop::SmallEnergy => self.small_energy as int,
            Drop::BigEnergy => self.big_energy as int,
            Drop::Missile => self.missile as int,
            Drop::SuperMissile => self.super_missile as int,
            Drop::PowerBomb => self.power_bomb as int,
        }
    }

    /// All counters zero.
    pub open spec fn zero() -> DropAnalysis {
        DropAnalysis {
            seeds: 0,
            nothing: 0,
            small_energy: 0,
            big_energy: 0,
            missile: 0,
            super_missile: 0,
            power_bomb: 0,
        }
    }

    /// All counters zero.
    pub fn new() -> (r: DropAnalysis)
        ensures
            r == DropAnalysis::zero(),
    {
        DropAnalysis {
            seeds: 0,
            nothing: 0,
            small_energy: 0,
            big_energy: 0,
            missile: 0,
            super_missile: 0,
            power_bomb: 0,
        }
    }

    /// Counts one `drop`.
    fn update(&mut self, drop: Drop)
        requires
            old(self).tally(drop) < 0xffff_ffff,
        ensures
            final(self).seeds == old(self).seeds,
            forall|d: Drop|
                #[trigger] final(self).tally(d) == old(self).tally(d) + if d == drop {
                    1int
                } else {
                    0int
                },
    {
        match drop {
            Drop::Nothing => self.nothing = self.nothing + 1,
            Drop::SmallEnergy => self.small_energy = self.small_energy + 1,
            Drop::BigEnergy => self.big_energy = self.big_energy + 1,
            Drop::Missile => self.missile = self.missile + 1,
            Drop::SuperMissile => self.super_missile = self.super_missile + 1,
            Drop::PowerBomb => self.power_bomb = self.power_bomb + 1,
        }
    }
}

/// How often `d` occurs among the batches of `n` enemies started at each of `seeds`.
#[verifier::opaque]
pub open spec fn correlated_count(
    table: DropTable,
    cfg: Rng,
    possible: Set<Drop>,
    n: int,
    seeds: Seq<u16>,
    d: Drop,
) -> nat
    decreases seeds.len(),
{
    if seeds.len() == 0 {
        0
    } else {
        correlated_count(table, cfg, possible, n, seeds.drop_last(), d) + count_of(
            table.batch_from((Rng { seed: 0, ..cfg }), possible, n, 0, 0, seeds.last()).0,
            d,
        )
    }
}

/// How often `d` is the outcome among the first `k` single draws, the `j`-th drawn afresh
/// from seed `seeds[j % seeds.len()]`.
pub open spec fn uncorrelated_count(
    table: DropTable,
    possible: Set<Drop>,
    seeds: Seq<u16>,
    k: int,
    d: Drop,
) -> nat
    decreases k,
{
    if k <= 0 {
        0
    } else {
        uncorrelated_count(table, possible, seeds, k - 1, d) + if table.pick_spec(
            possible,
            draw_value(seeds[(k - 1) % (seeds.len() as int)]),
        ) == d {
            1nat
        } else {
            0nat
        }
    }
}

/// Counting one more seed adds the drops of its batch.
proof fn lemma_correlated_step(
    table: DropTable,
    cfg: Rng,
    possible: Set<Drop>,
    n: int,
    seeds: Seq<u16>,
    i: int,
)
    requires
        0 <= i < seeds.len(),
    ensures
        forall|d: Drop|
            #[trigger] correlated_count(table, cfg, possible, n, seeds.subrange(0, i + 1), d)
                == correlated_count(table, cfg, possible, n, seeds.subrange(0, i), d) + count_of(
                table.batch_from((Rng { seed: 0, ..cfg }), possible, n, 0, 0, seeds[i]).0,
                d,
            ),
{
    reveal(correlated_count);
    assert(seeds.subrange(0, i + 1).drop_last() =~= seeds.subrange(0, i));
}

/// Counts every drop of `drops`.
fn tally_all(analysis: &mut DropAnalysis, drops: &Vec<Drop>)
    requires
        forall|d: Drop| #[trigger] old(analysis).tally(d) + drops@.len() <= 0xffff_ffff,
    ensures
        final(analysis).seeds == old(analysis).seeds,
        forall|d: Drop| #[trigger] final(analysis).tally(d) == old(analysis).tally(d) + count_of(drops@, d),
{
    let ghost base = *analysis;
    let mut j: usize = 0;
    while j < drops.len()
        invariant
            j <= drops@.len(),
            analysis.seeds == base.seeds,
            forall|d: Drop| #[trigger] base.tally(d) + drops@.len() <= 0xffff_ffff,
            forall|d: Drop|
                #[trigger] analysis.tally(d) == base.tally(d) + count_of(drops@.subrange(0, j as int), d),
        decreases drops@.len() - j,
    {
        proof {
            lemma_count_le_len(drops@.subrange(0, j as int), drops@[j as int]);
        }
        analysis.update(drops[j]);
        j = j + 1;
        proof {
            assert(drops@.subrange(0, j as int).drop_last() =~= drops@.subrange(0, j - 1));
        }
    }
    proof {
        assert(drops@.subrange(0, j as int) =~= drops@);
    }
}

/// Counts the drops of `n` enemies farmed from `seed`.
fn tally_seed(
    analysis: &mut DropAnalysis,
    table: &DropTable,
    possible: &DropSet,
    n: u32,
    rng: Rng,
    seed: u16,
    per: Ghost<int>,
)
    requires
        table.fits(possible@),
        table.primary_draws(n as int) + (if table.extra.is_some() { n as int } else { 0 }) == per@,
        forall|d: Drop| #[trigger] old(analysis).tally(d) + per@ <= 0xffff_ffff,
    ensures
        final(analysis).seeds == old(analysis).seeds,
        forall|d: Drop|
            #[trigger] final(analysis).tally(d) == old(analysis).tally(d) + count_of(
                table.batch_from((Rng { seed: 0, ..rng }), possible@, n as int, 0, 0, seed).0,
                d,
            ),
        forall|d: Drop| #[trigger] final(analysis).tally(d) <= old(analysis).tally(d) + per@,
{
    let mut r = rng.with_seed(seed);
    let drops = table.roll_multiple(&mut r, possible, n);
    proof {
        assert((Rng { seed: 0, ..r }) == (Rng { seed: 0, ..rng }));
        lemma_batch_len(*table, Rng { seed: 0, ..rng }, possible@, n as int, 0, 0, seed);
    }
    tally_all(analysis, &drops);
    proof {
        assert forall|d: Drop| #[trigger] analysis.tally(d) <= old(analysis).tally(d) + per@ by {
            lemma_count_le_len(drops@, d);
        }
    }
}

#[verifier::rlimit(40)]
/// Simulates farming `n` enemies at once from each of `seeds`, the draws of one seed sharing
/// one generator trajectory. Counts every drop and the seeds.
pub fn analyze_correlated(
    table: &DropTable,
    possible: &DropSet,
    n: u32,
    rng: Rng,
    seeds: &[u16],
) -> (r: DropAnalysis)
    requires
        table.fits(possible@),
        seeds@.len() <= 0xffff_ffff,
        seeds@.len() * table.draws_per_kill() * n <= 0xffff_ffff,
    ensures
        r.seeds == seeds@.len(),
        forall|d: Drop|
            #[trigger] r.tally(d) == correlated_count(*table, rng, possible@, n as int, seeds@, d),
{
    let mut analysis = DropAnalysis::new();
    proof {
        assert forall|d: Drop| #[trigger] analysis.tally(d) == correlated_count(
            *table,
            rng,
            possible@,
            n as int,
            seeds@.subrange(0, 0),
            d,
        ) by {
            reveal(correlated_count);
        }
    }
    let ghost per = table.draws_per_kill() * n;
    proof {
        assert(0 <= table.draws_per_kill());
        assert(0 <= per) by (nonlinear_arith)
            requires
                per == table.draws_per_kill() * n,
                0 <= table.draws_per_kill(),
        ;
        assert(seeds@.len() * per <= 0xffff_ffff) by (nonlinear_arith)
            requires
                per == table.draws_per_kill() * n,
                seeds@.len() * table.draws_per_kill() * n <= 0xffff_ffff,
        ;
        assert(table.primary_draws(n as int) + (if table.extra.is_some() { n as int } else { 0 })
            == per) by (nonlinear_arith)
            requires
                per == table.draws_per_kill() * n,
                table.draws_per_kill() == table.multiplicity() + if table.extra.is_some() {
                    1int
                } else {
                    0int
                },
                table.primary_draws(n as int) == table.multiplicity() * n,
        ;
    }
    let ghost mut used: int = 0;
    let ghost mut left: int = seeds@.len() * per;
    let mut i: usize = 0;
    while i < seeds.len()
        invariant
            table.fits(possible@),
            i <= seeds@.len(),
            seeds@.len() <= 0xffff_ffff,
            per >= 0,
            table.primary_draws(n as int) + (if table.extra.is_some() { n as int } else { 0 }) == per,
            analysis.seeds == i,
            forall|d: Drop|
                #[trigger] analysis.tally(d) == correlated_count(
                    *table,
                    rng,
                    possible@,
                    n as int,
                    seeds@.subrange(0, i as int),
                    d,
                ),
            forall|d: Drop| #[trigger] analysis.tally(d) <= used,
            used + left <= 0xffff_ffff,
            left == (seeds@.len() - i) * per,
        decreases seeds@.len() - i,
    {
        let ghost prev = analysis;
        analysis.seeds = analysis.seeds + 1;
        let ghost base = analysis;
        proof {
            assert forall|d: Drop| #[trigger] base.tally(d) == prev.tally(d) by {}
            assert(left >= per && left - per == (seeds@.len() - (i + 1)) * per) by (nonlinear_arith)
                requires
                    left == (seeds@.len() - i) * per,
                    i + 1 <= seeds@.len(),
                    per >= 0,
            ;
            assert forall|d: Drop| #[trigger] base.tally(d) + per <= 0xffff_ffff by {
                assert(prev.tally(d) <= used);
            }
            lemma_correlated_step(*table, rng, possible@, n as int, seeds@, i as int);
        }
        tally_seed(&mut analysis, table, possible, n, rng, seeds[i], Ghost(per));
        i = i + 1;
        proof {
            assert forall|d: Drop| #[trigger] analysis.tally(d) <= used + per by {
                assert(prev.tally(d) <= used);
            }
            assert forall|d: Drop| #[trigger] analysis.tally(d) == correlated_count(
                *table,
                rng,
                possible@,
                n as int,
                seeds@.subrange(0, i as int),
                d,
            ) by {
                assert(prev.tally(d) == correlated_count(
                    *table,
                    rng,
                    possible@,
                    n as int,
                    seeds@.subrange(0, i - 1),
                    d,
                ));
            }
            used = used + per;
            left = left - per;
        }
    }
    proof {
        assert(seeds@.subrange(0, i as int) =~= seeds@);
    }
    analysis
}

/// Simulates `seeds.len() × draws-per-enemy × n` single draws, each from a fresh generator
/// whose seed is taken from `seeds` in turn, cycling. Counts every drop and the seeds.
pub fn analyze_uncorrelated(
    table: &DropTable,
    possible: &DropSet,
    n: u32,
    seeds: &[u16],
) -> (r: DropAnalysis)
    requires
        table.fits(possible@),
        seeds@.len() <= 0xffff_ffff,
        seeds@.len() * table.draws_per_kill() * n <= 0xffff_ffff,
    ensures
        r.seeds == seeds@.len(),
        forall|d: Drop|
            #[trigger] r.tally(d) == uncorrelated_count(
                *table,
                possible@,
                seeds@,
                seeds@.len() * table.draws_per_kill() * n,
                d,
            ),
{
    let mut analysis = DropAnalysis::new();
    let num_seeds = seeds.len() as u32;
    analysis.seeds = num_seeds;
    let total = draw_total(table, num_seeds, n);
    let mut k: u32 = 0;
    while k < total
        invariant
            table.fits(possible@),
            k <= total,
            total == seeds@.len() * table.draws_per_kill() * n,
            total > 0 ==> seeds@.len() > 0,
            analysis.seeds == seeds@.len(),
            forall|d: Drop|
                #[trigger] analysis.tally(d) == uncorrelated_count(
                    *table,
                    possible@,
                    seeds@,
                    k as int,
                    d,
                ),
            forall|d: Drop| #[trigger] analysis.tally(d) <= k,
        decreases total - k,
    {
        let seed = seeds[(k as usize) % seeds.len()];
        let mut r = Rng::reset().with_seed(seed);
        let drop = table.roll_one(&mut r, possible);
        analysis.update(drop);
        k = k + 1;
    }
    analysis
}

/// The number of single draws for `num_seeds` seeds and `n` enemies.
fn draw_total(table: &DropTable, num_seeds: u32, n: u32) -> (r: u32)
    requires
        num_seeds * table.draws_per_kill() * n <= 0xffff_ffff,
    ensures
        r == num_seeds * table.draws_per_kill() * n,
        r > 0 ==> num_seeds > 0,
{
    let per_kill: u64 = match table.count {
        Some(c) => c as u64,
        None => 1,
    } + match table.extra {
        Some(_) => 1,
        None => 0,
    };
    proof {
        assert(per_kill == table.draws_per_kill());
        assert(num_seeds * per_kill * n <= 0xffff_ffff);
        assert(num_seeds * per_kill <= 0xffff_ffff * 0x1_0000_0000) by (nonlinear_arith)
            requires
                num_seeds <= 0xffff_ffff,
                per_kill <= 0x1_0000_0000,
        ;
    }
    let t: u64 = num_seeds as u64 * per_kill;
    if n == 0 {
        proof {
            assert(num_seeds * per_kill * n == 0) by (nonlinear_arith)
                requires
                    n == 0,
            ;
        }
        return 0;
    }
    proof {
        assert(t <= t * n) by (nonlinear_arith)
            requires
                n >= 1,
                t >= 0,
        ;
    }
    let r = (t * n as u64) as u32;
    proof {
        if r > 0 && num_seeds == 0 {
            assert(num_seeds * per_kill * n == 0) by (nonlinear_arith)
                requires
                    num_seeds == 0,
            ;
        }
    }
    r
}

} // verus!
