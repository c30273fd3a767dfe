use vstd::prelude::*;

pub mod analysis;
pub mod batch;
pub mod table;

pub use batch::DropRolls;
pub use table::{DropTable, ExplosionDrop};

verus! {

/// A kind of drop.
#[derive(Clone, Copy, Debug, PartialEq, Eq, Hash, Structural)]
pub enum Drop {
    Nothing,
    SmallEnergy,
    BigEnergy,
    Missile,
    SuperMissile,
    PowerBomb,
}

/// The position of a drop in canonical order: the four minor drops, then the two major ones.
pub open spec fn index_of(d: Drop) -> u8 {
    match d {
        Drop::SmallEnergy => 0,
        Drop::BigEnergy => 1,
        Drop::Missile => 2,
        Drop::Nothing => 3,
        Drop::SuperMissile => 4,
        Drop::PowerBomb => 5,
    }
}

/// The drop at position `i` of canonical order.
pub open spec fn drop_at(i: int) -> Drop {
    if i == 0 {
        Drop::SmallEnergy
    } else if i == 1 {
        Drop::BigEnergy
    } else if i == 2 {
        Drop::Missile
    } else if i == 3 {
        Drop::Nothing
    } else if i == 4 {
        Drop::SuperMissile
    } else {
        Drop::PowerBomb
    }
}

/// Whether a drop belongs to the major tier.
pub open spec fn is_major_spec(d: Drop) -> bool {
    d == Drop::SuperMissile || d == Drop::PowerBomb
}

impl Drop {
    /// Whether this drop belongs to the major tier (super missiles and power bombs).
    pub fn is_major(&self) -> (r: bool)
        ensures
            r == is_major_spec(*self),
            r == (index_of(*self) >= 4),
    {
        match self {
            Drop::Nothing | Drop::SmallEnergy | Drop::BigEnergy | Drop::Missile => false,
            Drop::SuperMissile | Drop::PowerBomb => true,
        }
    }

    /// The drop's position in canonical order.
    pub fn index(&self) -> (r: u8)
        ensures
            r == index_of(*self),
            r < 6,
            drop_at(r as int) == *self,
    {
        match self {
            Drop::SmallEnergy => 0,
            Drop::BigEnergy => 1,
            Drop::Missile => 2,
            Drop::Nothing => 3,
            Drop::SuperMissile => 4,
            Drop::PowerBomb => 5,
        }
    }

    /// The drop at position `index` of canonical order.
    pub fn from_index(index: u8) -> (r: Drop)
        requires
            index < 6,
        ensures
            r == drop_at(index as int),
            index_of(r) == index,
    {
        match index {
            0 => Drop::SmallEnergy,
            1 => Drop::BigEnergy,
            2 => Drop::Missile,
            3 => Drop::Nothing,
            4 => Drop::SuperMissile,
            _ => Drop::PowerBomb,
        }
    }
}

/// Whether bit `i` of `b` is set.
pub open spec fn has_bit(b: u8, i: u8) -> bool {
    (b >> i) & 1u8 == 1u8
}

/// A bit of `a | b` is set when it is set in either.
proof fn lemma_bit_or(a: u8, b: u8, i: u8)
    requires
        i < 8,
    ensures
        ((a | b) >> i) & 1u8 == 1u8 <==> ((a >> i) & 1u8 == 1u8 || (b >> i) & 1u8 == 1u8),
{
    assert(((a | b) >> i) & 1u8 == 1u8 <==> ((a >> i) & 1u8 == 1u8 || (b >> i) & 1u8 == 1u8)) by (bit_vector)
        requires
            i < 8,
    ;
}

/// A bit of `a & b` is set when it is set in both.
proof fn lemma_bit_and(a: u8, b: u8, i: u8)
    requires
        i < 8,
    ensures
        ((a & b) >> i) & 1u8 == 1u8 <==> ((a >> i) & 1u8 == 1u8 && (b >> i) & 1u8 == 1u8),
{
    assert(((a & b) >> i) & 1u8 == 1u8 <==> ((a >> i) & 1u8 == 1u8 && (b >> i) & 1u8 == 1u8)) by (bit_vector)
        requires
            i < 8,
    ;
}

/// A bit of `a & !b` is set when it is set in `a` and not in `b`.
proof fn lemma_bit_and_not(a: u8, b: u8, i: u8)
    requires
        i < 8,
    ensures
        ((a & !b) >> i) & 1u8 == 1u8 <==> ((a >> i) & 1u8 == 1u8 && (b >> i) & 1u8 != 1u8),
{
    assert(((a & !b) >> i) & 1u8 == 1u8 <==> ((a >> i) & 1u8 == 1u8 && (b >> i) & 1u8 != 1u8)) by (bit_vector)
        requires
            i < 8,
    ;
}

/// A bit of `a ^ b` is set when it is set in exactly one.
proof fn lemma_bit_xor(a: u8, b: u8, i: u8)
    requires
        i < 8,
    ensures
        ((a ^ b) >> i) & 1u8 == 1u8 <==> ((a >> i) & 1u8 == 1u8) != ((b >> i) & 1u8 == 1u8),
{
    assert(((a ^ b) >> i) & 1u8 == 1u8 <==> ((a >> i) & 1u8 == 1u8) != ((b >> i) & 1u8 == 1u8)) by (bit_vector)
        requires
            i < 8,
    ;
}

/// `1 << j` has bit `j` set and no other.
proof fn lemma_bit_single(j: u8, i: u8)
    requires
        i < 8,
        j < 8,
    ensures
        ((1u8 << j) >> i) & 1u8 == 1u8 <==> i == j,
{
    assert(((1u8 << j) >> i) & 1u8 == 1u8 <==> i == j) by (bit_vector)
        requires
            i < 8,
            j < 8,
    ;
}

/// No bit of zero is set.
proof fn lemma_bits_zero(i: u8)
    requires
        i < 8,
    ensures
        (0u8 >> i) & 1u8 != 1u8,
{
    assert((0u8 >> i) & 1u8 != 1u8) by (bit_vector)
        requires
            i < 8,
    ;
}

/// Setting or clearing one of the six low bits keeps a value below 64.
proof fn lemma_bit_set_small(a: u8, j: u8)
    requires
        a < 64,
        j < 6,
    ensures
        a | (1u8 << j) < 64,
        a & !(1u8 << j) < 64,
{
    assert(a | (1u8 << j) < 64) by (bit_vector)
        requires
            a < 64,
            j < 6,
    ;
    assert(a & !(1u8 << j) < 64) by (bit_vector)
        requires
            a < 64,
            j < 6,
    ;
}

/// The bit operations keep values below 64.
proof fn lemma_bits_small(a: u8, b: u8)
    requires
        a < 64,
        b < 64,
    ensures
        a | b < 64,
        a & b < 64,
        a & !b < 64,
        a ^ b < 64,
{
    assert(a | b < 64) by (bit_vector)
        requires
            a < 64,
            b < 64,
    ;
    assert(a & b < 64) by (bit_vector)
        requires
            a < 64,
            b < 64,
    ;
    assert(a & !b < 64) by (bit_vector)
        requires
            a < 64,
            b < 64,
    ;
    assert(a ^ b < 64) by (bit_vector)
        requires
            a < 64,
            b < 64,
    ;
}

/// Two values below 64 with the same six low bits are equal.
proof fn lemma_bits_same(a: u8, b: u8)
    requires
        a < 64,
        b < 64,
        ((a >> 0u8) & 1u8 == 1u8) == ((b >> 0u8) & 1u8 == 1u8),
        ((a >> 1u8) & 1u8 == 1u8) == ((b >> 1u8) & 1u8 == 1u8),
        ((a >> 2u8) & 1u8 == 1u8) == ((b >> 2u8) & 1u8 == 1u8),
        ((a >> 3u8) & 1u8 == 1u8) == ((b >> 3u8) & 1u8 == 1u8),
        ((a >> 4u8) & 1u8 == 1u8) == ((b >> 4u8) & 1u8 == 1u8),
        ((a >> 5u8) & 1u8 == 1u8) == ((b >> 5u8) & 1u8 == 1u8),
    ensures
        a == b,
{
    assert(a == b) by (bit_vector)
        requires
            a < 64,
            b < 64,
            ((a >> 0u8) & 1u8 == 1u8) == ((b >> 0u8) & 1u8 == 1u8),
            ((a >> 1u8) & 1u8 == 1u8) == ((b >> 1u8) & 1u8 == 1u8),
            ((a >> 2u8) & 1u8 == 1u8) == ((b >> 2u8) & 1u8 == 1u8),
            ((a >> 3u8) & 1u8 == 1u8) == ((b >> 3u8) & 1u8 == 1u8),
            ((a >> 4u8) & 1u8 == 1u8) == ((b >> 4u8) & 1u8 == 1u8),
            ((a >> 5u8) & 1u8 == 1u8) == ((b >> 5u8) & 1u8 == 1u8),
    ;
}

/// A set of drops, one bit per drop in canonical order.
#[derive(Clone, Copy, Debug, PartialEq, Eq, Hash, Structural)]
pub struct DropSet(u8);

/// The drops of `s` among the first `k` in canonical order, in that order.
pub open spec fn members_upto(s: Set<Drop>, k: int) -> Seq<Drop>
    decreases k,
{
    if k <= 0 {
        Seq::empty()
    } else if s.contains(drop_at(k - 1)) {
        members_upto(s, k - 1).push(drop_at(k - 1))
    } else {
        members_upto(s, k - 1)
    }
}

impl View for DropSet {
    type V = Set<Drop>;

    closed spec fn view(&self) -> Set<Drop> {
        Set::new(|d: Drop| has_bit(self.0, index_of(d)))
    }
}

impl DropSet {
    /// Only the six bits of the drops are used.
    pub closed spec fn wf(self) -> bool {
        self.0 < 64
    }

    /// The drops of the set in canonical order.
    pub open spec fn members(self) -> Seq<Drop> {
        members_upto(self@, 6)
    }

    /// Two well-formed sets with the same drops are the same value.
    pub proof fn lemma_view_injective(a: DropSet, b: DropSet)
        requires
            a.wf(),
            b.wf(),
            a@ == b@,
        ensures
            a == b,
    {
        assert(a@.contains(Drop::SmallEnergy) == has_bit(a.0, index_of(Drop::SmallEnergy)));
        assert(b@.contains(Drop::SmallEnergy) == has_bit(b.0, index_of(Drop::SmallEnergy)));
        assert(a@.contains(Drop::BigEnergy) == has_bit(a.0, index_of(Drop::BigEnergy)));
        assert(b@.contains(Drop::BigEnergy) == has_bit(b.0, index_of(Drop::BigEnergy)));
        assert(a@.contains(Drop::Missile) == has_bit(a.0, index_of(Drop::Missile)));
        assert(b@.contains(Drop::Missile) == has_bit(b.0, index_of(Drop::Missile)));
        assert(a@.contains(Drop::Nothing) == has_bit(a.0, index_of(Drop::Nothing)));
        assert(b@.contains(Drop::Nothing) == has_bit(b.0, index_of(Drop::Nothing)));
        assert(a@.contains(Drop::SuperMissile) == has_bit(a.0, index_of(Drop::SuperMissile)));
        assert(b@.contains(Drop::SuperMissile) == has_bit(b.0, index_of(Drop::SuperMissile)));
        assert(a@.contains(Drop::PowerBomb) == has_bit(a.0, index_of(Drop::PowerBomb)));
        assert(b@.contains(Drop::PowerBomb) == has_bit(b.0, index_of(Drop::PowerBomb)));
        lemma_bits_same(a.0, b.0);
    }

    /// The empty set.
    pub fn new() -> (r: DropSet)
        ensures
            r.wf(),
            r@ == Set::<Drop>::empty(),
    {
        let r = DropSet(0);
        proof {
            assert forall|d: Drop| !r@.contains(d) by {
                lemma_bits_zero(index_of(d));
            }
            assert(r@ =~= Set::<Drop>::empty());
        }
        r
    }

    /// Whether the set holds no drop.
    pub fn is_empty(&self) -> (r: bool)
        requires
            self.wf(),
        ensures
            r == (self@ == Set::<Drop>::empty()),
    {
        proof {
            let z = DropSet(0);
            assert forall|d: Drop| !z@.contains(d) by {
                lemma_bits_zero(index_of(d));
            }
            assert(z@ =~= Set::<Drop>::empty());
            if self@ == Set::<Drop>::empty() {
                DropSet::lemma_view_injective(*self, z);
            }
            if self.0 == 0 {
                assert forall|d: Drop| !self@.contains(d) by {
                    lemma_bits_zero(index_of(d));
                }
                assert(self@ =~= Set::<Drop>::empty());
            }
        }
        self.0 == 0
    }

    /// Whether the set holds `drop`.
    pub fn contains(&self, drop: &Drop) -> (r: bool)
        ensures
            r == self@.contains(*drop),
    {
        (self.0 >> drop.index()) & 1 == 1
    }

    /// Adds `drop`; returns whether it was absent before.
    pub fn insert(&mut self, drop: Drop) -> (r: bool)
        requires
            old(self).wf(),
        ensures
            final(self).wf(),
            final(self)@ == old(self)@.insert(drop),
            r == !old(self)@.contains(drop),
    {
        let inserted = !self.contains(&drop);
        let ghost a = self.0;
        let j = drop.index();
        self.0 = self.0 | (1u8 << j);
        proof {
            lemma_bit_set_small(a, j);
            assert forall|d: Drop| #[trigger] self@.contains(d) == old(self)@.insert(drop).contains(d) by {
                lemma_bit_or(a, 1u8 << j, index_of(d));
                lemma_bit_single(j, index_of(d));
            }
            assert(self@ =~= old(self)@.insert(drop));
        }
        inserted
    }

    /// Removes `drop`; returns whether it was present before.
    pub fn remove(&mut self, drop: Drop) -> (r: bool)
        requires
            old(self).wf(),
        ensures
            final(self).wf(),
            final(self)@ == old(self)@.remove(drop),
            r == old(self)@.contains(drop),
    {
        let removed = self.contains(&drop);
        let ghost a = self.0;
        let j = drop.index();
        self.0 = self.0 & !(1u8 << j);
        proof {
            lemma_bit_set_small(a, j);
            assert forall|d: Drop| #[trigger] self@.contains(d) == old(self)@.remove(drop).contains(d) by {
                lemma_bit_and_not(a, 1u8 << j, index_of(d));
                lemma_bit_single(j, index_of(d));
            }
            assert(self@ =~= old(self)@.remove(drop));
        }
        removed
    }

    /// The drops in both sets.
    pub fn intersection(&self, other: &DropSet) -> (r: DropSet)
        requires
            self.wf(),
            other.wf(),
        ensures
            r.wf(),
            r@ == self@.intersect(other@),
    {
        let r = DropSet(self.0 & other.0);
        proof {
            lemma_bits_small(self.0, other.0);
            assert forall|d: Drop| #[trigger] r@.contains(d) == self@.intersect(other@).contains(d) by {
                lemma_bit_and(self.0, other.0, index_of(d));
            }
            assert(r@ =~= self@.intersect(other@));
        }
        r
    }

    /// The drops in either set.
    pub fn union(&self, other: &DropSet) -> (r: DropSet)
        requires
            self.wf(),
            other.wf(),
        ensures
            r.wf(),
            r@ == self@.union(other@),
    {
        let r = DropSet(self.0 | other.0);
        proof {
            lemma_bits_small(self.0, other.0);
            assert forall|d: Drop| #[trigger] r@.contains(d) == self@.union(other@).contains(d) by {
                lemma_bit_or(self.0, other.0, index_of(d));
            }
            assert(r@ =~= self@.union(other@));
        }
        r
    }

    /// The drops in this set and not in `other`.
    pub fn difference(&self, other: &DropSet) -> (r: DropSet)
        requires
            self.wf(),
            other.wf(),
        ensures
            r.wf(),
            r@ == self@.difference(other@),
    {
        let r = DropSet(self.0 & !other.0);
        proof {
            lemma_bits_small(self.0, other.0);
            assert forall|d: Drop| #[trigger] r@.contains(d) == self@.difference(other@).contains(d) by {
                lemma_bit_and_not(self.0, other.0, index_of(d));
            }
            assert(r@ =~= self@.difference(other@));
        }
        r
    }

    /// The drops in exactly one of the two sets.
    pub fn symmetric_difference(&self, other: &DropSet) -> (r: DropSet)
        requires
            self.wf(),
            other.wf(),
        ensures
            r.wf(),
            r@ == self@.difference(other@).union(other@.difference(self@)),
    {
        let r = DropSet(self.0 ^ other.0);
        proof {
            lemma_bits_small(self.0, other.0);
            assert forall|d: Drop| #[trigger] r@.contains(d) == self@.difference(other@).union(
                other@.difference(self@),
            ).contains(d) by {
                lemma_bit_xor(self.0, other.0, index_of(d));
            }
            assert(r@ =~= self@.difference(other@).union(other@.difference(self@)));
        }
        r
    }

    /// The drops of the set in canonical order.
    pub fn iter(&self) -> (r: Vec<Drop>)
        ensures
            r@ == self.members(),
    {
        let mut r: Vec<Drop> = Vec::new();
        let mut i: u8 = 0;
        while i < 6
            invariant
                i <= 6,
                r@ == members_upto(self@, i as int),
            decreases 6 - i,
        {
            let d = Drop::from_index(i);
            if self.contains(&d) {
                r.push(d);
            }
            i = i + 1;
        }
        r
    }

    /// The number of drops in the set.
    pub fn len(&self) -> (r: usize)
        ensures
            r == self.members().len(),
    {
        let mut n: usize = 0;
        let mut i: u8 = 0;
        while i < 6
            invariant
                i <= 6,
                n == members_upto(self@, i as int).len(),
                n <= i,
            decreases 6 - i,
        {
            if self.contains(&Drop::from_index(i)) {
                n = n + 1;
            }
            i = i + 1;
        }
        n
    }

    /// The set of the drops in `drops`.
    pub fn from_slice(drops: &[Drop]) -> (r: DropSet)
        ensures
            r.wf(),
            r@ == drops@.to_set(),
    {
        let mut r = DropSet::new();
        let mut i: usize = 0;
        while i < drops.len()
            invariant
                i <= drops@.len(),
                r.wf(),
                r@ == drops@.subrange(0, i as int).to_set(),
            decreases drops@.len() - i,
        {
            r.insert(drops[i]);
            i = i + 1;
            proof {
                assert(drops@.subrange(0, i as int) =~= drops@.subrange(0, i - 1).push(drops@[i - 1]));
                drops@.subrange(0, i - 1).lemma_push_to_set_commute(drops@[i - 1]);
            }
        }
        proof {
            assert(drops@.subrange(0, i as int) =~= drops@);
        }
        r
    }

    /// Every drop.
    pub fn all() -> (r: DropSet)
        ensures
            r.wf(),
            r@ == Set::<Drop>::full(),
    {
        let r = DropSet(63);
        proof {
            assert forall|d: Drop| #[trigger] r@.contains(d) by {
                let i = index_of(d);
                assert((63u8 >> i) & 1u8 == 1u8) by (bit_vector)
                    requires
                        i < 6,
                ;
            }
            assert(r@ =~= Set::<Drop>::full());
        }
        r
    }

    /// The minor tier: nothing, small and big energy, missiles.
    pub fn minor() -> (r: DropSet)
        ensures
            r.wf(),
            r@ == Set::new(|d: Drop| !is_major_spec(d)),
    {
        let r = DropSet(15);
        proof {
            assert forall|d: Drop| #[trigger] r@.contains(d) == !is_major_spec(d) by {
                let i = index_of(d);
                assert(((15u8 >> i) & 1u8 == 1u8) == (i < 4)) by (bit_vector)
                    requires
                        i < 6,
                ;
            }
            assert(r@ =~= Set::new(|d: Drop| !is_major_spec(d)));
        }
        r
    }

    /// The major tier: super missiles and power bombs.
    pub fn major() -> (r: DropSet)
        ensures
            r.wf(),
            r@ == Set::new(|d: Drop| is_major_spec(d)),
    {
        let r = DropSet(48);
        proof {
            assert forall|d: Drop| #[trigger] r@.contains(d) == is_major_spec(d) by {
                let i = index_of(d);
                assert(((48u8 >> i) & 1u8 == 1u8) == (i >= 4)) by (bit_vector)
                    requires
                        i < 6,
                ;
            }
            assert(r@ =~= Set::new(|d: Drop| is_major_spec(d)));
        }
        r
    }

    /// Small and big energy.
    pub fn health_bomb() -> (r: DropSet)
        ensures
            r.wf(),
            r@ == set![Drop::SmallEnergy, Drop::BigEnergy],
    {
        let r = DropSet(3);
        proof {
            assert forall|d: Drop| #[trigger] r@.contains(d) == (d == Drop::SmallEnergy || d
                == Drop::BigEnergy) by {
                let i = index_of(d);
                assert(((3u8 >> i) & 1u8 == 1u8) == (i < 2)) by (bit_vector)
                    requires
                        i < 6,
                ;
            }
            assert(r@ =~= set![Drop::SmallEnergy, Drop::BigEnergy]);
        }
        r
    }
}

impl Default for DropSet {
    fn default() -> (r: DropSet)
        ensures
            r.wf(),
            r@ == Set::<Drop>::empty(),
    {
        DropSet::new()
    }
}

proof fn lemma_index_of_drop_at(i: int)
    requires
        0 <= i < 6,
    ensures
        index_of(drop_at(i)) == i,
{
}

/// When no drop before canonical position `i` is in `s` and the one at `i` is, the members
/// up to `k > i` start with it and continue with those of `s` without it.
proof fn lemma_members_first(s: Set<Drop>, i: int, k: int)
    requires
        0 <= i < k <= 6,
        forall|j: int| 0 <= j < i ==> !s.contains(#[trigger] drop_at(j)),
        s.contains(drop_at(i)),
    ensures
        members_upto(s, k) == seq![drop_at(i)] + members_upto(s.remove(drop_at(i)), k),
    decreases k,
{
    let d = drop_at(i);
    if k == i + 1 {
        lemma_members_none(s, i);
        lemma_members_none(s.remove(d), i);
        assert(members_upto(s, k) =~= seq![d]);
        assert(!s.remove(d).contains(drop_at(i)));
        assert(seq![d] + Seq::<Drop>::empty() =~= seq![d]);
    } else {
        lemma_members_first(s, i, k - 1);
        lemma_index_of_drop_at(k - 1);
        lemma_index_of_drop_at(i);
        assert(drop_at(k - 1) != d);
        if s.contains(drop_at(k - 1)) {
            assert(s.remove(d).contains(drop_at(k - 1)));
            assert(members_upto(s, k) =~= seq![d] + members_upto(s.remove(d), k));
        } else {
            assert(!s.remove(d).contains(drop_at(k - 1)));
        }
    }
}

/// No drop before canonical position `k` is in `s`: the members up to `k` are none.
proof fn lemma_members_none(s: Set<Drop>, k: int)
    requires
        0 <= k <= 6,
        forall|j: int| 0 <= j < k ==> !s.contains(#[trigger] drop_at(j)),
    ensures
        members_upto(s, k) == Seq::<Drop>::empty(),
    decreases k,
{
    if k > 0 {
        lemma_members_none(s, k - 1);
    }
}

/// The drops of a set still to be handed out, lowest canonical position first.
pub struct DropSetIterator(DropSet);

impl View for DropSetIterator {
    type V = Seq<Drop>;

    closed spec fn view(&self) -> Seq<Drop> {
        self.0.members()
    }
}

impl DropSetIterator {
    /// The remaining set is well formed.
    pub closed spec fn wf(self) -> bool {
        self.0.wf()
    }

    /// Hands out the first remaining drop, or `None` when none remain.
    pub fn next(&mut self) -> (r: Option<Drop>)
        requires
            old(self).wf(),
        ensures
            final(self).wf(),
            old(self)@.len() == 0 ==> r.is_none() && final(self)@ == old(self)@,
            old(self)@.len() > 0 ==> r == Some(old(self)@[0]) && final(self)@ == old(self)@.subrange(
                1,
                old(self)@.len() as int,
            ),
    {
        let mut i: u8 = 0;
        while i < 6 && !self.0.contains(&Drop::from_index(i))
            invariant
                i <= 6,
                forall|j: int| 0 <= j < i ==> !self.0@.contains(#[trigger] drop_at(j)),
            decreases 6 - i,
        {
            i = i + 1;
        }
        if i == 6 {
            proof {
                lemma_members_none(self.0@, 6);
            }
            None
        } else {
            let d = Drop::from_index(i);
            let ghost before = self.0@;
            proof {
                lemma_members_first(before, i as int, 6);
            }
            self.0.remove(d);
            proof {
                let m = before.remove(d);
                assert(members_upto(m, 6) =~= (seq![d] + members_upto(m, 6)).subrange(
                    1,
                    members_upto(before, 6).len() as int,
                ));
            }
            Some(d)
        }
    }
}

impl DropSet {
    /// A cursor over the drops of the set, in canonical order.
    pub fn into_iter(self) -> (r: DropSetIterator)
        requires
            self.wf(),
        ensures
            r.wf(),
            r@ == self.members(),
    {
        DropSetIterator(self)
    }
}

/// For all sets: `(a ∪ b) ∩ a` is `a`, `a − a` is empty, and `a ⊕ a` is empty, as sets and,
/// for well-formed sets, as values.
pub proof fn lemma_set_algebra(a: DropSet, b: DropSet)
    ensures
        a@.union(b@).intersect(a@) == a@,
        a@.difference(a@) == Set::<Drop>::empty(),
        a@.difference(a@).union(a@.difference(a@)) == Set::<Drop>::empty(),
        forall|i: DropSet|
            a.wf() && i.wf() && #[trigger] i@ == a@.union(b@).intersect(a@) ==> i == a,
{
    assert(a@.union(b@).intersect(a@) =~= a@);
    assert(a@.difference(a@) =~= Set::<Drop>::empty());
    assert(a@.difference(a@).union(a@.difference(a@)) =~= Set::<Drop>::empty());
    assert forall|i: DropSet| a.wf() && i.wf() && #[trigger] i@ == a@.union(b@).intersect(a@) implies i
        == a by {
        DropSet::lemma_view_injective(i, a);
    }
}

} // verus!
