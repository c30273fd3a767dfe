use vstd::prelude::*;
use vstd::arithmetic::div_mod::{lemma_mod_self_0, lemma_small_mod};
use vstd::set_lib::{lemma_int_range, lemma_map_size, set_int_range};

use crate::rng::Rng;

verus! {

/// Whether a seed lies on a branch or on a loop, and which one.
#[derive(Clone, Copy, Debug, PartialEq, Eq, Structural)]
pub enum SeedInfo {
    Branch { id: u16 },
    Loop { id: u16 },
}

/// Seeds that are not on a loop themselves but lead into one.
pub struct BranchInfo {
    pub seeds: Vec<u16>,
    pub loop_id: u16,
}

/// Seeds that form a cycle, in the order the generator visits them.
pub struct LoopInfo {
    pub seeds: Vec<u16>,
}

/// The loops and branches of the seed graph under one generator configuration.
pub struct Analysis {
    /// The configuration analysed.
    pub rng: Rng,
    /// The classification of every seed, indexed by seed.
    pub seeds: Vec<SeedInfo>,
    /// All branches.
    pub branches: Vec<BranchInfo>,
    /// All loops.
    pub loops: Vec<LoopInfo>,
}

/// A loop or branch index past the end of the analysis.
#[derive(Clone, Copy, Debug, PartialEq, Eq, Structural)]
pub enum IndexError {
    /// No loop with that index; `count` loops exist.
    LoopOutOfRange { count: usize },
    /// No branch with that index; `count` branches exist.
    BranchOutOfRange { count: usize },
}

impl Analysis {
    /// The seeds of loop `id`, or the number of loops if there is no such loop.
    pub fn into_loop_seeds(self, id: usize) -> (r: Result<Vec<u16>, IndexError>)
        ensures
            id < self.loops@.len() ==> r is Ok && r->Ok_0@ == self.loop_seq(id as int),
            id >= self.loops@.len() ==> r == Err::<Vec<u16>, IndexError>(
                IndexError::LoopOutOfRange { count: self.loops@.len() as usize },
            ),
    {
        let mut loops = self.loops;
        if id < loops.len() {
            let l = loops.remove(id);
            Ok(l.seeds)
        } else {
            Err(IndexError::LoopOutOfRange { count: loops.len() })
        }
    }

    /// The seeds of branch `id`, or the number of branches if there is no such branch.
    pub fn into_branch_seeds(self, id: usize) -> (r: Result<Vec<u16>, IndexError>)
        ensures
            id < self.branches@.len() ==> r is Ok && r->Ok_0@ == self.branch_seq(id as int),
            id >= self.branches@.len() ==> r == Err::<Vec<u16>, IndexError>(
                IndexError::BranchOutOfRange { count: self.branches@.len() as usize },
            ),
    {
        let mut branches = self.branches;
        if id < branches.len() {
            let b = branches.remove(id);
            Ok(b.seeds)
        } else {
            Err(IndexError::BranchOutOfRange { count: branches.len() })
        }
    }

    /// The seeds of loop `i`.
    pub open spec fn loop_seq(self, i: int) -> Seq<u16> {
        self.loops@[i].seeds@
    }

    /// The seeds of branch `i`.
    pub open spec fn branch_seq(self, i: int) -> Seq<u16> {
        self.branches@[i].seeds@
    }

    /// Loop `i` is a cycle without repeats, and each of its seeds is tagged with it.
    pub open spec fn loop_ok(self, i: int) -> bool {
        let l = self.loop_seq(i);
        &&& l.len() > 0
        &&& l.no_duplicates()
        &&& forall|j: int|
            0 <= j < l.len() ==> self.seeds@[#[trigger] l[j] as int] == (SeedInfo::Loop {
                id: i as u16,
            })
        &&& forall|j: int|
            0 <= j < l.len() ==> self.rng.next_seed(#[trigger] l[j]) == l[(j + 1) % (l.len() as int)]
    }

    /// Branch `i` has no repeats, each of its seeds is tagged with it, and each reaches the
    /// branch's loop within as many frames as the branch has seeds.
    pub open spec fn branch_ok(self, i: int) -> bool {
        let b = self.branch_seq(i);
        let target = self.branches@[i].loop_id;
        &&& b.len() > 0
        &&& b.no_duplicates()
        &&& target < self.loops@.len()
        &&& forall|j: int|
            0 <= j < b.len() ==> self.seeds@[#[trigger] b[j] as int] == (SeedInfo::Branch {
                id: i as u16,
            })
        &&& forall|j: int| 0 <= j < b.len() ==> self.reaches_loop(#[trigger] b[j], b.len(), target)
        &&& self.seeds@[self.rng.next_seed(b.last()) as int] == (SeedInfo::Loop { id: target })
        &&& forall|j: int| 0 <= j < b.len() - 1 ==> #[trigger] self.steps_forward(i, j)
    }

    /// The seed after position `j` of branch `i` lies later on the same branch: a branch is
    /// its walks, each in visiting order, the later walks put in front.
    pub open spec fn steps_forward(self, i: int, j: int) -> bool {
        let b = self.branch_seq(i);
        exists|p: int| j < p < b.len() && b[p] == self.rng.next_seed(b[j])
    }

    /// Some loop or branch holds seed `s`.
    pub open spec fn listed(self, s: u16) -> bool {
        (exists|i: int| 0 <= i < self.loops@.len() && #[trigger] self.loop_seq(i).contains(s)) || (
        exists|i: int| 0 <= i < self.branches@.len() && #[trigger] self.branch_seq(i).contains(s))
    }

    /// Within `bound` frames (at least one) seed `s` reaches a seed of loop `target`.
    pub open spec fn reaches_loop(self, s: u16, bound: nat, target: u16) -> bool {
        exists|k: nat|
            1 <= k <= bound && self.seeds@[#[trigger] self.rng.advance(s, k) as int] == (
            SeedInfo::Loop { id: target })
    }

    /// The loop that seed `s` lies on or leads into.
    pub open spec fn loop_of(self, s: u16) -> int {
        match self.seeds@[s as int] {
            SeedInfo::Loop { id } => id as int,
            SeedInfo::Branch { id } => self.branches@[id as int].loop_id as int,
        }
    }

    /// The position of seed `s` in the order in which seeds are classified: the current seed
    /// first, then all seeds in ascending order.
    pub open spec fn enumeration_key(self, s: u16) -> int {
        if s == self.rng.seed {
            0
        } else {
            s + 1
        }
    }

    /// Some seed classified before `t` leads into the loop numbered just below `t`'s.
    pub open spec fn loop_found_before(self, t: u16) -> bool {
        exists|s: u16|
            self.enumeration_key(s) < self.enumeration_key(t) && #[trigger] self.loop_of(s)
                == self.loop_of(t) - 1
    }

    /// Loop `j`'s seeds start with the first of them met from a seed `w` that leads into
    /// loop `j` and is classified no later than any other such seed.
    pub open spec fn loop_starts_where_met(self, j: int) -> bool {
        exists|w: u16, m: nat|
            #![trigger self.rng.advance(w, m)]
            self.loop_of(w) == j && (forall|s: u16|
                #[trigger] self.loop_of(s) == j ==> self.enumeration_key(w) <= self.enumeration_key(s))
                && self.rng.advance(w, m) == self.loop_seq(j)[0] && forall|m2: nat|
                m2 < m ==> self.seeds@[#[trigger] self.rng.advance(w, m2) as int] != (SeedInfo::Loop {
                    id: j as u16,
                })
    }

    /// From the current seed on, branch 0 is the current seed's trajectory in visiting order.
    pub open spec fn start_walk_in_order(self) -> bool {
        let b = self.branch_seq(0);
        exists|p: int|
            0 <= p < b.len() && b[p] == self.rng.seed && forall|j: int|
                p <= j < b.len() - 1 ==> #[trigger] b[j + 1] == self.rng.next_seed(b[j])
    }

    /// The branch that seed `s` lies on, or -1 for a seed on a loop.
    pub open spec fn branch_of(self, s: u16) -> int {
        match self.seeds@[s as int] {
            SeedInfo::Loop { .. } => -1,
            SeedInfo::Branch { id } => id as int,
        }
    }

    /// Some seed classified before `t` lies on the branch numbered just below `t`'s.
    pub open spec fn branch_found_before(self, t: u16) -> bool {
        exists|s: u16|
            self.enumeration_key(s) < self.enumeration_key(t) && #[trigger] self.branch_of(s)
                == self.branch_of(t) - 1
    }

    /// A complete classification of all 65536 seeds under `self.rng`.
    pub open spec fn wf(self) -> bool {
        &&& self.seeds@.len() == 0x10000
        &&& self.loops@.len() <= 0x10000
        &&& self.branches@.len() <= 0x10000
        &&& forall|s: int|
            0 <= s < 0x10000 ==> match #[trigger] self.seeds@[s] {
                SeedInfo::Loop { id } => id < self.loops@.len() && self.loop_seq(
                    id as int,
                ).contains(s as u16),
                SeedInfo::Branch { id } => id < self.branches@.len() && self.branch_seq(
                    id as int,
                ).contains(s as u16),
            }
        &&& forall|i: int| 0 <= i < self.loops@.len() ==> #[trigger] self.loop_ok(i)
        &&& forall|i: int| 0 <= i < self.branches@.len() ==> #[trigger] self.branch_ok(i)
        &&& match self.seeds@[self.rng.seed as int] {
            SeedInfo::Loop { id } => id == 0,
            SeedInfo::Branch { id } => id == 0 && self.branches@[0].loop_id == 0
                && self.start_walk_in_order(),
        }
        &&& forall|s: u16|
            #[trigger] self.branch_of(s) >= 0 && self.branch_of(self.rng.next_seed(s)) >= 0
                ==> self.branch_of(s) == self.branch_of(self.rng.next_seed(s))
        &&& forall|t: u16| #[trigger] self.loop_of(t) > 0 ==> self.loop_found_before(t)
        &&& forall|t: u16| #[trigger] self.branch_of(t) > 0 ==> self.branch_found_before(t)
        &&& forall|j: int| 0 <= j < self.loops@.len() ==> #[trigger] self.loop_starts_where_met(j)
    }
}

/// The tag is loop `i`.
spec fn is_loop(t: Option<SeedInfo>, i: int) -> bool {
    match t {
        Some(SeedInfo::Loop { id }) => id == i,
        _ => false,
    }
}

/// The tag is branch `i`.
spec fn is_branch(t: Option<SeedInfo>, i: int) -> bool {
    match t {
        Some(SeedInfo::Branch { id }) => id == i,
        _ => false,
    }
}

/// Seed `s` of branch `id` sits at its recorded position, and its distance to the branch's
/// loop is one more than that of the seed after it.
spec fn branch_member_ok(
    r: Rng,
    tags: Seq<Option<SeedInfo>>,
    branches: Seq<BranchInfo>,
    pos: Seq<int>,
    dist: Seq<int>,
    s: int,
    id: int,
) -> bool {
    let b = branches[id].seeds@;
    let n = r.next_seed(s as u16) as int;
    &&& 0 <= pos[s] < b.len()
    &&& b[pos[s]] == s as u16
    &&& 1 <= dist[s] <= b.len()
    &&& (dist[s] == 1 <==> pos[s] == b.len() - 1)
    &&& dist[s] == 1 ==> is_loop(tags[n], branches[id].loop_id as int)
    &&& dist[s] > 1 ==> is_branch(tags[n], id) && dist[n] == dist[s] - 1 && pos[n] > pos[s]
}

/// Loop `i`'s list is a cycle without repeats whose seeds carry its tag.
spec fn loop_list_ok(r: Rng, tags: Seq<Option<SeedInfo>>, l: Seq<u16>, i: int) -> bool {
    &&& l.len() > 0
    &&& l.no_duplicates()
    &&& forall|j: int| 0 <= j < l.len() ==> is_loop(tags[#[trigger] l[j] as int], i)
    &&& forall|j: int| 0 <= j < l.len() ==> r.next_seed(#[trigger] l[j]) == l[(j + 1) % (l.len() as int)]
}

/// Branch `i`'s list has no repeats, its seeds carry its tag, and its loop exists.
spec fn branch_list_ok(tags: Seq<Option<SeedInfo>>, b: BranchInfo, nloops: int, i: int) -> bool {
    &&& b.seeds@.len() > 0
    &&& b.seeds@.no_duplicates()
    &&& b.loop_id < nloops
    &&& forall|j: int| 0 <= j < b.seeds@.len() ==> is_branch(tags[#[trigger] b.seeds@[j] as int], i)
}

/// What holds of the tags, lists, positions and distances between walks. Tags of branch
/// `branches.len()` belong to the walk in progress and are not described here.
spec fn committed(
    r: Rng,
    tags: Seq<Option<SeedInfo>>,
    branches: Seq<BranchInfo>,
    loops: Seq<LoopInfo>,
    pos: Seq<int>,
    dist: Seq<int>,
) -> bool {
    &&& tags.len() == 0x10000
    &&& pos.len() == 0x10000
    &&& dist.len() == 0x10000
    &&& forall|s: int|
        0 <= s < 0x10000 ==> match #[trigger] tags[s] {
            Some(SeedInfo::Loop { id }) => id < loops.len() && 0 <= pos[s] < loops[id as int].seeds@.len()
                && loops[id as int].seeds@[pos[s]] == s as u16,
            Some(SeedInfo::Branch { id }) => id <= branches.len() && (id < branches.len()
                ==> branch_member_ok(r, tags, branches, pos, dist, s, id as int)),
            None => true,
        }
    &&& forall|i: int| 0 <= i < loops.len() ==> loop_list_ok(r, tags, #[trigger] loops[i].seeds@, i)
    &&& forall|i: int|
        0 <= i < branches.len() ==> branch_list_ok(tags, #[trigger] branches[i], loops.len() as int, i)
}

/// `committed`, kept folded where only passed along.
#[verifier::opaque]
spec fn sealed_committed(
    r: Rng,
    tags: Seq<Option<SeedInfo>>,
    branches: Seq<BranchInfo>,
    loops: Seq<LoopInfo>,
    pos: Seq<int>,
    dist: Seq<int>,
) -> bool {
    committed(r, tags, branches, loops, pos, dist)
}

/// State at the end of a walk: `seen` holds the new seeds in visiting order, all tagged as
/// the pending branch `branches.len()`, and `cur` is the seed after the last of them.
spec fn walk_done(
    r: Rng,
    tags: Seq<Option<SeedInfo>>,
    branches: Seq<BranchInfo>,
    loops: Seq<LoopInfo>,
    pos: Seq<int>,
    dist: Seq<int>,
    seen: Seq<u16>,
    cur: u16,
) -> bool {
    let nb = branches.len() as int;
    &&& committed(r, tags, branches, loops, pos, dist)
    &&& nb < 0x10000
    &&& seen.len() > 0
    &&& seen.no_duplicates()
    &&& forall|j: int|
        0 <= j < seen.len() ==> is_branch(tags[#[trigger] seen[j] as int], nb) && pos[seen[j] as int]
            == j
    &&& forall|s: int|
        0 <= s < 0x10000 && is_branch(#[trigger] tags[s], nb) ==> 0 <= pos[s] < seen.len()
            && seen[pos[s]] == s as u16
    &&& forall|j: int| 0 <= j < seen.len() - 1 ==> seen[j + 1] == r.next_seed(#[trigger] seen[j])
    &&& cur == r.next_seed(seen.last())
    &&& tags[cur as int].is_some()
}

/// What each way of ending a walk guarantees about the tags it leaves behind.
spec fn walk_resolved(
    tags0: Seq<Option<SeedInfo>>,
    tags: Seq<Option<SeedInfo>>,
    nb: int,
    nl: int,
    start: u16,
) -> bool {
    &&& tags.len() == 0x10000
    &&& forall|s: int|
        0 <= s < 0x10000 ==> (#[trigger] tags[s]).is_none() == tags0[s].is_none()
    &&& forall|s: int|
        0 <= s < 0x10000 && tags0[s].is_some() && !is_branch(tags0[s], nb) ==> #[trigger] tags[s]
            == tags0[s]
    &&& nb == 0 && nl == 0 ==> (is_loop(tags[start as int], 0) || is_branch(tags[start as int], 0))
}

/// The position of seed `s` in the order of walk starts under `r`.
spec fn key_of(r: Rng, s: int) -> int {
    if s == r.seed as int {
        0
    } else {
        s + 1
    }
}

/// Seed `s` is tagged and its tag leads to loop `j`.
spec fn leads_to(tags: Seq<Option<SeedInfo>>, branches: Seq<BranchInfo>, s: int, j: int) -> bool {
    match tags[s] {
        Some(SeedInfo::Loop { id }) => id == j,
        Some(SeedInfo::Branch { id }) => id < branches.len() && branches[id as int].loop_id == j,
        None => false,
    }
}

/// How many positions of branch `id` after seed `s` lie beyond its distance to the loop.
spec fn slack(branches: Seq<BranchInfo>, pos: Seq<int>, dist: Seq<int>, s: int, id: int) -> int {
    branches[id].seeds@.len() - pos[s] - dist[s]
}

/// No seed carries the tag of branch `nb`.
spec fn no_pending(tags: Seq<Option<SeedInfo>>, nb: int) -> bool {
    forall|s: int| 0 <= s < 0x10000 ==> !is_branch(#[trigger] tags[s], nb)
}

/// Along a walk, `m` frames from its first seed is its `m`-th seed, or `cur` at its end.
proof fn lemma_walk_chain(r: Rng, sn: Seq<u16>, cur: u16, m: nat)
    requires
        sn.len() > 0,
        forall|j: int| 0 <= j < sn.len() - 1 ==> sn[j + 1] == r.next_seed(#[trigger] sn[j]),
        cur == r.next_seed(sn.last()),
        m <= sn.len(),
    ensures
        r.advance(sn[0], m) == if m < sn.len() {
            sn[m as int]
        } else {
            cur
        },
    decreases m,
{
    if m > 0 {
        lemma_walk_chain(r, sn, cur, (m - 1) as nat);
        r.lemma_advance_last(sn[0], (m - 1) as nat);
    }
}

/// The walk ran into loop `loop_id`: all of it becomes a new branch into that loop.
#[verifier::rlimit(60)]
fn finish_into_loop(
    r: &Rng,
    seen: Vec<u16>,
    cur: u16,
    tags: &Vec<Option<SeedInfo>>,
    branches: &mut Vec<BranchInfo>,
    loops: &Vec<LoopInfo>,
    pos: Ghost<Seq<int>>,
    dist: Ghost<Seq<int>>,
) -> (nd: Ghost<Seq<int>>)
    requires
        walk_done(*r, tags@, old(branches)@, loops@, pos@, dist@, seen@, cur),
        is_loop(tags@[cur as int], tags@[cur as int].unwrap()->Loop_id as int),
    ensures
        committed(*r, tags@, final(branches)@, loops@, pos@, nd@),
        final(branches)@.len() == old(branches)@.len() + 1,
        forall|i: int|
            0 <= i < old(branches)@.len() ==> #[trigger] final(branches)@[i] == old(branches)@[i],
        is_branch(tags@[seen@[0] as int], old(branches)@.len() as int),
        forall|t: int, id: int|
            0 <= t < 0x10000 && 0 <= id < old(branches)@.len() && #[trigger] is_branch(tags@[t], id)
                ==> slack(final(branches)@, pos@, nd@, t, id) == slack(old(branches)@, pos@, dist@, t, id),
        slack(final(branches)@, pos@, nd@, seen@[0] as int, old(branches)@.len() as int) == 0,
        no_pending(tags@, final(branches)@.len() as int),
        walk_resolved(tags@, tags@, old(branches)@.len() as int, loops@.len() as int, seen@[0]),
{
    let ghost nb = branches@.len() as int;
    let ghost tags0 = tags@;
    let ghost len = seen@.len() as int;
    let ghost sn = seen@;
    let loop_id = match tags[cur as usize] {
        Some(SeedInfo::Loop { id }) => id,
        _ => 0,
    };
    let ghost nd = Seq::new(
        0x10000,
        |s: int|
            if is_branch(tags0[s], nb) {
                len - pos@[s]
            } else {
                dist@[s]
            },
    );
    branches.push(BranchInfo { seeds: seen, loop_id });
    proof {
        let br = branches@;
        assert(br[nb].seeds@ == sn);
        assert forall|s: int| 0 <= s < 0x10000 implies match #[trigger] tags0[s] {
            Some(SeedInfo::Loop { id }) => id < loops@.len() && 0 <= pos@[s]
                < loops@[id as int].seeds@.len() && loops@[id as int].seeds@[pos@[s]] == s as u16,
            Some(SeedInfo::Branch { id }) => id <= br.len() && (id < br.len() ==> branch_member_ok(
                *r,
                tags0,
                br,
                pos@,
                nd,
                s,
                id as int,
            )),
            None => true,
        } by {
            match tags0[s] {
                Some(SeedInfo::Branch { id }) => {
                    let n = r.next_seed(s as u16) as int;
                    if id < nb {
                        assert(br[id as int] == old(branches)@[id as int]);
                        assert(branch_member_ok(*r, tags0, old(branches)@, pos@, dist@, s, id as int));
                        assert(tags0[n].is_some());
                        assert(!is_branch(tags0[n], nb));
                    } else {
                        let j = pos@[s];
                        assert(sn[j] == s as u16);
                        if j < len - 1 {
                            assert(sn[j + 1] == r.next_seed(sn[j]));
                            assert(pos@[sn[j + 1] as int] == j + 1);
                        } else {
                            assert(n == cur as int);
                        }
                    }
                },
                _ => {},
            }
        }
        assert forall|i: int| 0 <= i < br.len() implies branch_list_ok(
            tags0,
            #[trigger] br[i],
            loops@.len() as int,
            i,
        ) by {
            if i < nb {
                assert(br[i] == old(branches)@[i]);
            }
        }
        assert forall|i: int| 0 <= i < loops@.len() implies loop_list_ok(
            *r,
            tags0,
            #[trigger] loops@[i].seeds@,
            i,
        ) by {}
    }
    Ghost(nd)
}

/// The tag that closing a loop at walk position `idx` gives to seed `s`.
spec fn retag_cycle(
    tags0: Seq<Option<SeedInfo>>,
    pos: Seq<int>,
    nb: int,
    idx: int,
    nl: int,
    s: int,
) -> Option<SeedInfo> {
    if is_branch(tags0[s], nb) && pos[s] >= idx {
        Some(SeedInfo::Loop { id: nl as u16 })
    } else {
        tags0[s]
    }
}

/// The lists after closing a loop at walk position `idx`.
spec fn lists_after_cycle(
    branches0: Seq<BranchInfo>,
    loops0: Seq<LoopInfo>,
    br: Seq<BranchInfo>,
    lp: Seq<LoopInfo>,
    sn: Seq<u16>,
    idx: int,
) -> bool {
    let nb = branches0.len() as int;
    let nl = loops0.len() as int;
    &&& lp.len() == nl + 1
    &&& forall|i: int| 0 <= i < nl ==> #[trigger] lp[i] == loops0[i]
    &&& lp[nl].seeds@ == sn.subrange(idx, sn.len() as int)
    &&& br.len() == if idx > 0 {
        nb + 1
    } else {
        nb
    }
    &&& forall|i: int| 0 <= i < nb ==> #[trigger] br[i] == branches0[i]
    &&& idx > 0 ==> br[nb].seeds@ == sn.subrange(0, idx) && br[nb].loop_id == nl
}

/// After closing a loop, every tag names a list position that holds its seed, and branch
/// seeds keep their distance facts.
#[verifier::rlimit(60)]
proof fn lemma_cycle_tags(
    r: Rng,
    tags0: Seq<Option<SeedInfo>>,
    tg: Seq<Option<SeedInfo>>,
    branches0: Seq<BranchInfo>,
    loops0: Seq<LoopInfo>,
    br: Seq<BranchInfo>,
    lp: Seq<LoopInfo>,
    pos: Seq<int>,
    dist: Seq<int>,
    np: Seq<int>,
    nd: Seq<int>,
    sn: Seq<u16>,
    cur: u16,
    idx: int,
)
    requires
        walk_done(r, tags0, branches0, loops0, pos, dist, sn, cur),
        0 <= idx < sn.len(),
        sn[idx] == cur,
        loops0.len() < 0x10000,
        lists_after_cycle(branches0, loops0, br, lp, sn, idx),
        tg.len() == 0x10000,
        forall|s: int|
            0 <= s < 0x10000 ==> #[trigger] tg[s] == retag_cycle(
                tags0,
                pos,
                branches0.len() as int,
                idx,
                loops0.len() as int,
                s,
            ),
        np == Seq::new(
            0x10000,
            |s: int|
                if is_branch(tags0[s], branches0.len() as int) && pos[s] >= idx {
                    pos[s] - idx
                } else {
                    pos[s]
                },
        ),
        nd == Seq::new(
            0x10000,
            |s: int|
                if is_branch(tags0[s], branches0.len() as int) && pos[s] < idx {
                    idx - pos[s]
                } else {
                    dist[s]
                },
        ),
    ensures
        forall|s: int|
            0 <= s < 0x10000 ==> match #[trigger] tg[s] {
                Some(SeedInfo::Loop { id }) => id < lp.len() && 0 <= np[s] < lp[id as int].seeds@.len()
                    && lp[id as int].seeds@[np[s]] == s as u16,
                Some(SeedInfo::Branch { id }) => id <= br.len() && (id < br.len()
                    ==> branch_member_ok(r, tg, br, np, nd, s, id as int)),
                None => true,
            },
{
    let nb = branches0.len() as int;
    let nl = loops0.len() as int;
    let len = sn.len() as int;
    let cy = lp[nl].seeds@;
    assert forall|s: int| 0 <= s < 0x10000 implies match #[trigger] tg[s] {
        Some(SeedInfo::Loop { id }) => id < lp.len() && 0 <= np[s] < lp[id as int].seeds@.len()
            && lp[id as int].seeds@[np[s]] == s as u16,
        Some(SeedInfo::Branch { id }) => id <= br.len() && (id < br.len() ==> branch_member_ok(
            r,
            tg,
            br,
            np,
            nd,
            s,
            id as int,
        )),
        None => true,
    } by {
        if is_branch(tags0[s], nb) {
            let p = pos[s];
            assert(sn[p] == s as u16);
            let n = r.next_seed(s as u16) as int;
            if p >= idx {
                assert(cy[p - idx] == s as u16);
            } else {
                assert(br[nb].seeds@[p] == s as u16);
                assert(sn[p + 1] == r.next_seed(sn[p]));
                assert(tg[n] == retag_cycle(tags0, pos, nb, idx, nl, n));
                if p < idx - 1 {
                    assert(pos[sn[p + 1] as int] == p + 1);
                } else {
                    assert(pos[sn[idx] as int] == idx);
                }
            }
        } else {
            match tags0[s] {
                Some(SeedInfo::Branch { id }) => {
                    let n = r.next_seed(s as u16) as int;
                    assert(br[id as int] == branches0[id as int]);
                    assert(branch_member_ok(r, tags0, branches0, pos, dist, s, id as int));
                    assert(tags0[n].is_some());
                    assert(tg[n] == retag_cycle(tags0, pos, nb, idx, nl, n));
                },
                Some(SeedInfo::Loop { id }) => {
                    assert(lp[id as int] == loops0[id as int]);
                },
                None => {},
            }
        }
    }
}

/// After closing a loop, the loops found before it are unchanged.
#[verifier::rlimit(60)]
proof fn lemma_cycle_old_loops(
    r: Rng,
    tags0: Seq<Option<SeedInfo>>,
    tg: Seq<Option<SeedInfo>>,
    branches0: Seq<BranchInfo>,
    loops0: Seq<LoopInfo>,
    br: Seq<BranchInfo>,
    lp: Seq<LoopInfo>,
    pos: Seq<int>,
    dist: Seq<int>,
    sn: Seq<u16>,
    cur: u16,
    idx: int,
)
    requires
        walk_done(r, tags0, branches0, loops0, pos, dist, sn, cur),
        0 <= idx < sn.len(),
        sn[idx] == cur,
        loops0.len() < 0x10000,
        lists_after_cycle(branches0, loops0, br, lp, sn, idx),
        tg.len() == 0x10000,
        forall|s: int|
            0 <= s < 0x10000 ==> #[trigger] tg[s] == retag_cycle(
                tags0,
                pos,
                branches0.len() as int,
                idx,
                loops0.len() as int,
                s,
            ),
    ensures
        forall|i: int|
            0 <= i < loops0.len() ==> loop_list_ok(r, tg, #[trigger] lp[i].seeds@, i),
{
    let nb = branches0.len() as int;
    let nl = loops0.len() as int;
    assert forall|i: int| 0 <= i < nl implies loop_list_ok(r, tg, #[trigger] lp[i].seeds@, i) by {
        let l = lp[i].seeds@;
        assert(loop_list_ok(r, tags0, loops0[i].seeds@, i));
        assert forall|j: int| 0 <= j < l.len() implies is_loop(tg[#[trigger] l[j] as int], i) by {
            assert(is_loop(tags0[l[j] as int], i));
            assert(tg[l[j] as int] == retag_cycle(tags0, pos, nb, idx, nl, l[j] as int));
        }
    }
}

/// After closing a loop, the new loop is a cycle whose seeds carry its tag.
#[verifier::rlimit(60)]
proof fn lemma_cycle_new_loop(
    r: Rng,
    tags0: Seq<Option<SeedInfo>>,
    tg: Seq<Option<SeedInfo>>,
    branches0: Seq<BranchInfo>,
    loops0: Seq<LoopInfo>,
    br: Seq<BranchInfo>,
    lp: Seq<LoopInfo>,
    pos: Seq<int>,
    dist: Seq<int>,
    sn: Seq<u16>,
    cur: u16,
    idx: int,
)
    requires
        walk_done(r, tags0, branches0, loops0, pos, dist, sn, cur),
        0 <= idx < sn.len(),
        sn[idx] == cur,
        loops0.len() < 0x10000,
        lists_after_cycle(branches0, loops0, br, lp, sn, idx),
        tg.len() == 0x10000,
        forall|s: int|
            0 <= s < 0x10000 ==> #[trigger] tg[s] == retag_cycle(
                tags0,
                pos,
                branches0.len() as int,
                idx,
                loops0.len() as int,
                s,
            ),
    ensures
        loop_list_ok(r, tg, lp[loops0.len() as int].seeds@, loops0.len() as int),
{
    let nb = branches0.len() as int;
    let nl = loops0.len() as int;
    let cy = lp[nl].seeds@;
    assert forall|j: int| 0 <= j < cy.len() implies is_loop(tg[#[trigger] cy[j] as int], nl) by {
        assert(cy[j] == sn[idx + j]);
        assert(pos[sn[idx + j] as int] == idx + j);
        assert(tg[cy[j] as int] == retag_cycle(tags0, pos, nb, idx, nl, cy[j] as int));
    }
    assert forall|j: int| 0 <= j < cy.len() implies r.next_seed(#[trigger] cy[j]) == cy[(j + 1) % (
    cy.len() as int)] by {
        if j < cy.len() - 1 {
            assert(sn[idx + j + 1] == r.next_seed(sn[idx + j]));
            lemma_small_mod((j + 1) as nat, cy.len());
        } else {
            lemma_mod_self_0(cy.len() as int);
        }
    }
    assert forall|a: int, b: int| 0 <= a < cy.len() && 0 <= b < cy.len() && a != b implies cy[a]
        != cy[b] by {
        assert(sn[idx + a] != sn[idx + b]);
    }
}

/// After closing a loop, every loop is well formed.
proof fn lemma_cycle_lists(
    r: Rng,
    tags0: Seq<Option<SeedInfo>>,
    tg: Seq<Option<SeedInfo>>,
    branches0: Seq<BranchInfo>,
    loops0: Seq<LoopInfo>,
    br: Seq<BranchInfo>,
    lp: Seq<LoopInfo>,
    pos: Seq<int>,
    dist: Seq<int>,
    sn: Seq<u16>,
    cur: u16,
    idx: int,
)
    requires
        walk_done(r, tags0, branches0, loops0, pos, dist, sn, cur),
        0 <= idx < sn.len(),
        sn[idx] == cur,
        loops0.len() < 0x10000,
        lists_after_cycle(branches0, loops0, br, lp, sn, idx),
        tg.len() == 0x10000,
        forall|s: int|
            0 <= s < 0x10000 ==> #[trigger] tg[s] == retag_cycle(
                tags0,
                pos,
                branches0.len() as int,
                idx,
                loops0.len() as int,
                s,
            ),
    ensures
        forall|i: int| 0 <= i < lp.len() ==> loop_list_ok(r, tg, #[trigger] lp[i].seeds@, i),
{
    lemma_cycle_old_loops(r, tags0, tg, branches0, loops0, br, lp, pos, dist, sn, cur, idx);
    lemma_cycle_new_loop(r, tags0, tg, branches0, loops0, br, lp, pos, dist, sn, cur, idx);
}

/// After closing a loop, every branch is well formed and no walk is pending.
#[verifier::rlimit(50)]
proof fn lemma_cycle_branches(
    r: Rng,
    tags0: Seq<Option<SeedInfo>>,
    tg: Seq<Option<SeedInfo>>,
    branches0: Seq<BranchInfo>,
    loops0: Seq<LoopInfo>,
    br: Seq<BranchInfo>,
    lp: Seq<LoopInfo>,
    pos: Seq<int>,
    dist: Seq<int>,
    sn: Seq<u16>,
    cur: u16,
    idx: int,
)
    requires
        walk_done(r, tags0, branches0, loops0, pos, dist, sn, cur),
        0 <= idx < sn.len(),
        sn[idx] == cur,
        loops0.len() < 0x10000,
        lists_after_cycle(branches0, loops0, br, lp, sn, idx),
        tg.len() == 0x10000,
        forall|s: int|
            0 <= s < 0x10000 ==> #[trigger] tg[s] == retag_cycle(
                tags0,
                pos,
                branches0.len() as int,
                idx,
                loops0.len() as int,
                s,
            ),
    ensures
        forall|i: int|
            0 <= i < br.len() ==> branch_list_ok(tg, #[trigger] br[i], lp.len() as int, i),
        no_pending(tg, br.len() as int),
{
    let nb = branches0.len() as int;
    let nl = loops0.len() as int;
    let prefix = sn.subrange(0, idx);
    assert forall|i: int| 0 <= i < br.len() implies branch_list_ok(
        tg,
        #[trigger] br[i],
        lp.len() as int,
        i,
    ) by {
        if i < nb {
            let b = br[i].seeds@;
            assert(branch_list_ok(tags0, branches0[i], nl, i));
            assert forall|j: int| 0 <= j < b.len() implies is_branch(tg[#[trigger] b[j] as int], i) by {
                assert(is_branch(tags0[b[j] as int], i));
                assert(tg[b[j] as int] == retag_cycle(tags0, pos, nb, idx, nl, b[j] as int));
            }
        } else {
            assert forall|j: int| 0 <= j < prefix.len() implies is_branch(
                tg[#[trigger] prefix[j] as int],
                i,
            ) by {
                assert(pos[sn[j] as int] == j);
                assert(tg[prefix[j] as int] == retag_cycle(tags0, pos, nb, idx, nl, prefix[j] as int));
            }
            assert forall|a: int, b: int|
                0 <= a < prefix.len() && 0 <= b < prefix.len() && a != b implies prefix[a]
                != prefix[b] by {
                assert(sn[a] != sn[b]);
            }
        }
    }
    assert forall|s: int| 0 <= s < 0x10000 implies !is_branch(#[trigger] tg[s], br.len() as int) by {
        if is_branch(tags0[s], nb) {
            assert(sn[pos[s]] == s as u16);
        }
    }
}


/// The walk ran into itself at `cur`: the seeds from `cur` on close a new loop, and those
/// before it, if any, become a new branch into that loop.
#[verifier::rlimit(60)]
fn finish_new_loop(
    r: &Rng,
    seen: Vec<u16>,
    cur: u16,
    tags: &mut Vec<Option<SeedInfo>>,
    branches: &mut Vec<BranchInfo>,
    loops: &mut Vec<LoopInfo>,
    pos: Ghost<Seq<int>>,
    dist: Ghost<Seq<int>>,
    bound: Ghost<int>,
) -> (res: Ghost<(Seq<int>, Seq<int>)>)
    requires
        walk_done(*r, old(tags)@, old(branches)@, old(loops)@, pos@, dist@, seen@, cur),
        is_branch(old(tags)@[cur as int], old(branches)@.len() as int),
        old(loops)@.len() + old(branches)@.len() + seen@.len() <= bound@,
        bound@ <= 0x10000,
    ensures
        committed(*r, final(tags)@, final(branches)@, final(loops)@, res@.0, res@.1),
        final(loops)@.len() + final(branches)@.len() <= bound@,
        final(branches)@.len() >= old(branches)@.len(),
        forall|i: int|
            0 <= i < old(branches)@.len() ==> #[trigger] final(branches)@[i] == old(branches)@[i],
        final(branches)@.len() > old(branches)@.len() ==> final(branches)@[old(
            branches,
        )@.len() as int].loop_id == old(loops)@.len(),
        final(loops)@.len() == old(loops)@.len() + 1,
        forall|j: int| 0 <= j < old(loops)@.len() ==> #[trigger] final(loops)@[j] == old(loops)@[j],
        leads_to(final(tags)@, final(branches)@, seen@[0] as int, old(loops)@.len() as int),
        0 <= pos@[cur as int],
        r.advance(seen@[0], pos@[cur as int] as nat) == final(loops)@[old(loops)@.len() as int].seeds@[0],
        forall|m: nat|
            m < pos@[cur as int] ==> (#[trigger] final(tags)@[r.advance(seen@[0], m) as int]).is_some()
                && !is_loop(final(tags)@[r.advance(seen@[0], m) as int], old(loops)@.len() as int),
        final(branches)@.len() <= old(branches)@.len() + 1,
        forall|t: int, id: int|
            0 <= t < 0x10000 && 0 <= id < old(branches)@.len() && #[trigger] is_branch(old(tags)@[t], id)
                ==> slack(final(branches)@, res@.0, res@.1, t, id) == slack(old(branches)@, pos@, dist@, t, id),
        final(branches)@.len() > old(branches)@.len() ==> slack(
            final(branches)@,
            res@.0,
            res@.1,
            seen@[0] as int,
            old(branches)@.len() as int,
        ) == 0,
        final(branches)@.len() > old(branches)@.len() ==> is_branch(
            final(tags)@[seen@[0] as int],
            old(branches)@.len() as int,
        ),
        no_pending(final(tags)@, final(branches)@.len() as int),
        walk_resolved(
            old(tags)@,
            final(tags)@,
            old(branches)@.len() as int,
            old(loops)@.len() as int,
            seen@[0],
        ),
{
    let ghost nb = branches@.len() as int;
    let ghost nl = loops@.len() as int;
    let ghost tags0 = tags@;
    let ghost branches0 = branches@;
    let ghost loops0 = loops@;
    let ghost len = seen@.len() as int;
    let ghost sn = seen@;
    let ghost at = pos@[cur as int];
    let mut idx: usize = 0;
    while idx < seen.len() && seen[idx] != cur
        invariant
            0 <= idx <= at,
            0 <= at < seen@.len(),
            seen@[at] == cur,
        decreases at - idx,
    {
        idx = idx + 1;
    }
    let mut seen = seen;
    let cycle = seen.split_off(idx);
    let new_loop = loops.len() as u16;
    let new_tag = Some(SeedInfo::Loop { id: new_loop });
    let mut j: usize = 0;
    while j < cycle.len()
        invariant
            pos@.len() == 0x10000,
            forall|k: int|
                0 <= k < len ==> pos@[#[trigger] sn[k] as int] == k && is_branch(
                    tags0[sn[k] as int],
                    nb,
                ),
            forall|s: int|
                0 <= s < 0x10000 && is_branch(#[trigger] tags0[s], nb) ==> 0 <= pos@[s] < len
                    && sn[pos@[s]] == s as u16,
            0 <= idx < len,
            len == sn.len(),
            0 <= j <= cycle@.len(),
            cycle@ == sn.subrange(idx as int, len),
            new_tag == Some(SeedInfo::Loop { id: nl as u16 }),
            tags@.len() == 0x10000,
            forall|s: int|
                0 <= s < 0x10000 ==> #[trigger] tags@[s] == if is_branch(tags0[s], nb) && idx
                    <= pos@[s] < idx + j {
                    new_tag
                } else {
                    tags0[s]
                },
        decreases cycle@.len() - j,
    {
        let s = cycle[j];
        proof {
            assert(sn[idx + j] == s);
            assert(pos@[s as int] == idx + j);
        }
        tags.set(s as usize, new_tag);
        j = j + 1;
    }
    let ghost np = Seq::new(
        0x10000,
        |s: int|
            if is_branch(tags0[s], nb) && pos@[s] >= idx {
                pos@[s] - idx
            } else {
                pos@[s]
            },
    );
    let ghost nd = Seq::new(
        0x10000,
        |s: int|
            if is_branch(tags0[s], nb) && pos@[s] < idx {
                idx - pos@[s]
            } else {
                dist@[s]
            },
    );
    if idx > 0 {
        branches.push(BranchInfo { seeds: seen, loop_id: new_loop });
    }
    loops.push(LoopInfo { seeds: cycle });
    proof {
        let tg = tags@;
        assert forall|s: int| 0 <= s < 0x10000 implies #[trigger] tg[s] == retag_cycle(
            tags0,
            pos@,
            nb,
            idx as int,
            nl,
            s,
        ) by {
            if is_branch(tags0[s], nb) {
                assert(sn[pos@[s]] == s as u16);
            }
        }
        assert(lists_after_cycle(branches0, loops0, branches@, loops@, sn, idx as int));
        lemma_cycle_tags(*r, tags0, tg, branches0, loops0, branches@, loops@, pos@, dist@, np, nd, sn, cur, idx as int);
        lemma_cycle_lists(*r, tags0, tg, branches0, loops0, branches@, loops@, pos@, dist@, sn, cur, idx as int);
        lemma_cycle_branches(*r, tags0, tg, branches0, loops0, branches@, loops@, pos@, dist@, sn, cur, idx as int);
        lemma_walk_chain(*r, sn, cur, idx as nat);
        assert(loops@[nl].seeds@[0] == sn[idx as int]);
        assert forall|m: nat| m < idx implies (#[trigger] tg[r.advance(sn[0], m) as int]).is_some()
            && !is_loop(tg[r.advance(sn[0], m) as int], nl) by {
            lemma_walk_chain(*r, sn, cur, m);
            assert(pos@[sn[m as int] as int] == m);
            assert(tg[sn[m as int] as int] == retag_cycle(tags0, pos@, nb, idx as int, nl, sn[m as int] as int));
        }
        assert(pos@[sn[0] as int] == 0);
        assert(tg[sn[0] as int] == retag_cycle(tags0, pos@, nb, idx as int, nl, sn[0] as int));
    }
    Ghost((np, nd))
}

/// The tag that joining the walk to branch `bid` gives to seed `s`.
spec fn retag_merge(tags0: Seq<Option<SeedInfo>>, nb: int, bid: int, s: int) -> Option<SeedInfo> {
    if is_branch(tags0[s], nb) {
        Some(SeedInfo::Branch { id: bid as u16 })
    } else {
        tags0[s]
    }
}

/// The branch list after the walk `sn` was put in front of branch `bid`.
spec fn lists_after_merge(
    branches0: Seq<BranchInfo>,
    br: Seq<BranchInfo>,
    sn: Seq<u16>,
    bid: int,
) -> bool {
    &&& br.len() == branches0.len()
    &&& forall|i: int| 0 <= i < br.len() && i != bid ==> #[trigger] br[i] == branches0[i]
    &&& br[bid].seeds@ == sn + branches0[bid].seeds@
    &&& br[bid].loop_id == branches0[bid].loop_id
}

/// After joining a walk to a branch, every tag names a list position that holds its seed.
#[verifier::rlimit(50)]
proof fn lemma_merge_tags(
    r: Rng,
    tags0: Seq<Option<SeedInfo>>,
    tg: Seq<Option<SeedInfo>>,
    branches0: Seq<BranchInfo>,
    loops: Seq<LoopInfo>,
    br: Seq<BranchInfo>,
    pos: Seq<int>,
    dist: Seq<int>,
    np: Seq<int>,
    nd: Seq<int>,
    sn: Seq<u16>,
    cur: u16,
    bid: int,
)
    requires
        walk_done(r, tags0, branches0, loops, pos, dist, sn, cur),
        0 <= bid < branches0.len(),
        is_branch(tags0[cur as int], bid),
        lists_after_merge(branches0, br, sn, bid),
        tg.len() == 0x10000,
        forall|s: int|
            0 <= s < 0x10000 ==> #[trigger] tg[s] == retag_merge(
                tags0,
                branches0.len() as int,
                bid,
                s,
            ),
        np == Seq::new(
            0x10000,
            |s: int|
                if is_branch(tags0[s], bid) {
                    pos[s] + sn.len()
                } else {
                    pos[s]
                },
        ),
        nd == Seq::new(
            0x10000,
            |s: int|
                if is_branch(tags0[s], branches0.len() as int) {
                    sn.len() - pos[s] + dist[cur as int]
                } else {
                    dist[s]
                },
        ),
    ensures
        forall|s: int|
            0 <= s < 0x10000 ==> match #[trigger] tg[s] {
                Some(SeedInfo::Loop { id }) => id < loops.len() && 0 <= np[s]
                    < loops[id as int].seeds@.len() && loops[id as int].seeds@[np[s]] == s as u16,
                Some(SeedInfo::Branch { id }) => id <= br.len() && (id < br.len()
                    ==> branch_member_ok(r, tg, br, np, nd, s, id as int)),
                None => true,
            },
{
    let nb = branches0.len() as int;
    let len = sn.len() as int;
    let nbr = br[bid].seeds@;
    assert(branch_member_ok(r, tags0, branches0, pos, dist, cur as int, bid));
    assert forall|s: int| 0 <= s < 0x10000 implies match #[trigger] tg[s] {
        Some(SeedInfo::Loop { id }) => id < loops.len() && 0 <= np[s] < loops[id as int].seeds@.len()
            && loops[id as int].seeds@[np[s]] == s as u16,
        Some(SeedInfo::Branch { id }) => id <= br.len() && (id < br.len() ==> branch_member_ok(
            r,
            tg,
            br,
            np,
            nd,
            s,
            id as int,
        )),
        None => true,
    } by {
        let n = r.next_seed(s as u16) as int;
        if is_branch(tags0[s], nb) {
            let p = pos[s];
            assert(sn[p] == s as u16);
            assert(nbr[p] == s as u16);
            assert(tg[n] == retag_merge(tags0, nb, bid, n));
            if p < len - 1 {
                assert(sn[p + 1] == r.next_seed(sn[p]));
                assert(pos[sn[p + 1] as int] == p + 1);
            } else {
                assert(n == cur as int);
            }
        } else {
            match tags0[s] {
                Some(SeedInfo::Branch { id }) => {
                    assert(branch_member_ok(r, tags0, branches0, pos, dist, s, id as int));
                    assert(tags0[n].is_some());
                    assert(tg[n] == retag_merge(tags0, nb, bid, n));
                    if id == bid {
                        assert(nbr[pos[s] + len] == s as u16);
                    } else {
                        assert(br[id as int] == branches0[id as int]);
                    }
                },
                _ => {},
            }
        }
    }
}

/// After joining a walk to a branch, every list is well formed and no walk is pending.
#[verifier::rlimit(50)]
proof fn lemma_merge_lists(
    r: Rng,
    tags0: Seq<Option<SeedInfo>>,
    tg: Seq<Option<SeedInfo>>,
    branches0: Seq<BranchInfo>,
    loops: Seq<LoopInfo>,
    br: Seq<BranchInfo>,
    pos: Seq<int>,
    dist: Seq<int>,
    sn: Seq<u16>,
    cur: u16,
    bid: int,
)
    requires
        walk_done(r, tags0, branches0, loops, pos, dist, sn, cur),
        0 <= bid < branches0.len(),
        lists_after_merge(branches0, br, sn, bid),
        tg.len() == 0x10000,
        forall|s: int|
            0 <= s < 0x10000 ==> #[trigger] tg[s] == retag_merge(
                tags0,
                branches0.len() as int,
                bid,
                s,
            ),
    ensures
        forall|i: int| 0 <= i < loops.len() ==> loop_list_ok(r, tg, #[trigger] loops[i].seeds@, i),
        forall|i: int|
            0 <= i < br.len() ==> branch_list_ok(tg, #[trigger] br[i], loops.len() as int, i),
        no_pending(tg, br.len() as int),
{
    let nb = branches0.len() as int;
    let len = sn.len() as int;
    assert forall|i: int| 0 <= i < loops.len() implies loop_list_ok(
        r,
        tg,
        #[trigger] loops[i].seeds@,
        i,
    ) by {
        let l = loops[i].seeds@;
        assert(loop_list_ok(r, tags0, l, i));
        assert forall|j: int| 0 <= j < l.len() implies is_loop(tg[#[trigger] l[j] as int], i) by {
            assert(is_loop(tags0[l[j] as int], i));
            assert(tg[l[j] as int] == retag_merge(tags0, nb, bid, l[j] as int));
        }
    }
    assert forall|i: int| 0 <= i < br.len() implies branch_list_ok(
        tg,
        #[trigger] br[i],
        loops.len() as int,
        i,
    ) by {
        assert(branch_list_ok(tags0, branches0[i], loops.len() as int, i));
        if i != bid {
            let b = br[i].seeds@;
            assert forall|j: int| 0 <= j < b.len() implies is_branch(tg[#[trigger] b[j] as int], i) by {
                assert(is_branch(tags0[b[j] as int], i));
                assert(tg[b[j] as int] == retag_merge(tags0, nb, bid, b[j] as int));
            }
        } else {
            let ob = branches0[bid].seeds@;
            let b = br[i].seeds@;
            assert forall|j: int| 0 <= j < b.len() implies is_branch(tg[#[trigger] b[j] as int], i) by {
                if j < len {
                    assert(b[j] == sn[j]);
                    assert(tg[sn[j] as int] == retag_merge(tags0, nb, bid, sn[j] as int));
                } else {
                    assert(b[j] == ob[j - len]);
                    assert(is_branch(tags0[ob[j - len] as int], i));
                    assert(tg[ob[j - len] as int] == retag_merge(tags0, nb, bid, ob[j - len] as int));
                }
            }
            assert forall|a: int, c: int| 0 <= a < b.len() && 0 <= c < b.len() && a != c implies b[a]
                != b[c] by {
                if a < len && c < len {
                    assert(sn[a] != sn[c]);
                } else if a >= len && c >= len {
                    assert(ob[a - len] != ob[c - len]);
                } else if a < len {
                    assert(is_branch(tags0[sn[a] as int], nb));
                    assert(is_branch(tags0[ob[c - len] as int], bid));
                } else {
                    assert(is_branch(tags0[sn[c] as int], nb));
                    assert(is_branch(tags0[ob[a - len] as int], bid));
                }
            }
        }
    }
}

/// The walk ran into branch `bid` that an earlier walk recorded: the walk's seeds join the
/// front of that branch.
#[verifier::rlimit(60)]
fn finish_merge(
    r: &Rng,
    seen: Vec<u16>,
    cur: u16,
    bid: usize,
    tags: &mut Vec<Option<SeedInfo>>,
    branches: &mut Vec<BranchInfo>,
    loops: &Vec<LoopInfo>,
    pos: Ghost<Seq<int>>,
    dist: Ghost<Seq<int>>,
) -> (res: Ghost<(Seq<int>, Seq<int>)>)
    requires
        walk_done(*r, old(tags)@, old(branches)@, loops@, pos@, dist@, seen@, cur),
        bid < old(branches)@.len(),
        is_branch(old(tags)@[cur as int], bid as int),
    ensures
        committed(*r, final(tags)@, final(branches)@, loops@, res@.0, res@.1),
        final(branches)@.len() == old(branches)@.len(),
        forall|t: int, id: int|
            0 <= t < 0x10000 && 0 <= id < old(branches)@.len() && #[trigger] is_branch(old(tags)@[t], id)
                ==> slack(final(branches)@, res@.0, res@.1, t, id) == slack(old(branches)@, pos@, dist@, t, id),
        forall|i: int|
            0 <= i < old(branches)@.len() ==> (#[trigger] final(branches)@[i]).loop_id == old(
                branches,
            )@[i].loop_id,
        no_pending(final(tags)@, final(branches)@.len() as int),
        walk_resolved(
            old(tags)@,
            final(tags)@,
            old(branches)@.len() as int,
            loops@.len() as int,
            seen@[0],
        ),
{
    let ghost nb = branches@.len() as int;
    let ghost tags0 = tags@;
    let ghost branches0 = branches@;
    let ghost len = seen@.len() as int;
    let ghost sn = seen@;
    let new_tag = Some(SeedInfo::Branch { id: bid as u16 });
    let mut j: usize = 0;
    while j < seen.len()
        invariant
            pos@.len() == 0x10000,
            sn == seen@,
            len == sn.len(),
            forall|k: int|
                0 <= k < len ==> pos@[#[trigger] sn[k] as int] == k && is_branch(
                    tags0[sn[k] as int],
                    nb,
                ),
            forall|s: int|
                0 <= s < 0x10000 && is_branch(#[trigger] tags0[s], nb) ==> 0 <= pos@[s] < len
                    && sn[pos@[s]] == s as u16,
            0 <= j <= len,
            tags@.len() == 0x10000,
            forall|s: int|
                0 <= s < 0x10000 ==> #[trigger] tags@[s] == if is_branch(tags0[s], nb) && pos@[s]
                    < j {
                    new_tag
                } else {
                    tags0[s]
                },
        decreases len - j,
    {
        let s = seen[j];
        tags.set(s as usize, new_tag);
        j = j + 1;
    }
    let mut joined = seen;
    let mut k: usize = 0;
    let n_old = branches[bid].seeds.len();
    while k < n_old
        invariant
            branches@ == branches0,
            bid < branches0.len(),
            n_old == branches0[bid as int].seeds@.len(),
            0 <= k <= n_old,
            joined@ == sn + branches0[bid as int].seeds@.subrange(0, k as int),
        decreases n_old - k,
    {
        joined.push(branches[bid].seeds[k]);
        k = k + 1;
        proof {
            assert(joined@ =~= sn + branches0[bid as int].seeds@.subrange(0, k as int));
        }
    }
    proof {
        assert(branches0[bid as int].seeds@.subrange(0, n_old as int) =~= branches0[bid as int].seeds@);
    }
    let loop_id = branches[bid].loop_id;
    branches.set(bid, BranchInfo { seeds: joined, loop_id });
    let ghost np = Seq::new(
        0x10000,
        |s: int|
            if is_branch(tags0[s], bid as int) {
                pos@[s] + len
            } else {
                pos@[s]
            },
    );
    let ghost nd = Seq::new(
        0x10000,
        |s: int|
            if is_branch(tags0[s], nb) {
                len - pos@[s] + dist@[cur as int]
            } else {
                dist@[s]
            },
    );
    proof {
        let tg = tags@;
        assert forall|s: int| 0 <= s < 0x10000 implies #[trigger] tg[s] == retag_merge(
            tags0,
            nb,
            bid as int,
            s,
        ) by {}
        assert(lists_after_merge(branches0, branches@, sn, bid as int));
        lemma_merge_tags(*r, tags0, tg, branches0, loops@, branches@, pos@, dist@, np, nd, sn, cur, bid as int);
        lemma_merge_lists(*r, tags0, tg, branches0, loops@, branches@, pos@, dist@, sn, cur, bid as int);
        assert forall|s: int| 0 <= s < 0x10000 && tags0[s].is_some() && !is_branch(tags0[s], nb)
            implies #[trigger] tg[s] == tags0[s] by {
            assert(tg[s] == retag_merge(tags0, nb, bid as int, s));
        }
        assert forall|s: int| 0 <= s < 0x10000 implies (#[trigger] tg[s]).is_none()
            == tags0[s].is_none() by {
            assert(tg[s] == retag_merge(tags0, nb, bid as int, s));
        }
    }
    Ghost((np, nd))
}

/// Tagging an untagged seed as the pending branch keeps what is committed.
#[verifier::rlimit(60)]
proof fn lemma_walk_step(
    r: Rng,
    tags: Seq<Option<SeedInfo>>,
    branches: Seq<BranchInfo>,
    loops: Seq<LoopInfo>,
    pos: Seq<int>,
    dist: Seq<int>,
    s: int,
    p: int,
)
    requires
        committed(r, tags, branches, loops, pos, dist),
        0 <= s < 0x10000,
        tags[s].is_none(),
        branches.len() < 0x10000,
    ensures
        committed(
            r,
            tags.update(s, Some(SeedInfo::Branch { id: branches.len() as u16 })),
            branches,
            loops,
            pos.update(s, p),
            dist,
        ),
{
    let tg = tags.update(s, Some(SeedInfo::Branch { id: branches.len() as u16 }));
    let np = pos.update(s, p);
    assert forall|t: int| 0 <= t < 0x10000 implies match #[trigger] tg[t] {
        Some(SeedInfo::Loop { id }) => id < loops.len() && 0 <= np[t] < loops[id as int].seeds@.len()
            && loops[id as int].seeds@[np[t]] == t as u16,
        Some(SeedInfo::Branch { id }) => id <= branches.len() && (id < branches.len()
            ==> branch_member_ok(r, tg, branches, np, dist, t, id as int)),
        None => true,
    } by {
        if t != s {
            match tags[t] {
                Some(SeedInfo::Branch { id }) => {
                    if id < branches.len() {
                        let n = r.next_seed(t as u16) as int;
                        assert(branch_member_ok(r, tags, branches, pos, dist, t, id as int));
                        assert(tags[n].is_some());
                    }
                },
                _ => {},
            }
        }
    }
    assert forall|i: int| 0 <= i < loops.len() implies loop_list_ok(
        r,
        tg,
        #[trigger] loops[i].seeds@,
        i,
    ) by {
        let l = loops[i].seeds@;
        assert(loop_list_ok(r, tags, l, i));
        assert forall|j: int| 0 <= j < l.len() implies is_loop(tg[#[trigger] l[j] as int], i) by {
            assert(is_loop(tags[l[j] as int], i));
        }
    }
    assert forall|i: int| 0 <= i < branches.len() implies branch_list_ok(
        tg,
        #[trigger] branches[i],
        loops.len() as int,
        i,
    ) by {
        let b = branches[i].seeds@;
        assert(branch_list_ok(tags, branches[i], loops.len() as int, i));
        assert forall|j: int| 0 <= j < b.len() implies is_branch(tg[#[trigger] b[j] as int], i) by {
            assert(is_branch(tags[b[j] as int], i));
        }
    }
}

/// Walks from the untagged seed `start` until it meets a tagged seed, then records what the
/// walk found.
#[verifier::rlimit(60)]
fn classify_from(
    r: &Rng,
    start: u16,
    tags: &mut Vec<Option<SeedInfo>>,
    branches: &mut Vec<BranchInfo>,
    loops: &mut Vec<LoopInfo>,
    pos: Ghost<Seq<int>>,
    dist: Ghost<Seq<int>>,
    free: Ghost<Set<int>>,
) -> (res: Ghost<(Seq<int>, Seq<int>, Set<int>, nat)>)
    requires
        sealed_committed(*r, old(tags)@, old(branches)@, old(loops)@, pos@, dist@),
        no_pending(old(tags)@, old(branches)@.len() as int),
        free@.finite(),
        forall|s: int|
            0 <= s < 0x10000 ==> ((#[trigger] old(tags)@[s]).is_none() <==> free@.contains(s)),
        old(loops)@.len() + old(branches)@.len() + free@.len() <= 0x10000,
        old(tags)@.len() == 0x10000,
        old(tags)@[start as int].is_none(),
    ensures
        final(tags)@.len() == 0x10000,
        sealed_committed(*r, final(tags)@, final(branches)@, final(loops)@, res@.0, res@.1),
        no_pending(final(tags)@, final(branches)@.len() as int),
        res@.2.finite(),
        forall|s: int|
            0 <= s < 0x10000 ==> ((#[trigger] final(tags)@[s]).is_none() <==> res@.2.contains(s)),
        final(loops)@.len() + final(branches)@.len() + res@.2.len() <= 0x10000,
        forall|s: int|
            0 <= s < 0x10000 && old(tags)@[s].is_some() ==> #[trigger] final(tags)@[s]
                == old(tags)@[s],
        final(tags)@[start as int].is_some(),
        old(loops)@.len() == 0 && old(branches)@.len() == 0 ==> (is_loop(
            final(tags)@[start as int],
            0,
        ) || is_branch(final(tags)@[start as int], 0)),
        old(loops)@.len() == 0 && old(branches)@.len() == 0 && is_branch(final(tags)@[start as int], 0)
            ==> final(branches)@[0].loop_id == 0,
        final(branches)@.len() >= old(branches)@.len(),
        forall|i: int|
            0 <= i < old(branches)@.len() ==> (#[trigger] final(branches)@[i]).loop_id == old(
                branches,
            )@[i].loop_id,
        final(loops)@.len() == old(loops)@.len() || final(loops)@.len() == old(loops)@.len() + 1,
        final(loops)@.len() == old(loops)@.len() + 1 ==> leads_to(
            final(tags)@,
            final(branches)@,
            start as int,
            old(loops)@.len() as int,
        ),
        forall|j: int| 0 <= j < old(loops)@.len() ==> #[trigger] final(loops)@[j] == old(loops)@[j],
        final(loops)@.len() == old(loops)@.len() + 1 ==> r.advance(start, res@.3)
            == final(loops)@[old(loops)@.len() as int].seeds@[0],
        final(loops)@.len() == old(loops)@.len() + 1 ==> forall|m: nat|
            m < res@.3 ==> (#[trigger] final(tags)@[r.advance(start, m) as int]).is_some()
                && !is_loop(final(tags)@[r.advance(start, m) as int], old(loops)@.len() as int),
        final(branches)@.len() <= old(branches)@.len() + 1,
        forall|t: int, id: int|
            0 <= t < 0x10000 && 0 <= id < old(branches)@.len() && #[trigger] is_branch(old(tags)@[t], id)
                ==> slack(final(branches)@, res@.0, res@.1, t, id) == slack(old(branches)@, pos@, dist@, t, id),
        old(loops)@.len() == 0 && old(branches)@.len() == 0 && is_branch(final(tags)@[start as int], 0)
            ==> slack(final(branches)@, res@.0, res@.1, start as int, 0) == 0,
        final(branches)@.len() == old(branches)@.len() + 1 ==> is_branch(
            final(tags)@[start as int],
            old(branches)@.len() as int,
        ),
{
    proof {
        reveal(sealed_committed);
    }
    let ghost tags0 = tags@;
    let nb = branches.len();
    proof {
        assert(free@.contains(start as int));
        assert(free@.remove(start as int).len() + 1 == free@.len());
    }
    let new_tag = Some(SeedInfo::Branch { id: nb as u16 });
    let mut seen: Vec<u16> = Vec::new();
    let mut rng = r.with_seed(start);
    let ghost mut p = pos@;
    let ghost mut fr = free@;
    while tags[rng.seed as usize].is_none()
        invariant
            tags@.len() == 0x10000,
            committed(*r, tags@, branches@, loops@, p, dist@),
            nb == branches@.len(),
            nb < 0x10000,
            new_tag == Some(SeedInfo::Branch { id: nb as u16 }),
            rng.xba == r.xba,
            rng.calls_per_frame == r.calls_per_frame,
            fr.finite(),
            forall|s: int| 0 <= s < 0x10000 ==> ((#[trigger] tags@[s]).is_none() <==> fr.contains(s)),
            loops@.len() + nb + seen@.len() + fr.len() <= 0x10000,
            seen@.no_duplicates(),
            forall|j: int|
                0 <= j < seen@.len() ==> is_branch(tags@[#[trigger] seen@[j] as int], nb as int)
                    && p[seen@[j] as int] == j,
            forall|s: int|
                0 <= s < 0x10000 && is_branch(#[trigger] tags@[s], nb as int) ==> 0 <= p[s]
                    < seen@.len() && seen@[p[s]] == s as u16,
            forall|j: int|
                0 <= j < seen@.len() - 1 ==> seen@[j + 1] == r.next_seed(#[trigger] seen@[j]),
            seen@.len() == 0 ==> rng.seed == start,
            seen@.len() > 0 ==> seen@[0] == start && rng.seed == r.next_seed(seen@.last()),
            forall|s: int|
                0 <= s < 0x10000 && tags0[s].is_some() ==> #[trigger] tags@[s] == tags0[s],
            forall|s: int| 0 <= s < 0x10000 ==> !is_branch(tags0[s], nb as int),
            p.len() == 0x10000,
            forall|s: int| 0 <= s < 0x10000 && tags0[s].is_some() ==> #[trigger] p[s] == pos@[s],
        decreases fr.len(),
    {
        let s = rng.seed;
        proof {
            lemma_walk_step(*r, tags@, branches@, loops@, p, dist@, s as int, seen@.len() as int);
            assert(fr.contains(s as int));
            assert(!seen@.contains(s)) by {
                if seen@.contains(s) {
                    let j = choose|j: int| 0 <= j < seen@.len() && seen@[j] == s;
                    assert(is_branch(tags@[seen@[j] as int], nb as int));
                }
            }
        }
        let ghost old_seen = seen@;
        tags.set(s as usize, new_tag);
        proof {
            p = p.update(s as int, seen@.len() as int);
            fr = fr.remove(s as int);
        }
        seen.push(s);
        rng.frame_advance();
        proof {
            assert(seen@ == old_seen.push(s));
            assert forall|j: int|
                0 <= j < seen@.len() implies is_branch(tags@[#[trigger] seen@[j] as int], nb as int)
                && p[seen@[j] as int] == j by {
                if j < old_seen.len() {
                    assert(old_seen[j] != s);
                }
            }
        }
    }
    let cur = rng.seed;
    proof {
        assert(seen@.len() > 0);
        assert(walk_done(*r, tags@, branches@, loops@, p, dist@, seen@, cur));
    }
    let ghost tags1 = tags@;
    let ghost fr1 = fr;
    let ghost seen1 = seen@;
    let ghost bound = (0x10000 - fr.len()) as int;
    let res = match tags[cur as usize] {
        Some(SeedInfo::Loop { id }) => {
            let nd = finish_into_loop(r, seen, cur, tags, branches, loops, Ghost(p), dist);
            Ghost((p, nd@, fr, 0nat))
        },
        Some(SeedInfo::Branch { id }) => {
            if id as usize == nb {
                let ghost at = p[cur as int] as nat;
                let res = finish_new_loop(r, seen, cur, tags, branches, loops, Ghost(p), dist, Ghost(bound));
                Ghost((res@.0, res@.1, fr, at))
            } else {
                let res = finish_merge(r, seen, cur, id as usize, tags, branches, loops, Ghost(p), dist);
                Ghost((res@.0, res@.1, fr, 0nat))
            }
        },
        None => Ghost((p, dist@, fr, 0nat)),
    };
    proof {
        assert(walk_resolved(tags1, tags@, nb as int, old(loops)@.len() as int, seen1[0]));
        assert(seen1[0] == start);
        assert(is_branch(tags1[start as int], nb as int));
        assert forall|s: int| 0 <= s < 0x10000 && tags0[s].is_some() implies #[trigger] tags@[s]
            == tags0[s] by {
            assert(tags1[s] == tags0[s]);
        }
    }
    res
}

/// Following a branch seed for its distance lands on the branch's loop.
proof fn lemma_reach(
    r: Rng,
    tags: Seq<Option<SeedInfo>>,
    branches: Seq<BranchInfo>,
    loops: Seq<LoopInfo>,
    pos: Seq<int>,
    dist: Seq<int>,
    s: int,
    id: int,
)
    requires
        committed(r, tags, branches, loops, pos, dist),
        0 <= s < 0x10000,
        0 <= id < branches.len(),
        is_branch(tags[s], id),
    ensures
        1 <= dist[s] <= branches[id].seeds@.len(),
        is_loop(tags[r.advance(s as u16, dist[s] as nat) as int], branches[id].loop_id as int),
    decreases dist[s],
{
    assert(branch_member_ok(r, tags, branches, pos, dist, s, id));
    let n = r.next_seed(s as u16);
    if dist[s] > 1 {
        lemma_reach(r, tags, branches, loops, pos, dist, n as int, id);
        assert(r.advance(s as u16, dist[s] as nat) == r.advance(n, dist[n as int] as nat));
    } else {
        assert(r.advance(n, 0) == n);
    }
}

/// Once every seed is tagged, each tag names a list that holds the seed.
#[verifier::rlimit(60)]
proof fn lemma_complete_tags(a: Analysis, tags: Seq<Option<SeedInfo>>, pos: Seq<int>, dist: Seq<int>)
    requires
        committed(a.rng, tags, a.branches@, a.loops@, pos, dist),
        no_pending(tags, a.branches@.len() as int),
        a.seeds@.len() == 0x10000,
        forall|s: int| 0 <= s < 0x10000 ==> tags[s] == Some(#[trigger] a.seeds@[s]),
    ensures
        forall|s: int|
            0 <= s < 0x10000 ==> match #[trigger] a.seeds@[s] {
                SeedInfo::Loop { id } => id < a.loops@.len() && a.loop_seq(id as int).contains(
                    s as u16,
                ),
                SeedInfo::Branch { id } => id < a.branches@.len() && a.branch_seq(
                    id as int,
                ).contains(s as u16),
            },
{
    assert forall|s: int| 0 <= s < 0x10000 implies match #[trigger] a.seeds@[s] {
        SeedInfo::Loop { id } => id < a.loops@.len() && a.loop_seq(id as int).contains(s as u16),
        SeedInfo::Branch { id } => id < a.branches@.len() && a.branch_seq(id as int).contains(
            s as u16,
        ),
    } by {
        assert(tags[s] == Some(a.seeds@[s]));
        match a.seeds@[s] {
            SeedInfo::Loop { id } => {
                assert(a.loop_seq(id as int)[pos[s]] == s as u16);
            },
            SeedInfo::Branch { id } => {
                assert(!is_branch(tags[s], a.branches@.len() as int));
                assert(a.branch_seq(id as int)[pos[s]] == s as u16);
            },
        }
    }
}

/// Once every seed is tagged, every loop is well formed.
#[verifier::rlimit(60)]
proof fn lemma_complete_loops(a: Analysis, tags: Seq<Option<SeedInfo>>, pos: Seq<int>, dist: Seq<int>)
    requires
        committed(a.rng, tags, a.branches@, a.loops@, pos, dist),
        no_pending(tags, a.branches@.len() as int),
        a.seeds@.len() == 0x10000,
        forall|s: int| 0 <= s < 0x10000 ==> tags[s] == Some(#[trigger] a.seeds@[s]),
    ensures
        forall|i: int| 0 <= i < a.loops@.len() ==> #[trigger] a.loop_ok(i),
{
    assert forall|i: int| 0 <= i < a.loops@.len() implies #[trigger] a.loop_ok(i) by {
        let l = a.loop_seq(i);
        assert(loop_list_ok(a.rng, tags, a.loops@[i].seeds@, i));
        assert forall|j: int| 0 <= j < l.len() implies a.seeds@[#[trigger] l[j] as int] == (
        SeedInfo::Loop { id: i as u16 }) by {
            assert(is_loop(tags[l[j] as int], i));
            assert(tags[l[j] as int] == Some(a.seeds@[l[j] as int]));
        }
    }
}

/// Once every seed is tagged, branch `i` is well formed.
#[verifier::rlimit(60)]
proof fn lemma_complete_branch(
    a: Analysis,
    tags: Seq<Option<SeedInfo>>,
    pos: Seq<int>,
    dist: Seq<int>,
    i: int,
)
    requires
        committed(a.rng, tags, a.branches@, a.loops@, pos, dist),
        no_pending(tags, a.branches@.len() as int),
        a.seeds@.len() == 0x10000,
        forall|s: int| 0 <= s < 0x10000 ==> tags[s] == Some(#[trigger] a.seeds@[s]),
        0 <= i < a.branches@.len(),
    ensures
        a.branch_ok(i),
{
    let r = a.rng;
    let b = a.branch_seq(i);
    let target = a.branches@[i].loop_id;
    assert(branch_list_ok(tags, a.branches@[i], a.loops@.len() as int, i));
    assert forall|j: int| 0 <= j < b.len() implies a.seeds@[#[trigger] b[j] as int] == (
    SeedInfo::Branch { id: i as u16 }) by {
        assert(is_branch(tags[b[j] as int], i));
        assert(tags[b[j] as int] == Some(a.seeds@[b[j] as int]));
    }
    assert forall|j: int| 0 <= j < b.len() implies a.reaches_loop(#[trigger] b[j], b.len(), target) by {
        let s = b[j] as int;
        assert(is_branch(tags[s], i));
        lemma_reach(r, tags, a.branches@, a.loops@, pos, dist, s, i);
        let k = dist[s] as nat;
        assert((s as u16) == b[j]);
        let t = r.advance(b[j], k) as int;
        assert(tags[t] == Some(a.seeds@[t]));
        assert(a.seeds@[t] == (SeedInfo::Loop { id: target }));
        assert(1 <= k <= b.len());
    }
    let last = b.last() as int;
    assert(b[b.len() - 1] == b.last());
    assert(is_branch(tags[last], i));
    assert(branch_member_ok(r, tags, a.branches@, pos, dist, last, i));
    assert(pos[last] == b.len() - 1) by {
        if pos[last] != b.len() - 1 {
            assert(b[pos[last]] == b[b.len() - 1]);
        }
    }
    let nl = r.next_seed(b.last()) as int;
    assert(tags[nl] == Some(a.seeds@[nl]));
    assert forall|j: int| 0 <= j < b.len() - 1 implies #[trigger] a.steps_forward(i, j) by {
        let s = b[j] as int;
        assert(is_branch(tags[s], i));
        assert(branch_member_ok(r, tags, a.branches@, pos, dist, s, i));
        assert(pos[s] == j) by {
            if pos[s] != j {
                assert(b[pos[s]] == b[j]);
            }
        }
        let n = r.next_seed(b[j]) as int;
        assert(b[pos[n]] == n as u16) by {
            assert(branch_member_ok(r, tags, a.branches@, pos, dist, n, i));
        }
    }
    assert(b.no_duplicates());
    assert(target < a.loops@.len());
}

/// Once every seed is tagged, a branch seed whose successor is on a branch is on that branch.
proof fn lemma_complete_successor(
    a: Analysis,
    tags: Seq<Option<SeedInfo>>,
    pos: Seq<int>,
    dist: Seq<int>,
)
    requires
        committed(a.rng, tags, a.branches@, a.loops@, pos, dist),
        no_pending(tags, a.branches@.len() as int),
        a.seeds@.len() == 0x10000,
        forall|s: int| 0 <= s < 0x10000 ==> tags[s] == Some(#[trigger] a.seeds@[s]),
    ensures
        forall|s: u16|
            #[trigger] a.branch_of(s) >= 0 && a.branch_of(a.rng.next_seed(s)) >= 0 ==> a.branch_of(s)
                == a.branch_of(a.rng.next_seed(s)),
{
    assert forall|s: u16|
        #[trigger] a.branch_of(s) >= 0 && a.branch_of(a.rng.next_seed(s)) >= 0 implies a.branch_of(s)
        == a.branch_of(a.rng.next_seed(s)) by {
        let si = s as int;
        let n = a.rng.next_seed(s) as int;
        assert(tags[si] == Some(a.seeds@[si]));
        assert(tags[n] == Some(a.seeds@[n]));
        let id = a.branch_of(s);
        assert(is_branch(tags[si], id));
        assert(!is_branch(tags[si], a.branches@.len() as int));
        assert(branch_member_ok(a.rng, tags, a.branches@, pos, dist, si, id));
    }
}

/// A branch seed is at least as many positions from the branch's end as its distance.
proof fn lemma_pos_dist_bound(
    r: Rng,
    tags: Seq<Option<SeedInfo>>,
    branches: Seq<BranchInfo>,
    loops: Seq<LoopInfo>,
    pos: Seq<int>,
    dist: Seq<int>,
    s: int,
    id: int,
)
    requires
        committed(r, tags, branches, loops, pos, dist),
        0 <= s < 0x10000,
        0 <= id < branches.len(),
        is_branch(tags[s], id),
    ensures
        slack(branches, pos, dist, s, id) >= 0,
    decreases dist[s],
{
    assert(branch_member_ok(r, tags, branches, pos, dist, s, id));
    if dist[s] > 1 {
        lemma_pos_dist_bound(r, tags, branches, loops, pos, dist, r.next_seed(s as u16) as int, id);
    }
}

/// From a branch seed with no slack on, the branch is one walk in visiting order.
proof fn lemma_tail_in_order(
    r: Rng,
    tags: Seq<Option<SeedInfo>>,
    branches: Seq<BranchInfo>,
    loops: Seq<LoopInfo>,
    pos: Seq<int>,
    dist: Seq<int>,
    s: int,
    id: int,
)
    requires
        committed(r, tags, branches, loops, pos, dist),
        0 <= s < 0x10000,
        0 <= id < branches.len(),
        is_branch(tags[s], id),
        slack(branches, pos, dist, s, id) == 0,
    ensures
        forall|j: int|
            pos[s] <= j < branches[id].seeds@.len() - 1 ==> #[trigger] branches[id].seeds@[j + 1]
                == r.next_seed(branches[id].seeds@[j]),
    decreases dist[s],
{
    let b = branches[id].seeds@;
    assert(branch_member_ok(r, tags, branches, pos, dist, s, id));
    if dist[s] > 1 {
        let n = r.next_seed(s as u16) as int;
        lemma_pos_dist_bound(r, tags, branches, loops, pos, dist, n, id);
        assert(branch_member_ok(r, tags, branches, pos, dist, n, id));
        assert(pos[n] == pos[s] + 1);
        lemma_tail_in_order(r, tags, branches, loops, pos, dist, n, id);
        assert forall|j: int| pos[s] <= j < b.len() - 1 implies #[trigger] b[j + 1] == r.next_seed(b[j]) by {
            if j == pos[s] {
                assert(b[j] == s as u16);
                assert(b[j + 1] == n as u16);
            }
        }
    }
}

/// The committed state, once every seed is tagged, is a complete classification.
proof fn lemma_complete(a: Analysis, tags: Seq<Option<SeedInfo>>, pos: Seq<int>, dist: Seq<int>)
    requires
        committed(a.rng, tags, a.branches@, a.loops@, pos, dist),
        no_pending(tags, a.branches@.len() as int),
        a.seeds@.len() == 0x10000,
        forall|s: int| 0 <= s < 0x10000 ==> tags[s] == Some(#[trigger] a.seeds@[s]),
        a.loops@.len() + a.branches@.len() <= 0x10000,
        is_loop(tags[a.rng.seed as int], 0) || is_branch(tags[a.rng.seed as int], 0),
        is_branch(tags[a.rng.seed as int], 0) ==> a.branches@[0].loop_id == 0,
        is_branch(tags[a.rng.seed as int], 0) ==> slack(a.branches@, pos, dist, a.rng.seed as int, 0)
            == 0,
        forall|t: u16| #[trigger] a.loop_of(t) > 0 ==> a.loop_found_before(t),
        forall|t: u16| #[trigger] a.branch_of(t) > 0 ==> a.branch_found_before(t),
        forall|j: int| 0 <= j < a.loops@.len() ==> #[trigger] a.loop_starts_where_met(j),
    ensures
        a.wf(),
{
    lemma_complete_tags(a, tags, pos, dist);
    lemma_complete_loops(a, tags, pos, dist);
    lemma_complete_successor(a, tags, pos, dist);
    if is_branch(tags[a.rng.seed as int], 0) {
        let sd = a.rng.seed as int;
        lemma_tail_in_order(a.rng, tags, a.branches@, a.loops@, pos, dist, sd, 0);
        assert(branch_member_ok(a.rng, tags, a.branches@, pos, dist, sd, 0));
        assert(a.start_walk_in_order());
    }
    assert forall|i: int| 0 <= i < a.branches@.len() implies #[trigger] a.branch_ok(i) by {
        lemma_complete_branch(a, tags, pos, dist, i);
    }
    assert(tags[a.rng.seed as int] == Some(a.seeds@[a.rng.seed as int]));
}

/// Walking `k` frames from position `j` of a loop, without passing its end, lands on
/// position `j + k` (position 0 when the end is reached).
proof fn lemma_loop_walk(a: Analysis, i: int, j: int, k: nat)
    requires
        a.wf(),
        0 <= i < a.loops@.len(),
        0 <= j < a.loop_seq(i).len(),
        j + k <= a.loop_seq(i).len(),
    ensures
        a.rng.advance(a.loop_seq(i)[j], k) == a.loop_seq(i)[(j + k) % (a.loop_seq(i).len() as int)],
    decreases k,
{
    let l = a.loop_seq(i);
    let len = l.len() as int;
    assert(a.loop_ok(i));
    if k == 0 {
        lemma_small_mod(j as nat, len as nat);
    } else {
        assert(a.rng.next_seed(l[j]) == l[(j + 1) % len]);
        assert(a.rng.advance(l[j], k) == a.rng.advance(a.rng.next_seed(l[j]), (k - 1) as nat));
        if j + 1 < len {
            lemma_small_mod((j + 1) as nat, len as nat);
            lemma_loop_walk(a, i, j + 1, (k - 1) as nat);
        } else {
            lemma_mod_self_0(len);
            assert(k == 1);
            assert(a.rng.advance(l[0], 0) == l[0]);
            assert((j + k) % len == 0);
        }
    }
}

/// Every seed lies in exactly one of the analysis's loops and branches: some list holds it,
/// no two lists both hold it, and no list holds it twice.
pub proof fn lemma_every_seed_once(a: Analysis)
    requires
        a.wf(),
    ensures
        forall|s: u16| #[trigger] a.listed(s),
        forall|s: u16, i: int, h: int|
            0 <= i < a.loops@.len() && 0 <= h < a.loops@.len() && #[trigger] a.loop_seq(i).contains(s)
                && #[trigger] a.loop_seq(h).contains(s) ==> i == h,
        forall|s: u16, i: int, h: int|
            0 <= i < a.branches@.len() && 0 <= h < a.branches@.len() && #[trigger] a.branch_seq(
                i,
            ).contains(s) && #[trigger] a.branch_seq(h).contains(s) ==> i == h,
        forall|s: u16, i: int, h: int|
            0 <= i < a.loops@.len() && 0 <= h < a.branches@.len() ==> !(#[trigger] a.loop_seq(
                i,
            ).contains(s) && #[trigger] a.branch_seq(h).contains(s)),
        forall|i: int| 0 <= i < a.loops@.len() ==> (#[trigger] a.loop_seq(i)).no_duplicates(),
        forall|i: int| 0 <= i < a.branches@.len() ==> (#[trigger] a.branch_seq(i)).no_duplicates(),
{
    assert forall|s: u16| #[trigger] a.listed(s) by {
        match a.seeds@[s as int] {
            SeedInfo::Loop { id } => {
                assert(a.loop_seq(id as int).contains(s));
            },
            SeedInfo::Branch { id } => {
                assert(a.branch_seq(id as int).contains(s));
            },
        }
    }
    assert forall|s: u16, i: int, h: int|
        0 <= i < a.loops@.len() && 0 <= h < a.loops@.len() && #[trigger] a.loop_seq(i).contains(s)
            && #[trigger] a.loop_seq(h).contains(s) implies i == h by {
        assert(a.loop_ok(i));
        assert(a.loop_ok(h));
        let x = choose|x: int| 0 <= x < a.loop_seq(i).len() && a.loop_seq(i)[x] == s;
        let y = choose|y: int| 0 <= y < a.loop_seq(h).len() && a.loop_seq(h)[y] == s;
        assert(a.seeds@[a.loop_seq(i)[x] as int] == SeedInfo::Loop { id: i as u16 });
        assert(a.seeds@[a.loop_seq(h)[y] as int] == SeedInfo::Loop { id: h as u16 });
    }
    assert forall|s: u16, i: int, h: int|
        0 <= i < a.branches@.len() && 0 <= h < a.branches@.len() && #[trigger] a.branch_seq(
            i,
        ).contains(s) && #[trigger] a.branch_seq(h).contains(s) implies i == h by {
        assert(a.branch_ok(i));
        assert(a.branch_ok(h));
        let x = choose|x: int| 0 <= x < a.branch_seq(i).len() && a.branch_seq(i)[x] == s;
        let y = choose|y: int| 0 <= y < a.branch_seq(h).len() && a.branch_seq(h)[y] == s;
        assert(a.seeds@[a.branch_seq(i)[x] as int] == SeedInfo::Branch { id: i as u16 });
        assert(a.seeds@[a.branch_seq(h)[y] as int] == SeedInfo::Branch { id: h as u16 });
    }
    assert forall|s: u16, i: int, h: int|
        0 <= i < a.loops@.len() && 0 <= h < a.branches@.len() implies !(#[trigger] a.loop_seq(
            i,
        ).contains(s) && #[trigger] a.branch_seq(h).contains(s)) by {
        if a.loop_seq(i).contains(s) && a.branch_seq(h).contains(s) {
            assert(a.loop_ok(i));
            assert(a.branch_ok(h));
            let x = choose|x: int| 0 <= x < a.loop_seq(i).len() && a.loop_seq(i)[x] == s;
            let y = choose|y: int| 0 <= y < a.branch_seq(h).len() && a.branch_seq(h)[y] == s;
            assert(a.seeds@[a.loop_seq(i)[x] as int] == SeedInfo::Loop { id: i as u16 });
            assert(a.seeds@[a.branch_seq(h)[y] as int] == SeedInfo::Branch { id: h as u16 });
        }
    }
    assert forall|i: int| 0 <= i < a.loops@.len() implies (#[trigger] a.loop_seq(i)).no_duplicates() by {
        assert(a.loop_ok(i));
    }
    assert forall|i: int| 0 <= i < a.branches@.len() implies (#[trigger] a.branch_seq(i)).no_duplicates() by {
        assert(a.branch_ok(i));
    }
}

/// The lists `0..k` of `ls`, one after another.
pub open spec fn concat_upto(ls: Seq<Seq<u16>>, k: int) -> Seq<u16>
    decreases k,
{
    if k <= 0 {
        Seq::empty()
    } else {
        concat_upto(ls, k - 1) + ls[k - 1]
    }
}

proof fn lemma_concat_contains(ls: Seq<Seq<u16>>, k: int, x: u16)
    requires
        0 <= k <= ls.len(),
    ensures
        concat_upto(ls, k).contains(x) <==> exists|i: int| 0 <= i < k && #[trigger] ls[i].contains(x),
    decreases k,
{
    if k > 0 {
        lemma_concat_contains(ls, k - 1, x);
        let c = concat_upto(ls, k - 1);
        let l = ls[k - 1];
        assert(concat_upto(ls, k) == c + l);
        if (c + l).contains(x) {
            let j = choose|j: int| 0 <= j < (c + l).len() && (c + l)[j] == x;
            if j < c.len() {
                assert(c[j] == x);
                assert(c.contains(x));
                let i = choose|i: int| 0 <= i < k - 1 && #[trigger] ls[i].contains(x);
                assert(0 <= i < k && ls[i].contains(x));
            } else {
                assert(l[j - c.len()] == x);
                assert(ls[k - 1].contains(x));
            }
        }
        if exists|i: int| 0 <= i < k && #[trigger] ls[i].contains(x) {
            let i = choose|i: int| 0 <= i < k && #[trigger] ls[i].contains(x);
            if i < k - 1 {
                let j = choose|j: int| 0 <= j < c.len() && c[j] == x;
                assert((c + l)[j] == x);
            } else {
                let j = choose|j: int| 0 <= j < l.len() && l[j] == x;
                assert((c + l)[c.len() + j] == x);
            }
        }
    }
}

proof fn lemma_concat_no_dup(ls: Seq<Seq<u16>>, k: int)
    requires
        0 <= k <= ls.len(),
        forall|i: int| 0 <= i < ls.len() ==> (#[trigger] ls[i]).no_duplicates(),
        forall|i: int, h: int, x: u16|
            0 <= i < ls.len() && 0 <= h < ls.len() && #[trigger] ls[i].contains(x) && #[trigger] ls[h].contains(
                x,
            ) ==> i == h,
    ensures
        concat_upto(ls, k).no_duplicates(),
    decreases k,
{
    if k > 0 {
        lemma_concat_no_dup(ls, k - 1);
        let c = concat_upto(ls, k - 1);
        let l = ls[k - 1];
        assert forall|a: int, b: int| 0 <= a < (c + l).len() && 0 <= b < (c + l).len() && a != b implies (c
            + l)[a] != (c + l)[b] by {
            if a < c.len() && b >= c.len() {
                let x = c[a];
                if x == l[b - c.len()] {
                    assert(c.contains(x));
                    lemma_concat_contains(ls, k - 1, x);
                    let i = choose|i: int| 0 <= i < k - 1 && #[trigger] ls[i].contains(x);
                    assert(l.contains(x));
                }
            } else if b < c.len() && a >= c.len() {
                let x = c[b];
                if x == l[a - c.len()] {
                    assert(c.contains(x));
                    lemma_concat_contains(ls, k - 1, x);
                    let i = choose|i: int| 0 <= i < k - 1 && #[trigger] ls[i].contains(x);
                    assert(l.contains(x));
                }
            } else if a >= c.len() && b >= c.len() {
                assert(l[a - c.len()] != l[b - c.len()]);
            }
        }
    }
}

/// Some list of `ls` holds `x`.
pub open spec fn in_some(ls: Seq<Seq<u16>>, x: u16) -> bool {
    exists|i: int| 0 <= i < ls.len() && #[trigger] ls[i].contains(x)
}

/// Lists without repeats that hold every 16-bit value, no two the same one, have 65536
/// entries between them.
proof fn lemma_partition_count(ls: Seq<Seq<u16>>)
    requires
        forall|i: int| 0 <= i < ls.len() ==> (#[trigger] ls[i]).no_duplicates(),
        forall|i: int, h: int, x: u16|
            0 <= i < ls.len() && 0 <= h < ls.len() && #[trigger] ls[i].contains(x) && #[trigger] ls[h].contains(
                x,
            ) ==> i == h,
        forall|x: u16| #[trigger] in_some(ls, x),
    ensures
        concat_upto(ls, ls.len() as int).len() == 0x10000,
        concat_upto(ls, ls.len() as int).no_duplicates(),
        forall|x: u16| #[trigger] concat_upto(ls, ls.len() as int).contains(x),
{
    let c = concat_upto(ls, ls.len() as int);
    lemma_concat_no_dup(ls, ls.len() as int);
    assert forall|x: u16| #[trigger] c.contains(x) by {
        assert(in_some(ls, x));
        lemma_concat_contains(ls, ls.len() as int, x);
    }
    c.unique_seq_to_set();
    let full = Set::new(|x: u16| true);
    assert(c.to_set() =~= full);
    lemma_int_range(0, 0x10000);
    let f = |i: int| i as u16;
    assert(set_int_range(0, 0x10000).map(f) =~= full) by {
        assert forall|x: u16| full.contains(x) implies set_int_range(0, 0x10000).map(f).contains(x) by {
            assert(set_int_range(0, 0x10000).contains(x as int));
            assert(f(x as int) == x);
        }
    }
    lemma_map_size(set_int_range(0, 0x10000), full, f);
}

/// All lists of an analysis, the loops first.
pub open spec fn all_lists(a: Analysis) -> Seq<Seq<u16>> {
    Seq::new(
        (a.loops@.len() + a.branches@.len()) as nat,
        |i: int|
            if i < a.loops@.len() {
                a.loop_seq(i)
            } else {
                a.branch_seq(i - a.loops@.len())
            },
    )
}

/// The loops and branches of an analysis, one after another, are a permutation of all 65536
/// seeds: together they have 65536 entries, none twice, every seed among them.
pub proof fn lemma_lists_are_permutation(a: Analysis)
    requires
        a.wf(),
    ensures
        concat_upto(all_lists(a), all_lists(a).len() as int).len() == 0x10000,
        concat_upto(all_lists(a), all_lists(a).len() as int).no_duplicates(),
        forall|x: u16| #[trigger] concat_upto(all_lists(a), all_lists(a).len() as int).contains(x),
{
    lemma_every_seed_once(a);
    let ls = all_lists(a);
    let nl = a.loops@.len() as int;
    assert forall|i: int| 0 <= i < ls.len() implies (#[trigger] ls[i]).no_duplicates() by {
        if i < nl {
            assert(ls[i] == a.loop_seq(i));
        } else {
            assert(ls[i] == a.branch_seq(i - nl));
        }
    }
    assert forall|i: int, h: int, x: u16|
        0 <= i < ls.len() && 0 <= h < ls.len() && #[trigger] ls[i].contains(x) && #[trigger] ls[h].contains(
            x,
        ) implies i == h by {
        if i < nl && h < nl {
            assert(a.loop_seq(i).contains(x) && a.loop_seq(h).contains(x));
        } else if i >= nl && h >= nl {
            assert(a.branch_seq(i - nl).contains(x) && a.branch_seq(h - nl).contains(x));
        } else if i < nl {
            assert(a.loop_seq(i).contains(x) && a.branch_seq(h - nl).contains(x));
        } else {
            assert(a.loop_seq(h).contains(x) && a.branch_seq(i - nl).contains(x));
        }
    }
    assert forall|x: u16| #[trigger] in_some(ls, x) by {
        assert(a.listed(x));
        if exists|i: int| 0 <= i < nl && #[trigger] a.loop_seq(i).contains(x) {
            let i = choose|i: int| 0 <= i < nl && #[trigger] a.loop_seq(i).contains(x);
            assert(ls[i].contains(x));
        } else {
            let i = choose|i: int| 0 <= i < a.branches@.len() && #[trigger] a.branch_seq(i).contains(x);
            assert(ls[i + nl].contains(x));
        }
    }
    lemma_partition_count(ls);
}

/// A loop's first seed comes back after exactly as many frames as the loop has seeds, and
/// not sooner.
pub proof fn lemma_loop_period(a: Analysis, i: int)
    requires
        a.wf(),
        0 <= i < a.loops@.len(),
    ensures
        a.rng.advance(a.loop_seq(i)[0], a.loop_seq(i).len()) == a.loop_seq(i)[0],
        forall|k: nat|
            1 <= k < a.loop_seq(i).len() ==> #[trigger] a.rng.advance(a.loop_seq(i)[0], k) != a.loop_seq(
                i,
            )[0],
{
    let l = a.loop_seq(i);
    let len = l.len() as int;
    assert(a.loop_ok(i));
    lemma_loop_walk(a, i, 0, len as nat);
    lemma_mod_self_0(len);
    assert forall|k: nat| 1 <= k < len implies #[trigger] a.rng.advance(l[0], k) != l[0] by {
        lemma_loop_walk(a, i, 0, k);
        lemma_small_mod(k, len as nat);
        assert(l[k as int] != l[0]);
    }
}

/// Advancing `m` frames and then `k` more is advancing `m + k` frames.
proof fn lemma_advance_add(r: Rng, s: u16, m: nat, k: nat)
    ensures
        r.advance(r.advance(s, m), k) == r.advance(s, m + k),
    decreases m,
{
    if m > 0 {
        lemma_advance_add(r, r.next_seed(s), (m - 1) as nat, k);
        assert(r.advance(s, m + k) == r.advance(r.next_seed(s), (m + k - 1) as nat));
    }
}

/// Every seed of a branch reaches the first seed of the branch's loop within as many frames
/// as the branch and the loop have seeds together, less one.
pub proof fn lemma_branch_reaches_loop_start(a: Analysis, i: int, j: int)
    requires
        a.wf(),
        0 <= i < a.branches@.len(),
        0 <= j < a.branch_seq(i).len(),
    ensures
        exists|k: nat|
            1 <= k <= a.branch_seq(i).len() + a.loop_seq(a.branches@[i].loop_id as int).len() - 1
                && #[trigger] a.rng.advance(a.branch_seq(i)[j], k) == a.loop_seq(
                a.branches@[i].loop_id as int,
            )[0],
{
    let b = a.branch_seq(i);
    let target = a.branches@[i].loop_id as int;
    let l = a.loop_seq(target);
    assert(a.branch_ok(i));
    assert(a.reaches_loop(b[j], b.len(), target as u16));
    let k0 = choose|k: nat|
        1 <= k <= b.len() && a.seeds@[#[trigger] a.rng.advance(b[j], k) as int] == (SeedInfo::Loop {
            id: target as u16,
        });
    let t = a.rng.advance(b[j], k0);
    assert(a.seeds@[t as int] == SeedInfo::Loop { id: target as u16 });
    assert(l.contains(t));
    let p = choose|p: int| 0 <= p < l.len() && l[p] == t;
    assert(a.loop_ok(target));
    if p == 0 {
        assert(a.rng.advance(b[j], k0) == l[0]);
    } else {
        let rest = (l.len() - p) as nat;
        lemma_loop_walk(a, target, p, rest);
        lemma_mod_self_0(l.len() as int);
        lemma_advance_add(a.rng, b[j], k0, rest);
        assert(a.rng.advance(b[j], k0 + rest) == l[0]);
    }
}

/// One walk keeps the loops numbered in the order their first seeds were met.
#[verifier::rlimit(50)]
proof fn lemma_order_step(
    r: Rng,
    tags0: Seq<Option<SeedInfo>>,
    tags: Seq<Option<SeedInfo>>,
    branches0: Seq<BranchInfo>,
    branches: Seq<BranchInfo>,
    loops0: Seq<LoopInfo>,
    loops: Seq<LoopInfo>,
    pos0: Seq<int>,
    dist0: Seq<int>,
    pos: Seq<int>,
    dist: Seq<int>,
    firstkey: Seq<int>,
    witness: Seq<u16>,
    k: int,
    start: u16,
)
    requires
        sealed_committed(r, tags0, branches0, loops0, pos0, dist0),
        no_pending(tags0, branches0.len() as int),
        sealed_committed(r, tags, branches, loops, pos, dist),
        no_pending(tags, branches.len() as int),
        key_of(r, start as int) == k,
        forall|s: int| 0 <= s < 0x10000 && key_of(r, s) < k ==> (#[trigger] tags0[s]).is_some(),
        forall|s: int|
            0 <= s < 0x10000 && tags0[s].is_some() ==> #[trigger] tags[s] == tags0[s],
        branches.len() >= branches0.len(),
        forall|i: int|
            0 <= i < branches0.len() ==> (#[trigger] branches[i]).loop_id == branches0[i].loop_id,
        loops.len() == loops0.len() || loops.len() == loops0.len() + 1,
        loops.len() == loops0.len() + 1 ==> leads_to(tags, branches, start as int, loops0.len() as int),
        firstkey.len() == loops0.len(),
        witness.len() == loops0.len(),
        forall|j: int| 0 <= j < loops0.len() ==> 0 <= #[trigger] firstkey[j] < k,
        forall|j: int|
            0 <= j < loops0.len() ==> key_of(r, #[trigger] witness[j] as int) == firstkey[j]
                && leads_to(tags0, branches0, witness[j] as int, j),
        forall|s: int, j: int|
            0 <= s < 0x10000 && 0 <= j < loops0.len() && #[trigger] leads_to(tags0, branches0, s, j)
                ==> firstkey[j] <= key_of(r, s),
    ensures
        ({
            let fk = if loops.len() == loops0.len() + 1 {
                firstkey.push(k)
            } else {
                firstkey
            };
            let wt = if loops.len() == loops0.len() + 1 {
                witness.push(start)
            } else {
                witness
            };
            &&& forall|j: int|
                0 <= j < loops.len() ==> key_of(r, #[trigger] wt[j] as int) == fk[j] && leads_to(
                    tags,
                    branches,
                    wt[j] as int,
                    j,
                )
            &&& forall|s: int, j: int|
                0 <= s < 0x10000 && 0 <= j < loops.len() && #[trigger] leads_to(tags, branches, s, j)
                    ==> fk[j] <= key_of(r, s)
        }),
{
    reveal(sealed_committed);
    let grew = loops.len() == loops0.len() + 1;
    let fk = if grew {
        firstkey.push(k)
    } else {
        firstkey
    };
    let wt = if grew {
        witness.push(start)
    } else {
        witness
    };
    assert forall|s: int, j: int|
        0 <= s < 0x10000 && tags0[s].is_some() implies #[trigger] leads_to(tags, branches, s, j)
        == leads_to(tags0, branches0, s, j) by {
        match tags0[s] {
            Some(SeedInfo::Branch { id }) => {
                assert(!is_branch(tags0[s], branches0.len() as int));
                assert(id < branches0.len());
            },
            _ => {},
        }
    }
    assert forall|j: int| 0 <= j < loops.len() implies key_of(r, #[trigger] wt[j] as int) == fk[j]
        && leads_to(tags, branches, wt[j] as int, j) by {
        if j < loops0.len() {
            assert(leads_to(tags0, branches0, witness[j] as int, j));
            assert(tags0[witness[j] as int].is_some());
        }
    }
    assert forall|s: int, j: int|
        0 <= s < 0x10000 && 0 <= j < loops.len() && #[trigger] leads_to(tags, branches, s, j)
            implies fk[j] <= key_of(r, s) by {
        if tags0[s].is_some() {
            assert(leads_to(tags0, branches0, s, j));
            match tags0[s] {
                Some(SeedInfo::Loop { id }) => {},
                Some(SeedInfo::Branch { id }) => {
                    assert(!is_branch(tags0[s], branches0.len() as int));
                    assert(branch_list_ok(tags0, branches0[id as int], loops0.len() as int, id as int));
                },
                None => {},
            }
        } else {
            assert(key_of(r, s) >= k);
            if j < loops0.len() {
                assert(firstkey[j] < k);
            }
        }
    }
}

/// One walk keeps the branches numbered in the order their first seeds were met.
proof fn lemma_branch_order_step(
    r: Rng,
    tags0: Seq<Option<SeedInfo>>,
    tags: Seq<Option<SeedInfo>>,
    branches0: Seq<BranchInfo>,
    branches: Seq<BranchInfo>,
    bfirst: Seq<int>,
    bwit: Seq<u16>,
    k: int,
    start: u16,
)
    requires
        tags0.len() == 0x10000,
        tags.len() == 0x10000,
        no_pending(tags0, branches0.len() as int),
        key_of(r, start as int) == k,
        forall|s: int| 0 <= s < 0x10000 && key_of(r, s) < k ==> (#[trigger] tags0[s]).is_some(),
        forall|s: int|
            0 <= s < 0x10000 && tags0[s].is_some() ==> #[trigger] tags[s] == tags0[s],
        branches.len() == branches0.len() || branches.len() == branches0.len() + 1,
        branches.len() == branches0.len() + 1 ==> is_branch(tags[start as int], branches0.len() as int),
        bfirst.len() == branches0.len(),
        bwit.len() == branches0.len(),
        forall|j: int| 0 <= j < branches0.len() ==> 0 <= #[trigger] bfirst[j] < k,
        forall|j: int|
            0 <= j < branches0.len() ==> key_of(r, #[trigger] bwit[j] as int) == bfirst[j] && is_branch(
                tags0[bwit[j] as int],
                j,
            ),
        forall|s: int, j: int|
            0 <= s < 0x10000 && 0 <= j < branches0.len() && #[trigger] is_branch(tags0[s], j)
                ==> bfirst[j] <= key_of(r, s),
    ensures
        ({
            let bf = if branches.len() == branches0.len() + 1 {
                bfirst.push(k)
            } else {
                bfirst
            };
            let bw = if branches.len() == branches0.len() + 1 {
                bwit.push(start)
            } else {
                bwit
            };
            &&& forall|j: int|
                0 <= j < branches.len() ==> key_of(r, #[trigger] bw[j] as int) == bf[j] && is_branch(
                    tags[bw[j] as int],
                    j,
                )
            &&& forall|s: int, j: int|
                0 <= s < 0x10000 && 0 <= j < branches.len() && #[trigger] is_branch(tags[s], j)
                    ==> bf[j] <= key_of(r, s)
        }),
{
    let grew = branches.len() == branches0.len() + 1;
    let bf = if grew {
        bfirst.push(k)
    } else {
        bfirst
    };
    let bw = if grew {
        bwit.push(start)
    } else {
        bwit
    };
    assert forall|j: int| 0 <= j < branches.len() implies key_of(r, #[trigger] bw[j] as int) == bf[j]
        && is_branch(tags[bw[j] as int], j) by {
        if j < branches0.len() {
            assert(is_branch(tags0[bwit[j] as int], j));
        }
    }
    assert forall|s: int, j: int|
        0 <= s < 0x10000 && 0 <= j < branches.len() && #[trigger] is_branch(tags[s], j) implies bf[j]
        <= key_of(r, s) by {
        if tags0[s].is_some() {
            assert(tags[s] == tags0[s]);
            assert(is_branch(tags0[s], j));
            assert(j != branches0.len());
        } else {
            assert(key_of(r, s) >= k);
            if j < branches0.len() {
                assert(bfirst[j] < k);
            }
        }
    }
}

/// Once every seed is tagged, every loop starts where it was first met.
#[verifier::rlimit(60)]
proof fn lemma_complete_entry(
    a: Analysis,
    tags: Seq<Option<SeedInfo>>,
    pos: Seq<int>,
    dist: Seq<int>,
    firstkey: Seq<int>,
    witness: Seq<u16>,
    entry: Seq<nat>,
)
    requires
        committed(a.rng, tags, a.branches@, a.loops@, pos, dist),
        no_pending(tags, a.branches@.len() as int),
        a.seeds@.len() == 0x10000,
        a.loops@.len() <= 0x10000,
        forall|s: int| 0 <= s < 0x10000 ==> tags[s] == Some(#[trigger] a.seeds@[s]),
        firstkey.len() == a.loops@.len(),
        witness.len() == a.loops@.len(),
        entry.len() == a.loops@.len(),
        forall|j: int|
            0 <= j < a.loops@.len() ==> key_of(a.rng, #[trigger] witness[j] as int) == firstkey[j]
                && leads_to(tags, a.branches@, witness[j] as int, j),
        forall|s: int, j: int|
            0 <= s < 0x10000 && 0 <= j < a.loops@.len() && #[trigger] leads_to(
                tags,
                a.branches@,
                s,
                j,
            ) ==> firstkey[j] <= key_of(a.rng, s),
        loops_entered(a.rng, tags, a.loops@, witness, entry),
    ensures
        forall|j: int| 0 <= j < a.loops@.len() ==> #[trigger] a.loop_starts_where_met(j),
{
    assert forall|j: int| 0 <= j < a.loops@.len() implies #[trigger] a.loop_starts_where_met(j) by {
        let w = witness[j];
        let m = entry[j];
        assert(leads_to(tags, a.branches@, w as int, j));
        assert(tags[w as int] == Some(a.seeds@[w as int]));
        assert(a.loop_of(w) == j);
        assert forall|s: u16| #[trigger] a.loop_of(s) == j implies a.enumeration_key(w)
            <= a.enumeration_key(s) by {
            let si = s as int;
            assert(tags[si] == Some(a.seeds@[si]));
            match tags[si] {
                Some(SeedInfo::Branch { id }) => {
                    assert(!is_branch(tags[si], a.branches@.len() as int));
                },
                _ => {},
            }
            assert(leads_to(tags, a.branches@, si, j));
        }
        assert(a.rng.advance(w, m) == a.loop_seq(j)[0]);
        assert forall|m2: nat| m2 < m implies a.seeds@[#[trigger] a.rng.advance(w, m2) as int]
            != (SeedInfo::Loop { id: j as u16 }) by {
            let t = a.rng.advance(w, m2) as int;
            assert(tags[t].is_some() && !is_loop(tags[t], j));
            assert(tags[t] == Some(a.seeds@[t]));
        }
    }
}

/// Once every seed is tagged, branches are numbered in the order their first seeds were met.
proof fn lemma_complete_branch_order(
    a: Analysis,
    tags: Seq<Option<SeedInfo>>,
    bfirst: Seq<int>,
    bwit: Seq<u16>,
)
    requires
        a.seeds@.len() == 0x10000,
        forall|s: int| 0 <= s < 0x10000 ==> tags[s] == Some(#[trigger] a.seeds@[s]),
        forall|s: int| 0 <= s < 0x10000 ==> !is_branch(#[trigger] tags[s], a.branches@.len() as int),
        forall|s: int|
            0 <= s < 0x10000 ==> match #[trigger] tags[s] {
                Some(SeedInfo::Branch { id }) => id <= a.branches@.len(),
                _ => true,
            },
        bfirst.len() == a.branches@.len(),
        bwit.len() == a.branches@.len(),
        forall|j: int| 0 < j < a.branches@.len() ==> bfirst[j - 1] < #[trigger] bfirst[j],
        forall|j: int|
            0 <= j < a.branches@.len() ==> key_of(a.rng, #[trigger] bwit[j] as int) == bfirst[j]
                && is_branch(tags[bwit[j] as int], j),
        forall|s: int, j: int|
            0 <= s < 0x10000 && 0 <= j < a.branches@.len() && #[trigger] is_branch(tags[s], j)
                ==> bfirst[j] <= key_of(a.rng, s),
    ensures
        forall|t: u16| #[trigger] a.branch_of(t) > 0 ==> a.branch_found_before(t),
{
    assert forall|t: u16| #[trigger] a.branch_of(t) > 0 implies a.branch_found_before(t) by {
        let ti = t as int;
        assert(tags[ti] == Some(a.seeds@[ti]));
        let j = a.branch_of(t);
        assert(is_branch(tags[ti], j));
        assert(j < a.branches@.len());
        let w = bwit[j - 1];
        assert(is_branch(tags[w as int], j - 1));
        assert(tags[w as int] == Some(a.seeds@[w as int]));
        assert(a.branch_of(w) == j - 1);
        assert(a.enumeration_key(w) < a.enumeration_key(t));
    }
}

/// Once every seed is tagged, loops are numbered in the order their first seeds were met.
#[verifier::rlimit(60)]
proof fn lemma_complete_order(
    a: Analysis,
    tags: Seq<Option<SeedInfo>>,
    pos: Seq<int>,
    dist: Seq<int>,
    firstkey: Seq<int>,
    witness: Seq<u16>,
)
    requires
        committed(a.rng, tags, a.branches@, a.loops@, pos, dist),
        no_pending(tags, a.branches@.len() as int),
        a.seeds@.len() == 0x10000,
        forall|s: int| 0 <= s < 0x10000 ==> tags[s] == Some(#[trigger] a.seeds@[s]),
        firstkey.len() == a.loops@.len(),
        witness.len() == a.loops@.len(),
        forall|j: int| 0 < j < a.loops@.len() ==> firstkey[j - 1] < #[trigger] firstkey[j],
        forall|j: int|
            0 <= j < a.loops@.len() ==> key_of(a.rng, #[trigger] witness[j] as int) == firstkey[j]
                && leads_to(tags, a.branches@, witness[j] as int, j),
        forall|s: int, j: int|
            0 <= s < 0x10000 && 0 <= j < a.loops@.len() && #[trigger] leads_to(
                tags,
                a.branches@,
                s,
                j,
            ) ==> firstkey[j] <= key_of(a.rng, s),
    ensures
        forall|t: u16| #[trigger] a.loop_of(t) > 0 ==> a.loop_found_before(t),
{
    assert forall|t: u16| #[trigger] a.loop_of(t) > 0 implies a.loop_found_before(t) by {
        let ti = t as int;
        assert(tags[ti] == Some(a.seeds@[ti]));
        let j = a.loop_of(t);
        match tags[ti] {
            Some(SeedInfo::Branch { id }) => {
                assert(!is_branch(tags[ti], a.branches@.len() as int));
                assert(branch_list_ok(tags, a.branches@[id as int], a.loops@.len() as int, id as int));
            },
            _ => {},
        }
        assert(leads_to(tags, a.branches@, ti, j));
        let w = witness[j - 1];
        assert(leads_to(tags, a.branches@, w as int, j - 1));
        assert(tags[w as int] == Some(a.seeds@[w as int]));
        assert(a.loop_of(w) == j - 1);
        assert(a.enumeration_key(w) < a.enumeration_key(t));
    }
}

/// Each loop's first seed is met `entry[j]` frames from `witness[j]`, and no seed of the loop
/// is met before.
spec fn loops_entered(
    r: Rng,
    tags: Seq<Option<SeedInfo>>,
    loops: Seq<LoopInfo>,
    witness: Seq<u16>,
    entry: Seq<nat>,
) -> bool {
    &&& forall|j: int|
        0 <= j < loops.len() ==> r.advance(#[trigger] witness[j], entry[j]) == loops[j].seeds@[0]
    &&& forall|j: int, m: nat|
        0 <= j < loops.len() && m < entry[j] ==> (#[trigger] tags[r.advance(witness[j], m) as int]).is_some()
            && !is_loop(tags[r.advance(witness[j], m) as int], j)
}

/// One walk keeps every loop's first seed where it was first met.
proof fn lemma_entry_step(
    r: Rng,
    tags0: Seq<Option<SeedInfo>>,
    tags: Seq<Option<SeedInfo>>,
    loops0: Seq<LoopInfo>,
    loops: Seq<LoopInfo>,
    witness: Seq<u16>,
    entry: Seq<nat>,
    start: u16,
    m: nat,
)
    requires
        tags0.len() == 0x10000,
        tags.len() == 0x10000,
        forall|s: int|
            0 <= s < 0x10000 && tags0[s].is_some() ==> #[trigger] tags[s] == tags0[s],
        loops.len() == loops0.len() || loops.len() == loops0.len() + 1,
        forall|j: int| 0 <= j < loops0.len() ==> #[trigger] loops[j] == loops0[j],
        loops.len() == loops0.len() + 1 ==> r.advance(start, m) == loops[loops0.len() as int].seeds@[0],
        loops.len() == loops0.len() + 1 ==> forall|m2: nat|
            m2 < m ==> (#[trigger] tags[r.advance(start, m2) as int]).is_some() && !is_loop(
                tags[r.advance(start, m2) as int],
                loops0.len() as int,
            ),
        witness.len() == loops0.len(),
        entry.len() == loops0.len(),
        loops_entered(r, tags0, loops0, witness, entry),
    ensures
        loops.len() == loops0.len() + 1 ==> loops_entered(r, tags, loops, witness.push(start), entry.push(m)),
        loops.len() == loops0.len() ==> loops_entered(r, tags, loops, witness, entry),
{
    let grew = loops.len() == loops0.len() + 1;
    let wt = if grew {
        witness.push(start)
    } else {
        witness
    };
    let en = if grew {
        entry.push(m)
    } else {
        entry
    };
    assert forall|j: int| 0 <= j < loops.len() implies r.advance(#[trigger] wt[j], en[j])
        == loops[j].seeds@[0] by {
        if j < loops0.len() {
            assert(r.advance(witness[j], entry[j]) == loops0[j].seeds@[0]);
        }
    }
    assert forall|j: int, m2: nat|
        0 <= j < loops.len() && m2 < en[j] implies (#[trigger] tags[r.advance(wt[j], m2) as int]).is_some()
        && !is_loop(tags[r.advance(wt[j], m2) as int], j) by {
        if j < loops0.len() {
            let t = r.advance(witness[j], m2) as int;
            assert(tags0[t].is_some() && !is_loop(tags0[t], j));
            assert(tags[t] == tags0[t]);
        }
    }
}

/// What holds between walks while the analysis runs: starts before position `k` are done.
#[verifier::opaque]
spec fn driver_inv(
    r: Rng,
    k: int,
    tags: Seq<Option<SeedInfo>>,
    branches: Seq<BranchInfo>,
    loops: Seq<LoopInfo>,
    pos: Seq<int>,
    dist: Seq<int>,
    free: Set<int>,
    firstkey: Seq<int>,
    witness: Seq<u16>,
    bfirst: Seq<int>,
    bwit: Seq<u16>,
    entry: Seq<nat>,
) -> bool {
    &&& sealed_committed(r, tags, branches, loops, pos, dist)
    &&& entry.len() == loops.len()
    &&& loops_entered(r, tags, loops, witness, entry)
    &&& bfirst.len() == branches.len()
    &&& bwit.len() == branches.len()
    &&& forall|j: int| 0 <= j < branches.len() ==> 0 <= #[trigger] bfirst[j] < k
    &&& forall|j: int| 0 < j < branches.len() ==> bfirst[j - 1] < #[trigger] bfirst[j]
    &&& forall|j: int|
        0 <= j < branches.len() ==> key_of(r, #[trigger] bwit[j] as int) == bfirst[j] && is_branch(
            tags[bwit[j] as int],
            j,
        )
    &&& forall|s: int, j: int|
        0 <= s < 0x10000 && 0 <= j < branches.len() && #[trigger] is_branch(tags[s], j) ==> bfirst[j]
            <= key_of(r, s)
    &&& no_pending(tags, branches.len() as int)
    &&& free.finite()
    &&& forall|s: int| 0 <= s < 0x10000 ==> ((#[trigger] tags[s]).is_none() <==> free.contains(s))
    &&& loops.len() + branches.len() + free.len() <= 0x10000
    &&& k == 0 ==> loops.len() == 0 && branches.len() == 0 && forall|s: int|
        0 <= s < 0x10000 ==> (#[trigger] tags[s]).is_none()
    &&& k >= 1 ==> (is_loop(tags[r.seed as int], 0) || is_branch(tags[r.seed as int], 0))
    &&& k >= 1 && is_branch(tags[r.seed as int], 0) ==> branches[0].loop_id == 0
    &&& k >= 1 && is_branch(tags[r.seed as int], 0) ==> slack(branches, pos, dist, r.seed as int, 0) == 0
    &&& forall|s: int| 0 <= s < k - 1 ==> (#[trigger] tags[s]).is_some()
    &&& firstkey.len() == loops.len()
    &&& witness.len() == loops.len()
    &&& forall|j: int| 0 <= j < loops.len() ==> 0 <= #[trigger] firstkey[j] < k
    &&& forall|j: int| 0 < j < loops.len() ==> firstkey[j - 1] < #[trigger] firstkey[j]
    &&& forall|j: int|
        0 <= j < loops.len() ==> key_of(r, #[trigger] witness[j] as int) == firstkey[j] && leads_to(
            tags,
            branches,
            witness[j] as int,
            j,
        )
    &&& forall|s: int, j: int|
        0 <= s < 0x10000 && 0 <= j < loops.len() && #[trigger] leads_to(tags, branches, s, j)
            ==> firstkey[j] <= key_of(r, s)
}

/// Classifies from the walk start at position `k` of the enumeration, if it is untagged.
#[verifier::rlimit(100)]
fn classify_next(
    r: &Rng,
    k: usize,
    tags: &mut Vec<Option<SeedInfo>>,
    branches: &mut Vec<BranchInfo>,
    loops: &mut Vec<LoopInfo>,
    g: Ghost<(Seq<int>, Seq<int>, Set<int>, Seq<int>, Seq<u16>, Seq<int>, Seq<u16>, Seq<nat>)>,
) -> (res: Ghost<(Seq<int>, Seq<int>, Set<int>, Seq<int>, Seq<u16>, Seq<int>, Seq<u16>, Seq<nat>)>)
    requires
        k <= 0x10000,
        old(tags)@.len() == 0x10000,
        driver_inv(
            *r,
            k as int,
            old(tags)@,
            old(branches)@,
            old(loops)@,
            g@.0,
            g@.1,
            g@.2,
            g@.3,
            g@.4,
            g@.5,
            g@.6,
            g@.7,
        ),
    ensures
        final(tags)@.len() == 0x10000,
        driver_inv(
            *r,
            k + 1,
            final(tags)@,
            final(branches)@,
            final(loops)@,
            res@.0,
            res@.1,
            res@.2,
            res@.3,
            res@.4,
            res@.5,
            res@.6,
            res@.7,
        ),
{
    proof {
        reveal(driver_inv);
    }
    let ghost mut pos = g@.0;
    let ghost mut dist = g@.1;
    let ghost mut free = g@.2;
    let ghost mut firstkey = g@.3;
    let ghost mut witness = g@.4;
    let ghost mut bfirst = g@.5;
    let ghost mut bwit = g@.6;
    let ghost mut entry = g@.7;
    let start: u16 = if k == 0 {
        r.seed
    } else {
        (k - 1) as u16
    };
    if tags[start as usize].is_none() {
        let ghost tags0 = tags@;
        let ghost branches0 = branches@;
        let ghost loops0 = loops@;
        let ghost pos0 = pos;
        let ghost dist0 = dist;
        let res = classify_from(
            r,
            start,
            tags,
            branches,
            loops,
            Ghost(pos),
            Ghost(dist),
            Ghost(free),
        );
        proof {
            lemma_order_step(
                *r,
                tags0,
                tags@,
                branches0,
                branches@,
                loops0,
                loops@,
                pos0,
                dist0,
                res@.0,
                res@.1,
                firstkey,
                witness,
                k as int,
                start,
            );
            lemma_branch_order_step(
                *r,
                tags0,
                tags@,
                branches0,
                branches@,
                bfirst,
                bwit,
                k as int,
                start,
            );
            lemma_entry_step(*r, tags0, tags@, loops0, loops@, witness, entry, start, res@.3);
            if loops@.len() == loops0.len() + 1 {
                firstkey = firstkey.push(k as int);
                witness = witness.push(start);
                entry = entry.push(res@.3);
            }
            if branches@.len() == branches0.len() + 1 {
                bfirst = bfirst.push(k as int);
                bwit = bwit.push(start);
            }
            pos = res@.0;
            dist = res@.1;
            free = res@.2;
            if k >= 1 {
                assert(tags@[r.seed as int] == tags0[r.seed as int]);
                if is_branch(tags0[r.seed as int], 0) {
                    assert(branches0.len() > 0) by {
                        reveal(sealed_committed);
                    }
                }
            }
            assert forall|s: int| 0 <= s < k implies (#[trigger] tags@[s]).is_some() by {
                if s < k - 1 {
                    assert(tags0[s].is_some());
                    assert(tags@[s] == tags0[s]);
                }
            }
        }
    }
    Ghost((pos, dist, free, firstkey, witness, bfirst, bwit, entry))
}

impl Rng {
    /// Classifies every seed as part of a loop or a branch under this configuration. The
    /// current seed is classified first, so it belongs to loop 0 or branch 0; the others
    /// follow in ascending order, and loops and branches are numbered in the order in which
    /// their first seeds are met.
    #[verifier::rlimit(80)]
    pub fn analyze(&self) -> (a: Analysis)
        ensures
            a.rng == *self,
            a.wf(),
    {
        let mut tags: Vec<Option<SeedInfo>> = Vec::new();
        while tags.len() < 0x10000
            invariant
                tags@.len() <= 0x10000,
                forall|s: int| 0 <= s < tags@.len() ==> (#[trigger] tags@[s]).is_none(),
            decreases 0x10000 - tags@.len(),
        {
            tags.push(None);
        }
        let mut branches: Vec<BranchInfo> = Vec::new();
        let mut loops: Vec<LoopInfo> = Vec::new();
        let ghost mut pos: Seq<int> = Seq::new(0x10000, |s: int| 0);
        let ghost mut dist: Seq<int> = Seq::new(0x10000, |s: int| 0);
        let ghost mut free: Set<int> = set_int_range(0, 0x10000);
        let ghost mut firstkey: Seq<int> = Seq::empty();
        let ghost mut witness: Seq<u16> = Seq::empty();
        let ghost mut bfirst: Seq<int> = Seq::empty();
        let ghost mut bwit: Seq<u16> = Seq::empty();
        let ghost mut entry: Seq<nat> = Seq::empty();
        proof {
            lemma_int_range(0, 0x10000);
        }
        proof {
            reveal(driver_inv);
            reveal(sealed_committed);
        }
        let mut k: usize = 0;
        while k <= 0x10000
            invariant
                k <= 0x10001,
                tags@.len() == 0x10000,
                driver_inv(
                    *self,
                    k as int,
                    tags@,
                    branches@,
                    loops@,
                    pos,
                    dist,
                    free,
                    firstkey,
                    witness,
                    bfirst,
                    bwit,
                    entry,
                ),
            decreases 0x10001 - k,
        {
            let res = classify_next(
                self,
                k,
                &mut tags,
                &mut branches,
                &mut loops,
                Ghost((pos, dist, free, firstkey, witness, bfirst, bwit, entry)),
            );
            proof {
                pos = res@.0;
                dist = res@.1;
                free = res@.2;
                firstkey = res@.3;
                witness = res@.4;
                bfirst = res@.5;
                bwit = res@.6;
                entry = res@.7;
            }
            k = k + 1;
        }
        proof {
            reveal(driver_inv);
            reveal(sealed_committed);
            assert forall|s: int| 0 <= s < 0x10000 implies (#[trigger] tags@[s]).is_some() by {
                assert(s < k - 1);
            }
        }
        let mut seeds: Vec<SeedInfo> = Vec::new();
        let mut i: usize = 0;
        while i < 0x10000
            invariant
                i <= 0x10000,
                seeds@.len() == i,
                tags@.len() == 0x10000,
                forall|s: int| 0 <= s < 0x10000 ==> (#[trigger] tags@[s]).is_some(),
                forall|j: int| 0 <= j < i ==> tags@[j] == Some(#[trigger] seeds@[j]),
            decreases 0x10000 - i,
        {
            match tags[i] {
                Some(t) => seeds.push(t),
                None => seeds.push(SeedInfo::Loop { id: 0 }),
            }
            i = i + 1;
        }
        let a = Analysis { rng: *self, seeds, branches, loops };
        proof {
            lemma_complete_order(a, tags@, pos, dist, firstkey, witness);
            lemma_complete_branch_order(a, tags@, bfirst, bwit);
            lemma_complete_entry(a, tags@, pos, dist, firstkey, witness, entry);
            lemma_complete(a, tags@, pos, dist);
        }
        a
    }
}

} // verus!
