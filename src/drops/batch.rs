use vstd::prelude::*;

use crate::drops::table::{draw_state, draw_value, DropTable, ExplosionDrop};
use crate::drops::{Drop, DropSet};
use crate::rng::{rng1_iter, rng1_spec, Rng};

verus! {

/// The seed after `k` explosions from `seed`: each makes `rolls` generator calls, then
/// lets `interval` frames pass under `cfg`.
pub open spec fn explode(cfg: Rng, e: ExplosionDrop, seed: u16, k: nat) -> u16
    decreases k,
{
    if k == 0 {
        seed
    } else {
        cfg.advance(
            rng1_iter(explode(cfg, e, seed, (k - 1) as nat), e.rolls_spec() as nat),
            e.interval_spec() as nat,
        )
    }
}

impl DropTable {
    /// Primary draws for `n` enemies.
    pub open spec fn primary_draws(self, n: int) -> int {
        self.multiplicity() * n
    }

    /// The drops, and the seed after them, that `n` enemies give from the point where
    /// `main` primary and `extra` extra draws are done. Each primary draw is preceded by one
    /// more generator call; the explosions run once, before the first extra draw.
    pub open spec fn batch_from(
        self,
        cfg: Rng,
        possible: Set<Drop>,
        n: int,
        main: int,
        extra: int,
        seed: u16,
    ) -> (Seq<Drop>, u16)
        decreases (if main < self.primary_draws(n) {
            self.primary_draws(n) - main
        } else {
            0
        }) + (if extra < n {
            n - extra
        } else {
            0
        }),
    {
        if main < self.primary_draws(n) {
            let s1 = rng1_spec(seed);
            let rest = self.batch_from(cfg, possible, n, main + 1, extra, draw_state(s1));
            (seq![self.pick_spec(possible, draw_value(s1))] + rest.0, rest.1)
        } else if self.extra.is_some() && extra < n {
            let e = self.extra.unwrap();
            let s0 = if extra == 0 {
                explode(cfg, e, seed, e.explosions_spec() as nat)
            } else {
                seed
            };
            let rest = self.batch_from(cfg, possible, n, main, extra + 1, draw_state(s0));
            (seq![self.pick_spec(possible, draw_value(s0))] + rest.0, rest.1)
        } else {
            (Seq::empty(), seed)
        }
    }

}

/// Runs the explosions before an extra drop.
fn explode_exec(rng: &mut Rng, e: ExplosionDrop)
    ensures
        *final(rng) == (Rng {
            seed: explode((Rng { seed: 0, ..*old(rng) }), e, old(rng).seed, e.explosions_spec() as nat),
            ..*old(rng)
        }),
{
    let ghost cfg = Rng { seed: 0, ..*rng };
    let ghost seed0 = rng.seed;
    let count = e.num_explosions();
    let mut k: u32 = 0;
    while k < count
        invariant
            k <= count,
            count == e.explosions_spec(),
            *rng == (Rng { seed: explode(cfg, e, seed0, k as nat), ..cfg }),
        decreases count - k,
    {
        let rolls: u64 = e.rng_per_explosion() as u64;
        let ghost s_k = rng.seed;
        let mut j: u64 = 0;
        while j < rolls
            invariant
                j <= rolls,
                *rng == (Rng { seed: rng1_iter(s_k, j as nat), ..cfg }),
            decreases rolls - j,
        {
            rng.roll();
            j = j + 1;
        }
        let ghost mid = rng.seed;
        let interval = e.explosion_interval();
        let mut f: u32 = 0;
        while f < interval
            invariant
                f <= interval,
                *rng == (Rng { seed: cfg.advance(mid, f as nat), ..cfg }),
            decreases interval - f,
        {
            proof {
                cfg.lemma_advance_last(mid, f as nat);
            }
            rng.frame_advance();
            f = f + 1;
        }
        k = k + 1;
    }
}

/// The drops of a batch of enemies, produced one at a time from a shared generator.
pub struct DropRolls {
    n: u32,
    main: u64,
    extra: u32,
}

impl DropRolls {
    /// The number of enemies in the batch.
    pub closed spec fn batch_size(self) -> int {
        self.n as int
    }

    /// Primary draws made so far.
    pub closed spec fn primary_done(self) -> int {
        self.main as int
    }

    /// Extra draws made so far.
    pub closed spec fn extra_done(self) -> int {
        self.extra as int
    }

    /// The drops still to come, and the seed after them, when the generator stands at `rng`.
    pub open spec fn remaining(self, table: DropTable, rng: Rng, possible: Set<Drop>) -> (Seq<Drop>, u16) {
        table.batch_from(
            (Rng { seed: 0, ..rng }),
            possible,
            self.batch_size(),
            self.primary_done(),
            self.extra_done(),
            rng.seed,
        )
    }

    /// An upper bound on the draws still to come.
    pub open spec fn pending(self, table: DropTable) -> int {
        (if self.primary_done() < table.primary_draws(self.batch_size()) {
            table.primary_draws(self.batch_size()) - self.primary_done()
        } else {
            0
        }) + (if self.extra_done() < self.batch_size() {
            self.batch_size() - self.extra_done()
        } else {
            0
        })
    }

    /// The state of a batch of `n` enemies with nothing drawn yet.
    pub closed spec fn new_spec(n: u32) -> DropRolls {
        DropRolls { n, main: 0, extra: 0 }
    }

    /// A batch of `n` enemies with nothing drawn yet.
    pub fn new(n: u32) -> (r: DropRolls)
        ensures
            r == DropRolls::new_spec(n),
            r.batch_size() == n,
            r.primary_done() == 0,
            r.extra_done() == 0,
    {
        DropRolls { n, main: 0, extra: 0 }
    }

    /// The next drop of the batch, or `None` once the batch is exhausted.
    pub fn next(&mut self, table: &DropTable, rng: &mut Rng, possible: &DropSet) -> (r: Option<Drop>)
        requires
            table.fits(possible@),
            0 <= old(self).primary_done(),
            0 <= old(self).extra_done(),
        ensures
            final(self).batch_size() == old(self).batch_size(),
            0 <= final(self).primary_done(),
            0 <= final(self).extra_done(),
            (Rng { seed: 0, ..*final(rng) }) == (Rng { seed: 0, ..*old(rng) }),
            r.is_none() ==> *final(rng) == *old(rng) && old(self).remaining(*table, *old(rng), possible@)
                == (Seq::<Drop>::empty(), old(rng).seed),
            r.is_some() ==> old(self).remaining(*table, *old(rng), possible@) == (
            seq![r.unwrap()] + final(self).remaining(*table, *final(rng), possible@).0,
            final(self).remaining(*table, *final(rng), possible@).1),
            r.is_some() ==> final(self).pending(*table) < old(self).pending(*table),
    {
        let mult: u64 = match table.count {
            Some(c) => c as u64,
            None => 1,
        };
        proof {
            assert(mult * self.n <= 0xffff_ffff * 0xffff_ffff) by (nonlinear_arith)
                requires
                    mult <= 0xffff_ffff,
                    self.n <= 0xffff_ffff,
            ;
        }
        let count: u64 = mult * self.n as u64;
        if self.main < count {
            self.main = self.main + 1;
            rng.roll();
            Some(table.roll_one(rng, possible))
        } else {
            match table.extra {
                Some(e) => {
                    if self.extra < self.n {
                        if self.extra == 0 {
                            explode_exec(rng, e);
                        }
                        self.extra = self.extra + 1;
                        Some(table.roll_one(rng, possible))
                    } else {
                        None
                    }
                },
                None => None,
            }
        }
    }
}

impl DropTable {
    /// Simulates the drops of `n` enemies killed at once: `multiplicity × n` primary draws,
    /// each after one more generator call, then, for an enemy with an explosion drop, the
    /// explosions and `n` extra draws.
    pub fn roll_multiple(&self, rng: &mut Rng, possible: &DropSet, n: u32) -> (r: Vec<Drop>)
        requires
            self.fits(possible@),
        ensures
            (r@, final(rng).seed) == self.batch_from(
                (Rng { seed: 0, ..*old(rng) }),
                possible@,
                n as int,
                0,
                0,
                old(rng).seed,
            ),
            (Rng { seed: 0, ..*final(rng) }) == (Rng { seed: 0, ..*old(rng) }),
    {
        let mut rolls = DropRolls::new(n);
        let mut out: Vec<Drop> = Vec::new();
        let mut done = false;
        while !done
            invariant
                self.fits(possible@),
                0 <= rolls.primary_done(),
                0 <= rolls.extra_done(),
                (Rng { seed: 0, ..*rng }) == (Rng { seed: 0, ..*old(rng) }),
                rolls.batch_size() == n,
                !done ==> (out@ + rolls.remaining(*self, *rng, possible@).0, rolls.remaining(
                    *self,
                    *rng,
                    possible@,
                ).1) == DropRolls::new_spec(n).remaining(*self, *old(rng), possible@),
                done ==> (out@, rng.seed) == DropRolls::new_spec(n).remaining(
                    *self,
                    *old(rng),
                    possible@,
                ),
            decreases (if done {
                0
            } else {
                rolls.pending(*self) + 1
            }),
        {
            let ghost before = out@;
            match rolls.next(self, rng, possible) {
                Some(d) => {
                    out.push(d);
                    proof {
                        assert(out@ == before.push(d));
                        let rem = rolls.remaining(*self, *rng, possible@);
                        assert(before + (seq![d] + rem.0) =~= out@ + rem.0);
                    }
                },
                None => {
                    done = true;
                    proof {
                        assert(before + Seq::<Drop>::empty() =~= before);
                    }
                },
            }
        }
        out
    }

    /// Simulates the drops of one enemy.
    pub fn roll(&self, rng: &mut Rng, possible: &DropSet) -> (r: Vec<Drop>)
        requires
            self.fits(possible@),
        ensures
            (r@, final(rng).seed) == self.batch_from(
                (Rng { seed: 0, ..*old(rng) }),
                possible@,
                1,
                0,
                0,
                old(rng).seed,
            ),
            (Rng { seed: 0, ..*final(rng) }) == (Rng { seed: 0, ..*old(rng) }),
    {
        self.roll_multiple(rng, possible, 1)
    }
}

/// The number of drops a batch gives from the point where `main` primary and `extra` extra
/// draws are done.
pub proof fn lemma_batch_len(
    t: DropTable,
    cfg: Rng,
    possible: Set<Drop>,
    n: int,
    main: int,
    extra: int,
    seed: u16,
)
    requires
        0 <= main,
        0 <= extra,
        0 <= n,
    ensures
        t.batch_from(cfg, possible, n, main, extra, seed).0.len() == (if main < t.primary_draws(n) {
            t.primary_draws(n) - main
        } else {
            0
        }) + (if t.extra.is_some() && extra < n {
            n - extra
        } else {
            0
        }),
    decreases (if main < t.primary_draws(n) {
        t.primary_draws(n) - main
    } else {
        0
    }) + (if extra < n {
        n - extra
    } else {
        0
    }),
{
    if main < t.primary_draws(n) {
        let s1 = rng1_spec(seed);
        lemma_batch_len(t, cfg, possible, n, main + 1, extra, draw_state(s1));
    } else if t.extra.is_some() && extra < n {
        let e = t.extra.unwrap();
        let s0 = if extra == 0 {
            explode(cfg, e, seed, e.explosions_spec() as nat)
        } else {
            seed
        };
        lemma_batch_len(t, cfg, possible, n, main, extra + 1, draw_state(s0));
    }
}

} // verus!
