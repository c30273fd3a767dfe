use vstd::prelude::*;
use vstd::set_lib::{lemma_int_range, set_int_range};

verus! {

/// One step of the generator on a 16-bit state, as arithmetic on its two bytes.
pub open spec fn rng1_spec(seed: u16) -> u16 {
    let lo = seed as int % 256;
    let hi = seed as int / 256;
    let t = (lo * 5) % 256 + ((hi * 5) % 256) * 256 + 0x100;
    ((t / 0x10000 + t + 0x11) % 0x10000) as u16
}

/// `n` steps of the generator from `seed`.
pub open spec fn rng1_iter(seed: u16, n: nat) -> u16
    decreases n,
{
    if n == 0 {
        seed
    } else {
        rng1_spec(rng1_iter(seed, (n - 1) as nat))
    }
}

/// The state with its high and low bytes exchanged.
pub open spec fn swap_bytes_spec(s: u16) -> u16 {
    ((s as int % 256) * 256 + s as int / 256) as u16
}

/// The generator's transition function.
pub fn rng1(seed: u16) -> (r: u16)
    ensures
        r == rng1_spec(seed),
{
    let lo: u32 = (seed as u32 % 256) * 5 % 256;
    let hi: u32 = (seed as u32 / 256) * 5 % 256;
    let t: u32 = lo + hi * 256 + 0x100;
    ((t / 0x10000 + t + 0x11) % 0x10000) as u16
}

/// A state whose low byte is zero steps to one whose low byte is not.
pub proof fn lemma_zero_low_byte_escapes(seed: u16)
    requires
        seed % 256 == 0,
    ensures
        rng1_spec(seed) % 256 != 0,
{
    let hi = seed as int / 256;
    let t = ((hi * 5) % 256) * 256 + 0x100;
    assert(t % 256 == 0) by (nonlinear_arith)
        requires
            t == ((hi * 5) % 256) * 256 + 0x100,
    ;
    assert(0 <= t / 0x10000 <= 1);
}

/// The state and parameters of the generator.
#[derive(Clone, Copy, Debug, PartialEq, Eq, Hash)]
pub struct Rng {
    /// The current seed value.
    pub seed: u16,
    /// Whether the low and high bytes of the seed are swapped after every frame.
    pub xba: bool,
    /// How many generator calls one frame makes.
    pub calls_per_frame: usize,
}

impl Rng {
    /// The state that follows `seed` after one frame under these parameters.
    pub open spec fn next_seed(self, seed: u16) -> u16 {
        let s = rng1_iter(seed, self.calls_per_frame as nat);
        if self.xba {
            swap_bytes_spec(s)
        } else {
            s
        }
    }

    /// The state that follows `seed` after `n` frames.
    pub open spec fn advance(self, seed: u16, n: nat) -> u16
        decreases n,
    {
        if n == 0 {
            seed
        } else {
            self.advance(self.next_seed(seed), (n - 1) as nat)
        }
    }

    /// Advancing one more frame after `n` frames.
    pub proof fn lemma_advance_last(self, seed: u16, n: nat)
        ensures
            self.advance(seed, n + 1) == self.next_seed(self.advance(seed, n)),
        decreases n,
    {
        let s1 = self.next_seed(seed);
        assert(self.advance(seed, n + 1) == self.advance(s1, n));
        if n > 0 {
            self.lemma_advance_last(s1, (n - 1) as nat);
            assert(self.advance(seed, n) == self.advance(s1, (n - 1) as nat));
        } else {
            assert(self.advance(s1, 0) == s1);
        }
    }

    /// The generator after power-on.
    pub fn reset() -> (r: Rng)
        ensures
            r == (Rng { seed: 0x0061, xba: false, calls_per_frame: 1 }),
    {
        Rng { seed: 0x0061, xba: false, calls_per_frame: 1 }
    }

    /// The generator after entering a room with a beetom.
    pub fn beetom() -> (r: Rng)
        ensures
            r == (Rng { seed: 0x0017, xba: false, calls_per_frame: 1 }),
    {
        Rng { seed: 0x0017, ..Rng::reset() }
    }

    /// The generator after entering a room with a sidehopper.
    pub fn sidehopper() -> (r: Rng)
        ensures
            r == (Rng { seed: 0x0025, xba: false, calls_per_frame: 1 }),
    {
        Rng { seed: 0x0025, ..Rng::reset() }
    }

    /// The generator after entering the room with polyps, which swaps bytes every frame.
    pub fn polyp() -> (r: Rng)
        ensures
            r == (Rng { seed: 0x0011, xba: true, calls_per_frame: 1 }),
    {
        Rng { seed: 0x0011, xba: true, ..Rng::reset() }
    }

    /// The current seed, unchanged.
    pub fn read(&self) -> (r: u16)
        ensures
            r == self.seed,
    {
        self.seed
    }

    /// Sets the seed to `new_seed`, keeping the parameters.
    pub fn reseed(&mut self, new_seed: u16)
        ensures
            *final(self) == (Rng { seed: new_seed, ..*old(self) }),
    {
        self.seed = new_seed;
    }

    /// A copy of this generator with another seed.
    pub fn with_seed(&self, seed: u16) -> (r: Rng)
        ensures
            r == (Rng { seed, ..*self }),
    {
        Rng { seed, ..*self }
    }

    /// One generator call: steps the seed and returns the new one.
    pub fn roll(&mut self) -> (r: u16)
        ensures
            r == rng1_spec(old(self).seed),
            *final(self) == (Rng { seed: r, ..*old(self) }),
    {
        self.seed = rng1(self.seed);
        self.seed
    }

    /// Advances one frame: `calls_per_frame` generator calls, then the byte swap if enabled.
    pub fn frame_advance(&mut self)
        ensures
            *final(self) == (Rng { seed: old(self).next_seed(old(self).seed), ..*old(self) }),
    {
        let mut i: usize = 0;
        while i < self.calls_per_frame
            invariant
                0 <= i <= self.calls_per_frame,
                self.xba == old(self).xba,
                self.calls_per_frame == old(self).calls_per_frame,
                self.seed == rng1_iter(old(self).seed, i as nat),
            decreases self.calls_per_frame - i,
        {
            self.roll();
            i = i + 1;
        }
        if self.xba {
            self.seed = self.seed % 256 * 256 + self.seed / 256;
        }
    }

    /// The seeds met from the current one, frame by frame, up to (not including) the first
    /// seed that repeats.
    pub fn seeds_until_loop(&self) -> (r: Vec<u16>)
        ensures
            r@.len() >= 1,
            r@[0] == self.seed,
            forall|i: int| 0 <= i < r@.len() - 1 ==> r@[i + 1] == self.next_seed(#[trigger] r@[i]),
            r@.no_duplicates(),
            r@.contains(self.next_seed(r@.last())),
    {
        let mut seen: Vec<bool> = Vec::new();
        while seen.len() < 0x10000
            invariant
                seen.len() <= 0x10000,
                forall|s: int| 0 <= s < seen.len() ==> !#[trigger] seen@[s],
            decreases 0x10000 - seen.len(),
        {
            seen.push(false);
        }
        let ghost mut free: Set<int> = set_int_range(0, 0x10000);
        proof {
            lemma_int_range(0, 0x10000);
        }
        let mut out: Vec<u16> = Vec::new();
        let mut cur = *self;
        while !seen[cur.seed as usize]
            invariant
                seen.len() == 0x10000,
                free.finite(),
                cur.xba == self.xba,
                cur.calls_per_frame == self.calls_per_frame,
                forall|s: int| 0 <= s < 0x10000 ==> (#[trigger] seen@[s] <==> !free.contains(s)),
                forall|s: int| 0 <= s < 0x10000 ==> (#[trigger] seen@[s] <==> out@.contains(
                    s as u16,
                )),
                out@.len() == 0 ==> cur.seed == self.seed,
                out@.len() > 0 ==> out@[0] == self.seed,
                out@.len() > 0 ==> cur.seed == self.next_seed(out@.last()),
                forall|i: int|
                    0 <= i < out@.len() - 1 ==> out@[i + 1] == self.next_seed(#[trigger] out@[i]),
                out@.no_duplicates(),
            decreases free.len(),
        {
            let s = cur.seed;
            proof {
                assert(free.contains(s as int));
                assert(!out@.contains(s));
            }
            let ghost old_out = out@;
            seen.set(s as usize, true);
            proof {
                free = free.remove(s as int);
            }
            out.push(s);
            cur.frame_advance();
            proof {
                assert(out@ == old_out.push(s));
                assert forall|t: int| 0 <= t < 0x10000 implies (#[trigger] seen@[t]
                    <==> out@.contains(t as u16)) by {
                    if t != s as int {
                        if old_out.contains(t as u16) {
                            let j = choose|j: int| 0 <= j < old_out.len() && old_out[j] == t as u16;
                            assert(out@[j] == t as u16);
                        }
                        if out@.contains(t as u16) {
                            let j = choose|j: int| 0 <= j < out@.len() && out@[j] == t as u16;
                            assert(old_out[j] == t as u16);
                        }
                    } else {
                        assert(out@[out@.len() - 1] == s);
                    }
                }
            }
        }
        proof {
            assert(seen@[cur.seed as int]);
        }
        out
    }
}

} // verus!
