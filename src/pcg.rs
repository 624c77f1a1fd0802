//! A permuted congruential generator (PCG-XSH-RR, 64-bit state, 32-bit
//! output), as an infinite stream of numbers.

use vstd::prelude::*;

verus! {

/// The multiplier of the linear congruential step.
pub const PCG_MULTIPLIER: u64 = 6364136223846793005;

/// The state after one linear congruential step, with 64-bit wraparound.
#[verifier::opaque]
pub open spec fn pcg_step(state: u64, inc: u64) -> u64 {
    let product = (state as int * PCG_MULTIPLIER as int) % 0x1_0000_0000_0000_0000int;
    ((product + (inc | 1) as int) % 0x1_0000_0000_0000_0000int) as u64
}

/// The output drawn from a state: an xor-shift of the state, rotated right
/// by its top five bits.
#[verifier::opaque]
pub open spec fn pcg_output(state: u64) -> u32 {
    let xorshifted = (((state >> 18u64) ^ state) >> 27u64) as u32;
    let rot = (state >> 59u64) as u32;
    (xorshifted >> rot) | (xorshifted << (((32u32 - rot) as u32) & 31u32))
}

/// The increment that a sequence value selects; it is always odd.
pub open spec fn seeded_inc(init_seq: u64) -> u64 {
    ((init_seq << 1u64) | 1u64)
}

/// The state of a generator freshly seeded with `init_state` and `init_seq`:
/// one step from zero, the initial state added, and one more step.
pub open spec fn seeded_state(init_state: u64, init_seq: u64) -> u64 {
    let inc = seeded_inc(init_seq);
    let s1 = pcg_step(0, inc);
    let s2 = ((s1 as int + init_state as int) % 0x1_0000_0000_0000_0000int) as u64;
    pcg_step(s2, inc)
}

/// The state after `n` draws from `state`.
pub open spec fn pcg_state_after(state: u64, inc: u64, n: nat) -> u64
    decreases n,
{
    if n == 0 {
        state
    } else {
        pcg_step(pcg_state_after(state, inc, (n - 1) as nat), inc)
    }
}

/// The `n`-th number (counting from zero) that a generator in the given
/// state produces.
pub open spec fn pcg_nth(state: u64, inc: u64, n: nat) -> u32 {
    pcg_output(pcg_state_after(state, inc, n))
}

/// The first `n` numbers that a generator in the given state produces.
pub open spec fn pcg_prefix(state: u64, inc: u64, n: nat) -> Seq<u32> {
    Seq::new(n, |i: int| pcg_nth(state, inc, i as nat))
}

/// A permuted congruential generator.
pub struct Pcg {
    state: u64,
    inc: u64,
}

impl Pcg {
    /// The current state.
    pub closed spec fn state(&self) -> u64 {
        self.state
    }

    /// The increment, fixed for the generator's lifetime.
    pub closed spec fn inc(&self) -> u64 {
        self.inc
    }

    /// The generator's state after `n` more draws.
    pub open spec fn state_after(&self, n: nat) -> u64 {
        pcg_state_after(self.state(), self.inc(), n)
    }

    /// The number that the generator yields at its `n`-th next draw.
    pub open spec fn nth(&self, n: nat) -> u32 {
        pcg_nth(self.state(), self.inc(), n)
    }

    /// Draws fresh seed values from the operating system's secure entropy
    /// source; `None` when that source is unavailable.
    pub fn new_seed() -> (r: Option<(u64, u64)>) {
        let init_state = os_random_u64();
        let init_seq = os_random_u64();
        match (init_state, init_seq) {
            (Some(a), Some(b)) => Some((a, b)),
            _ => None,
        }
    }

    /// Seeds a generator. The same two values always give the same stream.
    pub fn from_seed(init_state: u64, init_seq: u64) -> (r: Self)
        ensures
            r.state() == seeded_state(init_state, init_seq),
            r.inc() == seeded_inc(init_seq),
    {
        let mut pcg = Pcg { state: 0, inc: (init_seq << 1u64) | 1u64 };
        pcg.next();
        pcg.state = pcg.state.wrapping_add(init_state);
        pcg.next();
        pcg
    }

    /// Yields the next number of the stream and advances the state.
    pub fn next(&mut self) -> (r: u32)
        ensures
            r == pcg_output(old(self).state()),
            final(self).state() == pcg_step(old(self).state(), old(self).inc()),
            final(self).inc() == old(self).inc(),
    {
        proof {
            reveal(pcg_step);
            reveal(pcg_output);
        }
        let oldstate = self.state;
        self.state = oldstate.wrapping_mul(PCG_MULTIPLIER).wrapping_add(self.inc | 1u64);
        let xorshifted: u32 = (((oldstate >> 18u64) ^ oldstate) >> 27u64) as u32;
        let rot: u32 = (oldstate >> 59u64) as u32;
        assert(rot < 32) by (bit_vector)
            requires
                rot == (oldstate >> 59u64) as u32,
        ;
        let back: u32 = (32u32 - rot) & 31u32;
        assert(back < 32) by (bit_vector)
            requires
                back == ((32u32 - rot) as u32) & 31u32,
        ;
        let r: u32 = (xorshifted >> rot) | (xorshifted << back);
        assert(r == (((((oldstate >> 18u64) ^ oldstate) >> 27u64) as u32) >> ((oldstate >> 59u64) as u32))
            | (((((oldstate >> 18u64) ^ oldstate) >> 27u64) as u32) << (((32u32 - ((oldstate >> 59u64) as u32)) as u32) & 31u32))) by (bit_vector)
            requires
                xorshifted == (((oldstate >> 18u64) ^ oldstate) >> 27u64) as u32,
                rot == (oldstate >> 59u64) as u32,
                back == ((32u32 - rot) as u32) & 31u32,
                r == (xorshifted >> rot) | (xorshifted << back),
        ;
        r
    }
}

/// Relies on getrandom::getrandom: fills eight bytes from the operating
/// system's entropy source, or reports that it could not.
#[verifier::external_body]
fn os_random_u64() -> (r: Option<u64>) {
    let mut bytes = [0u8; 8];
    match getrandom::getrandom(&mut bytes) {
        Ok(()) => Some(u64::from_ne_bytes(bytes)),
        Err(_) => None,
    }
}

/// Two generators seeded with the same values produce the same stream:
/// their `n`-th draws agree for every `n`.
pub proof fn lemma_same_seed_same_stream(g1: Pcg, g2: Pcg, init_state: u64, init_seq: u64)
    requires
        g1.state() == seeded_state(init_state, init_seq),
        g1.inc() == seeded_inc(init_seq),
        g2.state() == seeded_state(init_state, init_seq),
        g2.inc() == seeded_inc(init_seq),
    ensures
        forall|n: nat| #[trigger] g1.nth(n) == g2.nth(n),
        forall|n: nat| pcg_prefix(g1.state(), g1.inc(), n) == pcg_prefix(g2.state(), g2.inc(), n),
{
}

} // verus!
