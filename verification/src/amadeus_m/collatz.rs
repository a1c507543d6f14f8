//! Collatz oscillator: alternates between a conservative mode (even values)
//! and a creative mode (odd values) along a Collatz orbit.
use vstd::prelude::*;
use vstd::wrapping::u64_specs;
use crate::text::{push_str, push_decimal, decimal};

verus! {

#[derive(Clone, Copy, Debug, PartialEq, Eq, Structural)]
pub enum CollatzMode {
    /// Even value: global attention, conservative.
    Originalist,
    /// Odd value: local attention, creative.
    Vanguardist,
}

#[derive(Clone, Debug)]
pub struct CollatzOscillator {
    pub n: u64,
    pub seed: u64,
    pub steps: u64,
    /// Steps since the last reset, capped at 10.
    pub depth: u8,
    /// Consecutive steps in the same parity, capped at 10.
    pub streak: u8,
    /// Largest value reached in this orbit.
    pub peak: u64,
}

/// The next value of the orbit: halve an even value, otherwise `3n + 1`
/// with wrap-around at 2^64.
pub open spec fn collatz_next(n: u64) -> u64 {
    if n % 2 == 0 { n / 2 } else { u64_specs::wrapping_add(u64_specs::wrapping_mul(n, 3), 1) }
}

/// The oscillator after one step.
pub open spec fn step_spec(o: CollatzOscillator) -> CollatzOscillator {
    let steps = (o.steps + 1) as u64;
    let depth: u8 = if o.depth + 1 < 10 { (o.depth + 1) as u8 } else { 10 };
    let n = collatz_next(o.n);
    let peak = if n > o.peak { n } else { o.peak };
    let streak: u8 = if (n % 2 == 0) == (o.n % 2 == 0) {
        if o.streak + 1 < 10 { (o.streak + 1) as u8 } else { 10 }
    } else {
        1
    };
    if n == 1 && steps > 100 {
        let s = u64_specs::wrapping_add(o.seed, steps);
        let n2: u64 = if s == 0 { 27 } else { s };
        CollatzOscillator { n: n2, seed: o.seed, steps, depth: 0, streak: 0, peak: n2 }
    } else {
        CollatzOscillator { n, seed: o.seed, steps, depth, streak, peak }
    }
}

pub open spec fn mode_spec(n: u64) -> CollatzMode {
    if n % 2 == 0 { CollatzMode::Originalist } else { CollatzMode::Vanguardist }
}

impl CollatzOscillator {
    pub fn new(seed: u64) -> (o: Self)
        ensures
            o == (CollatzOscillator { n: seed, seed, steps: 0, depth: 0, streak: 0, peak: seed }),
    {
        CollatzOscillator { n: seed, seed, steps: 0, depth: 0, streak: 0, peak: seed }
    }

    /// Advances one step of the orbit; once the orbit reaches 1 after more
    /// than 100 steps it restarts from `seed + steps` (27 when that wraps to 0).
    pub fn step(&mut self)
        requires
            old(self).steps < u64::MAX,
            old(self).depth < 255,
            old(self).streak < 255,
        ensures
            *final(self) == step_spec(*old(self)),
    {
        self.steps += 1;
        self.depth = if self.depth + 1 < 10 { self.depth + 1 } else { 10 };
        let was_even = self.n % 2 == 0;
        if self.n % 2 == 0 {
            self.n = self.n / 2;
        } else {
            self.n = self.n.wrapping_mul(3).wrapping_add(1);
        }
        if self.n > self.peak {
            self.peak = self.n;
        }
        let now_even = self.n % 2 == 0;
        if now_even == was_even {
            self.streak = if self.streak + 1 < 10 { self.streak + 1 } else { 10 };
        } else {
            self.streak = 1;
        }
        if self.n == 1 {
            let next: u64 = if self.steps % 2 == 0 { 3 * 1 + 1 } else { 1 };
            if next == 4 || next == 1 {
                if self.steps > 100 {
                    let new_seed = self.seed.wrapping_add(self.steps);
                    self.n = if new_seed == 0 { 27 } else { new_seed };
                    self.depth = 0;
                    self.streak = 0;
                    self.peak = self.n;
                }
            }
        }
    }

    pub fn mode(&self) -> (m: CollatzMode)
        ensures
            m == mode_spec(self.n),
    {
        if self.n % 2 == 0 {
            CollatzMode::Originalist
        } else {
            CollatzMode::Vanguardist
        }
    }

    /// "Collatz n=<n> <mode> peak=<peak> streak=<streak>".
    pub fn describe(&self) -> (s: String)
        ensures
            s@ == "Collatz n="@ + decimal(self.n as nat) + " "@ + (if self.n % 2 == 0 { "Originalista"@ } else {
                "Vanguardista"@
            }) + " peak="@ + decimal(self.peak as nat) + " streak="@ + decimal(self.streak as nat),
    {
        let mode_str = match self.mode() {
            CollatzMode::Originalist => "Originalista",
            CollatzMode::Vanguardist => "Vanguardista",
        };
        let mut s = String::new();
        push_str(&mut s, "Collatz n=");
        push_decimal(&mut s, self.n);
        push_str(&mut s, " ");
        push_str(&mut s, mode_str);
        push_str(&mut s, " peak=");
        push_decimal(&mut s, self.peak);
        push_str(&mut s, " streak=");
        push_decimal(&mut s, self.streak as u64);
        s
    }
}

/// A step never leaves the orbit below its recorded peak, and keeps depth and
/// streak within 10.
pub proof fn lemma_step_invariant(o: CollatzOscillator)
    requires
        o.n <= o.peak,
        o.steps < u64::MAX,
    ensures
        step_spec(o).n <= step_spec(o).peak,
        step_spec(o).depth <= 10,
        step_spec(o).streak <= 10,
        step_spec(o).steps == o.steps + 1,
        step_spec(o).seed == o.seed,
{
}

/// Without a restart, an even value is halved and an odd one becomes `3n + 1`
/// (below 2^64).
pub proof fn lemma_step_orbit(o: CollatzOscillator)
    requires
        o.steps < u64::MAX,
        !(collatz_next(o.n) == 1 && o.steps + 1 > 100),
        o.n % 2 == 1 ==> 3 * o.n + 1 <= u64::MAX,
    ensures
        o.n % 2 == 0 ==> step_spec(o).n == o.n / 2,
        o.n % 2 == 1 ==> step_spec(o).n == 3 * o.n + 1,
{
}

} // verus!
