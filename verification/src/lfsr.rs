//! The linear-feedback shift register primitive.
//!
//! A register holds a `state` of `bit_size` significant bits together with a
//! feedback rule, a tagged description of which state bits are XORed together
//! to form the bit reinserted at the top on every shift.

use vstd::prelude::*;

verus! {

/// The feedback rule of a register: the tap positions XORed together to
/// produce the bit fed back in at the top. Each rule belongs to one register
/// width, so the two are carried together.
#[derive(Clone, Copy, Debug, PartialEq, Eq, Structural)]
pub enum Feedback {
    /// Taps 0 and 14, for the 17-bit register.
    Taps17,
    /// Taps 0, 3, 4 and 12, for the 25-bit register.
    Taps25,
}

/// A linear-feedback shift register.
#[derive(Clone, Copy, Debug, PartialEq, Eq, Structural)]
pub struct Lfsr {
    pub state: u32,
    pub bit_size: u8,
    pub update: Feedback,
}

/// The register width that a feedback rule is defined for.
pub open spec fn rule_width(rule: Feedback) -> u8 {
    match rule {
        Feedback::Taps17 => 17,
        Feedback::Taps25 => 25,
    }
}

/// The bit fed back into the register, computed from the pre-shift state.
/// Always 0 or 1 (`lemma_feedback_bit_le_1`).
pub open spec fn feedback_bit(rule: Feedback, s: u32) -> u32 {
    match rule {
        Feedback::Taps17 => (s ^ (s >> 14)) & 1,
        Feedback::Taps25 => (s ^ (s >> 3) ^ (s >> 4) ^ (s >> 12)) & 1,
    }
}

/// Well-formedness: the width matches the feedback rule and the state fits
/// in that many bits.
pub open spec fn lfsr_wf(l: Lfsr) -> bool {
    l.bit_size == rule_width(l.update) && match l.update {
        Feedback::Taps17 => l.state < 0x2_0000,
        Feedback::Taps25 => l.state < 0x200_0000,
    }
}

/// One shift step: the state moves right one position and the feedback bit
/// is written into the top position (index `bit_size - 1`).
pub open spec fn shift_once(l: Lfsr) -> Lfsr {
    Lfsr {
        state: (l.state >> 1) | (feedback_bit(l.update, l.state) << ((l.bit_size - 1) as u32)),
        bit_size: l.bit_size,
        update: l.update,
    }
}

/// The register after `n` shift steps.
pub open spec fn stepn(l: Lfsr, n: nat) -> Lfsr
    decreases n,
{
    if n == 0 {
        l
    } else {
        shift_once(stepn(l, (n - 1) as nat))
    }
}

/// The first `n` output bits, accumulated most-significant-bit-first: each
/// step contributes the least-significant bit of the register before that
/// step's shift.
pub open spec fn out_bits(l: Lfsr, n: nat) -> nat
    decreases n,
{
    if n == 0 {
        0
    } else {
        (out_bits(l, (n - 1) as nat) * 2 + (stepn(l, (n - 1) as nat).state & 1)) as nat
    }
}

/// The byte assembled from eight successive output bits.
pub open spec fn out8(l: Lfsr) -> u8 {
    out_bits(l, 8) as u8
}

proof fn lemma_fb17_le_1(s: u32)
    by (bit_vector)
    ensures
        ((s ^ (s >> 14)) & 1) <= 1,
{
}

proof fn lemma_fb25_le_1(s: u32)
    by (bit_vector)
    ensures
        ((s ^ (s >> 3) ^ (s >> 4) ^ (s >> 12)) & 1) <= 1,
{
}

/// A feedback rule always yields a single bit.
pub proof fn lemma_feedback_bit_le_1(rule: Feedback, s: u32)
    ensures
        feedback_bit(rule, s) <= 1,
{
    match rule {
        Feedback::Taps17 => lemma_fb17_le_1(s),
        Feedback::Taps25 => lemma_fb25_le_1(s),
    }
}

proof fn lemma_shift_fits_17(s: u32, nb: u32)
    by (bit_vector)
    requires
        s < 0x2_0000,
        nb <= 1,
    ensures
        ((s >> 1) | (nb << 16u32)) < 0x2_0000,
{
}

proof fn lemma_shift_fits_25(s: u32, nb: u32)
    by (bit_vector)
    requires
        s < 0x200_0000,
        nb <= 1,
    ensures
        ((s >> 1) | (nb << 24u32)) < 0x200_0000,
{
}

/// Shifting preserves well-formedness.
pub proof fn lemma_shift_once_wf(l: Lfsr)
    requires
        lfsr_wf(l),
    ensures
        lfsr_wf(shift_once(l)),
{
    lemma_feedback_bit_le_1(l.update, l.state);
    match l.update {
        Feedback::Taps17 => lemma_shift_fits_17(l.state, feedback_bit(l.update, l.state)),
        Feedback::Taps25 => lemma_shift_fits_25(l.state, feedback_bit(l.update, l.state)),
    }
}

/// Any number of shifts preserves well-formedness.
pub proof fn lemma_stepn_wf(l: Lfsr, n: nat)
    requires
        lfsr_wf(l),
    ensures
        lfsr_wf(stepn(l, n)),
    decreases n,
{
    if n > 0 {
        lemma_stepn_wf(l, (n - 1) as nat);
        lemma_shift_once_wf(stepn(l, (n - 1) as nat));
    }
}

/// Shifting never changes the width or the feedback rule.
pub proof fn lemma_stepn_shape(l: Lfsr, n: nat)
    ensures
        stepn(l, n).update == l.update,
        stepn(l, n).bit_size == l.bit_size,
    decreases n,
{
    if n > 0 {
        lemma_stepn_shape(l, (n - 1) as nat);
    }
}

/// Shift counts compose.
pub proof fn lemma_stepn_add(l: Lfsr, m: nat, n: nat)
    ensures
        stepn(stepn(l, m), n) == stepn(l, m + n),
    decreases n,
{
    if n > 0 {
        lemma_stepn_add(l, m, (n - 1) as nat);
    }
}

proof fn lemma_low_bit(s: u32)
    by (bit_vector)
    ensures
        ((s as u8) & 1) == ((s & 1) as u8),
        (s & 1) <= 1,
{
}

proof fn lemma_pow_double(n: u32)
    by (bit_vector)
    requires
        1 <= n <= 8,
    ensures
        (1u32 << n) == 2 * (1u32 << ((n - 1) as u32)),
{
}

proof fn lemma_pow_le_128(n: u32)
    by (bit_vector)
    requires
        n <= 7,
    ensures
        (1u32 << n) <= 128,
{
}

proof fn lemma_accumulate(output: u8, bit: u8)
    by (bit_vector)
    requires
        output < 128,
        bit <= 1,
    ensures
        ((output << 1) | bit) == output * 2 + bit,
{
}

/// `n` output bits fit in `n` binary digits.
pub proof fn lemma_out_bits_bound(l: Lfsr, n: nat)
    requires
        n <= 8,
    ensures
        out_bits(l, n) < (1u32 << (n as u32)),
    decreases n,
{
    if n == 0 {
        assert((1u32 << 0u32) == 1) by (bit_vector);
    } else {
        lemma_out_bits_bound(l, (n - 1) as nat);
        lemma_low_bit(stepn(l, (n - 1) as nat).state);
        lemma_pow_double(n as u32);
    }
}

/// The output byte never truncates: `out_bits` over eight steps is below 256.
pub proof fn lemma_out8_bound(l: Lfsr)
    ensures
        out_bits(l, 8) < 256,
        out8(l) == out_bits(l, 8),
{
    lemma_out_bits_bound(l, 8);
    assert((1u32 << 8u32) == 256) by (bit_vector);
}

impl Lfsr {
    /// Emit one byte: eight single-bit steps, the output accumulated
    /// most-significant-bit-first, the register mutated in place.
    pub fn step8(&mut self) -> (r: u8)
        requires
            lfsr_wf(*old(self)),
        ensures
            lfsr_wf(*final(self)),
            *final(self) == stepn(*old(self), 8),
            r == out8(*old(self)),
    {
        let ghost l0 = *self;
        let mut output: u8 = 0;
        let mut i: usize = 0;
        proof {
            assert((1u32 << 0u32) == 1) by (bit_vector);
        }
        while i < 8
            invariant
                i <= 8,
                lfsr_wf(l0),
                lfsr_wf(*self),
                *self == stepn(l0, i as nat),
                output == out_bits(l0, i as nat),
                output < (1u32 << (i as u32)),
            decreases 8 - i,
        {
            let s_cur: u32 = self.state;
            let bit: u8 = (#[verifier::truncate] (s_cur as u8)) & 1;
            proof {
                lemma_low_bit(s_cur);
                lemma_pow_le_128(i as u32);
                lemma_accumulate(output, bit);
                lemma_shift_once_wf(*self);
                lemma_pow_double((i + 1) as u32);
            }
            let next_bit: u32 = feedback_eval(self.update, s_cur);
            let width_minus_1: u8 = self.bit_size - 1;
            self.state = (s_cur >> 1) | (next_bit << (width_minus_1 as u32));
            output = (output << 1) | bit;
            i = i + 1;
        }
        proof {
            lemma_out8_bound(l0);
        }
        output
    }
}

/// Evaluate a feedback rule on a state; the result is a single bit.
pub fn feedback_eval(rule: Feedback, s: u32) -> (r: u32)
    ensures
        r == feedback_bit(rule, s),
        r <= 1,
{
    proof {
        lemma_feedback_bit_le_1(rule, s);
    }
    match rule {
        Feedback::Taps17 => (s ^ (s >> 14)) & 1,
        Feedback::Taps25 => (s ^ (s >> 3) ^ (s >> 4) ^ (s >> 12)) & 1,
    }
}

/// The register primitive is deterministic: equal registers emit the same
/// byte and land in the same state.
pub proof fn lemma_step8_deterministic(a: Lfsr, b: Lfsr)
    requires
        a == b,
    ensures
        out8(a) == out8(b),
        stepn(a, 8) == stepn(b, 8),
{
}

} // verus!
