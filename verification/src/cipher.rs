//! The CSS cipher engine: a 17-bit and a 25-bit register combined by
//! carry-propagating addition.
//!
//! A 5-byte key seeds the two registers (bytes 0-1 the first, bytes 2-4 the
//! second, each byte bit-reversed, with one fixed 1-bit per register); a
//! fixed warm-up of one discarded emission from the first register and two
//! from the second is part of the cipher definition.

use vstd::prelude::*;
use crate::lfsr::Feedback;
use crate::lfsr::Lfsr;
use crate::lfsr::lfsr_wf;
use crate::lfsr::out8;
use crate::lfsr::stepn;
use crate::lfsr::lemma_stepn_add;
use crate::lfsr::lemma_stepn_shape;
use crate::lfsr::lemma_stepn_wf;
use crate::lfsr::lemma_out8_bound;

verus! {

/// The cipher: two registers and the carry from the previous output byte.
#[derive(Clone, Copy, Debug, PartialEq, Eq, Structural)]
pub struct Css {
    pub lfsr1: Lfsr,
    pub lfsr2: Lfsr,
    pub carry: bool,
}

/// A byte with its bit order reversed: bit `i` of the input becomes bit
/// `7 - i` of the result.
pub open spec fn rev8(b: u8) -> u8 {
    ((b & 0x01) << 7) | ((b & 0x02) << 5) | ((b & 0x04) << 3) | ((b & 0x08) << 1) | ((b & 0x10)
        >> 1) | ((b & 0x20) >> 3) | ((b & 0x40) >> 5) | ((b & 0x80) >> 7)
}

/// Reverse the bit order of a byte.
pub fn bit_reverse(b: u8) -> (r: u8)
    ensures
        r == rev8(b),
{
    ((b & 0x01) << 7) | ((b & 0x02) << 5) | ((b & 0x04) << 3) | ((b & 0x08) << 1) | ((b & 0x10)
        >> 1) | ((b & 0x20) >> 3) | ((b & 0x40) >> 5) | ((b & 0x80) >> 7)
}

/// The 17-bit register's seed: key byte 0 reversed in the top eight bits, a
/// fixed 1-bit at position 8, key byte 1 reversed in the low eight bits.
pub open spec fn init1_state(k0: u8, k1: u8) -> u32 {
    ((rev8(k0) as u32) << 9) | (1u32 << 8) | (rev8(k1) as u32)
}

/// The 25-bit register's seed: the three reversed key-byte fragments packed
/// around a fixed 1-bit at position 21.
pub open spec fn init2_state(k2: u8, k3: u8, k4: u8) -> u32 {
    (((rev8(k2) & 0xE0) as u32) << 17) | (1u32 << 21) | (((rev8(k2) & 0x1F) as u32) << 16) | ((
    rev8(k3) as u32) << 8) | (rev8(k4) as u32)
}

/// The 17-bit register as first built from key bytes 0-1, before warm-up.
pub open spec fn lfsr1_init(k0: u8, k1: u8) -> Lfsr {
    Lfsr { state: init1_state(k0, k1), bit_size: 17, update: Feedback::Taps17 }
}

/// The 25-bit register as first built from key bytes 2-4, before warm-up.
pub open spec fn lfsr2_init(k2: u8, k3: u8, k4: u8) -> Lfsr {
    Lfsr { state: init2_state(k2, k3, k4), bit_size: 25, update: Feedback::Taps25 }
}

/// The cipher state right after initialization: both registers seeded and
/// through their warm-up (one emission for the first, two for the second),
/// carry clear.
pub open spec fn css_init(key: Seq<u8>) -> Css
    recommends
        key.len() == 5,
{
    Css {
        lfsr1: stepn(lfsr1_init(key[0], key[1]), 8),
        lfsr2: stepn(lfsr2_init(key[2], key[3], key[4]), 16),
        carry: false,
    }
}

/// Well-formedness: both registers are well-formed and carry the rule of
/// their position.
pub open spec fn css_wf(c: Css) -> bool {
    lfsr_wf(c.lfsr1) && lfsr_wf(c.lfsr2) && c.lfsr1.update == Feedback::Taps17 && c.lfsr2.update
        == Feedback::Taps25
}

/// The incoming carry as a byte.
pub open spec fn carry_val(carry: bool) -> u8 {
    if carry {
        1
    } else {
        0
    }
}

/// The next output byte: the two register bytes plus the incoming carry,
/// modulo 256.
pub open spec fn css_out(c: Css) -> u8 {
    ((out8(c.lfsr1) + out8(c.lfsr2) + carry_val(c.carry)) % 256) as u8
}

/// The cipher state after one output byte. The new carry records whether the
/// two register bytes alone (the incoming carry not included) exceed 255.
pub open spec fn css_next(c: Css) -> Css {
    Css {
        lfsr1: stepn(c.lfsr1, 8),
        lfsr2: stepn(c.lfsr2, 8),
        carry: out8(c.lfsr1) + out8(c.lfsr2) > 255,
    }
}

/// The cipher state after `n` output bytes.
pub open spec fn css_stepn(c: Css, n: nat) -> Css
    decreases n,
{
    if n == 0 {
        c
    } else {
        css_next(css_stepn(c, (n - 1) as nat))
    }
}

/// The first `n` keystream bytes produced from state `c`.
pub open spec fn keystream(c: Css, n: nat) -> Seq<u8>
    decreases n,
{
    if n == 0 {
        Seq::empty()
    } else {
        seq![css_out(c)] + keystream(css_next(c), (n - 1) as nat)
    }
}

proof fn lemma_init1_fits(a: u8, b: u8)
    by (bit_vector)
    ensures
        (((a as u32) << 9) | (1u32 << 8) | (b as u32)) < 0x2_0000,
{
}

proof fn lemma_init2_fits(a: u8, b: u8, c: u8)
    by (bit_vector)
    ensures
        ((((a & 0xE0) as u32) << 17) | (1u32 << 21) | (((a & 0x1F) as u32) << 16) | ((b as u32)
            << 8) | (c as u32)) < 0x200_0000,
{
}

/// The seeded registers are well-formed.
pub proof fn lemma_init_wf(k0: u8, k1: u8, k2: u8, k3: u8, k4: u8)
    ensures
        lfsr_wf(lfsr1_init(k0, k1)),
        lfsr_wf(lfsr2_init(k2, k3, k4)),
{
    lemma_init1_fits(rev8(k0), rev8(k1));
    lemma_init2_fits(rev8(k2), rev8(k3), rev8(k4));
}

/// One output step preserves well-formedness.
pub proof fn lemma_css_next_wf(c: Css)
    requires
        css_wf(c),
    ensures
        css_wf(css_next(c)),
{
    lemma_stepn_wf(c.lfsr1, 8);
    lemma_stepn_wf(c.lfsr2, 8);
    lemma_stepn_shape(c.lfsr1, 8);
    lemma_stepn_shape(c.lfsr2, 8);
}

/// Any number of output steps preserves well-formedness.
pub proof fn lemma_css_stepn_wf(c: Css, n: nat)
    requires
        css_wf(c),
    ensures
        css_wf(css_stepn(c, n)),
    decreases n,
{
    if n > 0 {
        lemma_css_stepn_wf(c, (n - 1) as nat);
        lemma_css_next_wf(css_stepn(c, (n - 1) as nat));
    }
}

/// Output steps compose one at a time.
pub proof fn lemma_css_stepn_shift(c: Css, n: nat)
    ensures
        css_stepn(css_next(c), n) == css_stepn(c, n + 1),
    decreases n,
{
    if n > 0 {
        lemma_css_stepn_shift(c, (n - 1) as nat);
    } else {
        assert(css_stepn(c, 0) == c);
        assert(css_stepn(css_next(c), 0) == css_next(c));
    }
}

/// A keystream has exactly the requested length.
pub proof fn lemma_keystream_len(c: Css, n: nat)
    ensures
        keystream(c, n).len() == n,
    decreases n,
{
    if n > 0 {
        lemma_keystream_len(css_next(c), (n - 1) as nat);
    }
}

/// Keystream byte `i` is the output of the cipher after `i` steps.
pub proof fn lemma_keystream_index(c: Css, n: nat, i: int)
    requires
        0 <= i < n,
    ensures
        keystream(c, n).len() == n,
        keystream(c, n)[i] == css_out(css_stepn(c, i as nat)),
    decreases n,
{
    lemma_keystream_len(c, n);
    if i > 0 {
        lemma_keystream_index(css_next(c), (n - 1) as nat, i - 1);
        lemma_css_stepn_shift(c, (i - 1) as nat);
        lemma_keystream_len(css_next(c), (n - 1) as nat);
    }
}

/// Extending a keystream by one byte appends the output of the stepped
/// cipher.
pub proof fn lemma_keystream_snoc(c: Css, n: nat)
    ensures
        keystream(c, n + 1) == keystream(c, n).push(css_out(css_stepn(c, n))),
    decreases n,
{
    if n == 0 {
        assert(keystream(c, 0) =~= Seq::<u8>::empty());
        assert(keystream(css_next(c), 0) =~= Seq::<u8>::empty());
        assert(css_stepn(c, 0) == c);
        assert(keystream(c, 1) =~= keystream(c, 0).push(css_out(c)));
    } else {
        lemma_keystream_snoc(css_next(c), (n - 1) as nat);
        lemma_css_stepn_shift(c, (n - 1) as nat);
        assert(seq![css_out(c)] + keystream(css_next(c), (n - 1) as nat).push(
            css_out(css_stepn(c, n)),
        ) =~= (seq![css_out(c)] + keystream(css_next(c), (n - 1) as nat)).push(
            css_out(css_stepn(c, n)),
        ));
    }
}

/// A freshly initialized cipher is well-formed.
pub proof fn lemma_css_init_wf(key: Seq<u8>)
    requires
        key.len() == 5,
    ensures
        css_wf(css_init(key)),
{
    lemma_init_wf(key[0], key[1], key[2], key[3], key[4]);
    lemma_stepn_wf(lfsr1_init(key[0], key[1]), 8);
    lemma_stepn_wf(lfsr2_init(key[2], key[3], key[4]), 16);
    lemma_stepn_shape(lfsr1_init(key[0], key[1]), 8);
    lemma_stepn_shape(lfsr2_init(key[2], key[3], key[4]), 16);
}

/// After `n` output bytes each register has shifted `8 * n` times.
pub proof fn lemma_css_stepn_registers(c: Css, n: nat)
    ensures
        css_stepn(c, n).lfsr1 == stepn(c.lfsr1, 8 * n),
        css_stepn(c, n).lfsr2 == stepn(c.lfsr2, 8 * n),
    decreases n,
{
    if n == 0 {
        assert(stepn(c.lfsr1, 0) == c.lfsr1);
        assert(stepn(c.lfsr2, 0) == c.lfsr2);
    } else {
        lemma_css_stepn_registers(c, (n - 1) as nat);
        lemma_stepn_add(c.lfsr1, 8 * ((n - 1) as nat), 8);
        lemma_stepn_add(c.lfsr2, 8 * ((n - 1) as nat), 8);
    }
}

/// Dropping the first `m` keystream bytes leaves the keystream of the
/// cipher stepped `m` times.
pub proof fn lemma_keystream_skip(c: Css, n: nat, m: nat)
    requires
        m <= n,
    ensures
        keystream(c, n).skip(m as int) == keystream(css_stepn(c, m), (n - m) as nat),
    decreases m,
{
    lemma_keystream_len(c, n);
    if m == 0 {
        assert(css_stepn(c, 0) == c);
        assert(keystream(c, n).skip(0) =~= keystream(c, n));
    } else {
        lemma_keystream_skip(css_next(c), (n - 1) as nat, (m - 1) as nat);
        lemma_css_stepn_shift(c, (m - 1) as nat);
        lemma_keystream_len(css_next(c), (n - 1) as nat);
        assert((seq![css_out(c)] + keystream(css_next(c), (n - 1) as nat)).skip(m as int)
            =~= keystream(css_next(c), (n - 1) as nat).skip(m - 1));
    }
}

impl Css {
    /// Build the cipher from a 5-byte key: seed both registers, then run the
    /// fixed warm-up (one discarded emission from the first register, two
    /// from the second).
    pub fn new(key: [u8; 5]) -> (r: Css)
        ensures
            css_wf(r),
            r == css_init(key@),
    {
        let r0 = bit_reverse(key[0]);
        let r1 = bit_reverse(key[1]);
        let r2 = bit_reverse(key[2]);
        let r3 = bit_reverse(key[3]);
        let r4 = bit_reverse(key[4]);

        let mut lfsr1 = Lfsr {
            state: ((r0 as u32) << 9) | (1u32 << 8) | (r1 as u32),
            bit_size: 17,
            update: Feedback::Taps17,
        };
        let mut lfsr2 = Lfsr {
            state: (((r2 & 0xE0) as u32) << 17) | (1u32 << 21) | (((r2 & 0x1F) as u32) << 16) | ((
            r3 as u32) << 8) | (r4 as u32),
            bit_size: 25,
            update: Feedback::Taps25,
        };
        proof {
            lemma_init_wf(key@[0], key@[1], key@[2], key@[3], key@[4]);
        }

        lfsr1.step8();
        lfsr2.step8();
        lfsr2.step8();
        proof {
            lemma_stepn_add(lfsr2_init(key@[2], key@[3], key@[4]), 8, 8);
            lemma_stepn_shape(lfsr1_init(key@[0], key@[1]), 8);
            lemma_stepn_shape(lfsr2_init(key@[2], key@[3], key@[4]), 16);
        }

        Css { lfsr1, lfsr2, carry: false }
    }

    /// Produce the next keystream byte: the sum of the two register bytes and
    /// the incoming carry, modulo 256. The new carry records whether the two
    /// register bytes alone exceed 255.
    pub fn step(&mut self) -> (r: u8)
        requires
            css_wf(*old(self)),
        ensures
            css_wf(*final(self)),
            *final(self) == css_next(*old(self)),
            r == css_out(*old(self)),
    {
        let x = self.lfsr1.step8();
        let y = self.lfsr2.step8();
        let c: u8 = if self.carry {
            1
        } else {
            0
        };

        self.carry = (x as u16) + (y as u16) > 255;
        proof {
            lemma_css_next_wf(*old(self));
            lemma_out8_bound(old(self).lfsr1);
            lemma_out8_bound(old(self).lfsr2);
        }
        let sum: u16 = (x as u16) + (y as u16) + (c as u16);
        (sum % 256) as u8
    }

    /// Produce the next `n` keystream bytes.
    pub fn produce(&mut self, n: usize) -> (r: Vec<u8>)
        requires
            css_wf(*old(self)),
        ensures
            css_wf(*final(self)),
            *final(self) == css_stepn(*old(self), n as nat),
            r@ == keystream(*old(self), n as nat),
    {
        let ghost c0 = *self;
        let mut out: Vec<u8> = Vec::new();
        let mut i: usize = 0;
        while i < n
            invariant
                i <= n,
                css_wf(c0),
                css_wf(*self),
                *self == css_stepn(c0, i as nat),
                out@ == keystream(c0, i as nat),
            decreases n - i,
        {
            let b = self.step();
            out.push(b);
            proof {
                lemma_keystream_snoc(c0, i as nat);
            }
            i = i + 1;
        }
        out
    }
}

} // verus!
