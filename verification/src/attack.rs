//! Key recovery against the cipher: the exhaustive baseline, the algebraic
//! attack over the 16 free bits of the first register, and the residual
//! brute force that turns the recovered second-register state back into key
//! bytes.

use vstd::prelude::*;
use crate::lfsr::Feedback;
use crate::lfsr::Lfsr;
use crate::lfsr::lfsr_wf;
use crate::lfsr::out8;
use crate::lfsr::stepn;
use crate::lfsr::lemma_stepn_add;
use crate::lfsr::lemma_stepn_shape;
use crate::lfsr::lemma_stepn_wf;
use crate::cipher::Css;
use crate::cipher::bit_reverse;
use crate::cipher::carry_val;
use crate::cipher::css_init;
use crate::cipher::css_out;
use crate::cipher::css_next;
use crate::cipher::css_stepn;
use crate::cipher::css_wf;
use crate::cipher::keystream;
use crate::cipher::lfsr1_init;
use crate::cipher::lfsr2_init;
use crate::cipher::lemma_css_init_wf;
use crate::cipher::lemma_css_next_wf;
use crate::cipher::lemma_css_stepn_registers;
use crate::cipher::lemma_init_wf;
use crate::cipher::lemma_keystream_skip;
use crate::cipher::lemma_keystream_index;
use crate::cipher::lemma_keystream_len;
use crate::cipher::lemma_keystream_snoc;
use crate::cipher::rev8;

verus! {

/// `(a - b - c) mod 256` together with its borrow, which is set exactly when
/// `a < b + c`.
pub open spec fn sub_borrow(a: u8, b: u8, c: u8) -> (u8, bool)
    recommends
        c <= 1,
{
    (((a + 256 - b - c) % 256) as u8, a < b + c)
}

proof fn lemma_mod_of_511(t: u16)
    by (bit_vector)
    requires
        t < 512,
    ensures
        t % 256 == if t < 256 {
            t
        } else {
            (t - 256) as u16
        },
{
}

/// Two-operand subtraction with borrow: `a - b - c` modulo 256, and whether
/// the subtraction wrapped.
pub fn double_overflowing_sub(a: u8, b: u8, c: u8) -> (r: (u8, bool))
    requires
        c <= 1,
    ensures
        r == sub_borrow(a, b, c),
        r.0 + b + c == a + if r.1 {
            256int
        } else {
            0int
        },
{
    let total: u16 = (a as u16) + 256 - (b as u16) - (c as u16);
    proof {
        lemma_mod_of_511(total);
    }
    ((total % 256) as u8, (a as u16) < (b as u16) + (c as u16))
}

/// Inverting the forward addition-with-carry round-trips: subtracting the
/// first register's byte `x` and the incoming carry `c` from the output byte
/// recovers the second register's byte `y` exactly, and the borrow is set
/// exactly when the full sum `x + y + c` reached 256. (The cipher's own next
/// carry is `x + y > 255`, the incoming carry not included: the two agree
/// except when `x + y == 255` and `c == 1`.)
pub proof fn lemma_sub_borrow_round_trip(x: u8, y: u8, c: u8)
    requires
        c <= 1,
    ensures
        sub_borrow(((x + y + c) % 256) as u8, x, c) == (y, x + y + c >= 256),
{
    let o = ((x + y + c) % 256) as u8;
    assert((((o + 256 - x - c) % 256) as u8) == y && ((o < x + c) <==> (x + y + c >= 256)))
        by (bit_vector)
        requires
            c <= 1,
            o == ((x + y + c) % 256) as u8,
    ;
}

/// Does the cipher, resumed from state `css`, reproduce `stream` from
/// position `from` onwards?
pub fn matches_from(css: Css, stream: &Vec<u8>, from: usize) -> (r: bool)
    requires
        css_wf(css),
        from <= stream@.len(),
    ensures
        r <==> keystream(css, (stream@.len() - from) as nat) == stream@.skip(from as int),
{
    let n = stream.len();
    proof {
        lemma_keystream_len(css, (n - from) as nat);
    }
    let mut cur = css;
    let mut j = from;
    while j < n
        invariant
            from <= j <= n,
            n == stream@.len(),
            css_wf(css),
            css_wf(cur),
            cur == css_stepn(css, (j - from) as nat),
            keystream(css, (j - from) as nat) == stream@.subrange(from as int, j as int),
        decreases n - j,
    {
        let b = cur.step();
        proof {
            lemma_css_next_wf(cur);
            lemma_keystream_snoc(css, (j - from) as nat);
            assert(stream@.subrange(from as int, j + 1) =~= stream@.subrange(
                from as int,
                j as int,
            ).push(stream@[j as int]));
        }
        if b != stream[j] {
            proof {
                lemma_keystream_index(css, (n - from) as nat, j - from);
                assert(stream@.skip(from as int)[j - from] == stream@[j as int]);
            }
            return false;
        }
        j = j + 1;
    }
    proof {
        assert(stream@.skip(from as int) =~= stream@.subrange(from as int, n as int));
    }
    true
}

/// Register A for prefix candidate `i` (key bytes 0-1 are the little-endian
/// bytes of `i`), after its single warm-up emission.
pub open spec fn cand_lfsr1(i: u16) -> Lfsr {
    stepn(lfsr1_init((i & 0xFF) as u8, ((i >> 8) & 0xFF) as u8), 8)
}

/// The recovered pair `(y, borrow)` at probe position `j` (0-based, `j < 4`):
/// the combining rule inverted against keystream byte `j`, register A's byte
/// at that position, and the borrow of the previous position.
pub open spec fn recovered(ks: Seq<u8>, i: u16, j: nat) -> (u8, bool)
    recommends
        j < 4,
        ks.len() >= 4,
    decreases j,
{
    let x = out8(stepn(cand_lfsr1(i), (8 * j) as nat));
    let cprev: u8 = if j == 0 {
        0
    } else {
        carry_val(recovered(ks, i, (j - 1) as nat).1)
    };
    sub_borrow(ks[j as int], x, cprev)
}

/// The recovered bytes packed into the 25-bit state register B must have
/// held before emitting them: the first three bytes and the low bit of the
/// fourth, each bit-reversed, packed low to high.
pub open spec fn packed_state(y1: u8, y2: u8, y3: u8, y4: u8) -> u32 {
    (rev8(y1) as u32) | ((rev8(y2) as u32) << 8) | ((rev8(y3) as u32) << 16) | (((rev8(y4)
        & 1) as u32) << 24)
}

/// Register B as reconstructed for candidate `i`, before replaying its four
/// probe emissions.
pub open spec fn cand_lfsr2(ks: Seq<u8>, i: u16) -> Lfsr {
    Lfsr {
        state: packed_state(
            recovered(ks, i, 0).0,
            recovered(ks, i, 1).0,
            recovered(ks, i, 2).0,
            recovered(ks, i, 3).0,
        ),
        bit_size: 25,
        update: Feedback::Taps25,
    }
}

/// The resumed cipher for candidate `i`: register A past its four probe
/// emissions, register B reconstructed and replayed past the same four, and
/// the final borrow as carry.
pub open spec fn cand_css(ks: Seq<u8>, i: u16) -> Css {
    Css {
        lfsr1: stepn(cand_lfsr1(i), 32),
        lfsr2: stepn(cand_lfsr2(ks, i), 32),
        carry: recovered(ks, i, 3).1,
    }
}

/// Candidate `i` is accepted exactly when the resumed cipher reproduces the
/// keystream past its first four bytes.
pub open spec fn cand_accepted(ks: Seq<u8>, i: u16) -> bool
    recommends
        ks.len() >= 4,
{
    keystream(cand_css(ks, i), (ks.len() - 4) as nat) == ks.skip(4)
}

proof fn lemma_packed_fits(a: u8, b: u8, c: u8, d: u8)
    by (bit_vector)
    ensures
        ((a as u32) | ((b as u32) << 8) | ((c as u32) << 16) | (((d & 1) as u32) << 24))
            < 0x200_0000,
{
}

/// The reconstructed register B is well-formed.
pub proof fn lemma_cand_lfsr2_wf(ks: Seq<u8>, i: u16)
    ensures
        lfsr_wf(cand_lfsr2(ks, i)),
{
    lemma_packed_fits(
        rev8(recovered(ks, i, 0).0),
        rev8(recovered(ks, i, 1).0),
        rev8(recovered(ks, i, 2).0),
        rev8(recovered(ks, i, 3).0),
    );
}

/// Build, replay and test one prefix candidate: reconstruct register B by
/// inverting the combining rule against the first four keystream bytes,
/// then check the resumed cipher against the rest of the keystream.
#[verifier::rlimit(40)]
fn try_candidate(stream: &Vec<u8>, cand: u16) -> (r: Option<([u8; 2], u32)>)
    requires
        stream@.len() >= 4,
    ensures
        r.is_some() <==> cand_accepted(stream@, cand),
        r.is_some() ==> r.unwrap().0@ == seq![(cand & 0xFF) as u8, ((cand >> 8) & 0xFF) as u8]
            && r.unwrap().1 == cand_lfsr2(stream@, cand).state,
{
    proof {
        assert((cand & 0xFF) < 256 && ((cand >> 8) & 0xFF) < 256) by (bit_vector);
    }
    let k0: u8 = (cand & 0xFF) as u8;
    let k1: u8 = ((cand >> 8) & 0xFF) as u8;

    let mut lfsr1 = Lfsr {
        state: ((bit_reverse(k0) as u32) << 9) | (1u32 << 8) | (bit_reverse(k1) as u32),
        bit_size: 17,
        update: Feedback::Taps17,
    };
    proof {
        lemma_init_wf(k0, k1, 0, 0, 0);
    }
    let ghost a = cand_lfsr1(cand);
    lfsr1.step8();  // the register's single warm-up emission, discarded
    let x1 = lfsr1.step8();
    let x2 = lfsr1.step8();
    let x3 = lfsr1.step8();
    let x4 = lfsr1.step8();
    proof {
        let init = lfsr1_init(k0, k1);
        lemma_stepn_add(init, 8, 8);
        lemma_stepn_add(init, 16, 8);
        lemma_stepn_add(init, 24, 8);
        lemma_stepn_add(init, 32, 8);
        lemma_stepn_add(a, 8, 8);
        lemma_stepn_add(a, 16, 8);
        lemma_stepn_add(a, 24, 8);
        assert(stepn(a, 0) == a);
        assert(x1 == out8(stepn(a, 0)));
        assert(x2 == out8(stepn(a, 8)));
        assert(x3 == out8(stepn(a, 16)));
        assert(x4 == out8(stepn(a, 24)));
    }

    let (y1, c1) = double_overflowing_sub(stream[0], x1, 0);
    let (y2, c2) = double_overflowing_sub(stream[1], x2, if c1 { 1 } else { 0 });
    let (y3, c3) = double_overflowing_sub(stream[2], x3, if c2 { 1 } else { 0 });
    let (y4, c4) = double_overflowing_sub(stream[3], x4, if c3 { 1 } else { 0 });
    proof {
        assert((y1, c1) == recovered(stream@, cand, 0));
        assert((y2, c2) == recovered(stream@, cand, 1));
        assert((y3, c3) == recovered(stream@, cand, 2));
        assert((y4, c4) == recovered(stream@, cand, 3));
    }

    let state2: u32 = (bit_reverse(y1) as u32) | ((bit_reverse(y2) as u32) << 8) | ((
    bit_reverse(y3) as u32) << 16) | (((bit_reverse(y4) & 1) as u32) << 24);
    let mut lfsr2 = Lfsr { state: state2, bit_size: 25, update: Feedback::Taps25 };
    proof {
        assert(lfsr2 == cand_lfsr2(stream@, cand));
        lemma_cand_lfsr2_wf(stream@, cand);
    }
    let ghost b0 = cand_lfsr2(stream@, cand);
    // replay the four probe emissions to bring register B level with A
    lfsr2.step8();
    lfsr2.step8();
    lfsr2.step8();
    lfsr2.step8();
    proof {
        lemma_stepn_add(b0, 8, 8);
        lemma_stepn_add(b0, 16, 8);
        lemma_stepn_add(b0, 24, 8);
    }

    let css = Css { lfsr1, lfsr2, carry: c4 };
    proof {
        assert(css == cand_css(stream@, cand));
        lemma_stepn_shape(lfsr1_init((cand & 0xFF) as u8, ((cand >> 8) & 0xFF) as u8), 40);
        lemma_stepn_wf(a, 32);
        lemma_stepn_shape(a, 32);
        lemma_stepn_wf(b0, 32);
        lemma_stepn_shape(b0, 32);
    }
    if matches_from(css, stream, 4) {
        let pr: ([u8; 2], u32) = ([k0, k1], state2);
        proof {
            assert(pr.0@ =~= seq![(cand & 0xFF) as u8, ((cand >> 8) & 0xFF) as u8]);
        }
        Some(pr)
    } else {
        None
    }
}

/// The algebraic attack: enumerate all 65536 prefix candidates for key
/// bytes 0-1 (the top value included), reconstruct register B for each by
/// inverting the combining rule against the first four keystream bytes, and
/// accept the first candidate whose resumed cipher reproduces the rest of
/// the keystream. Returns the accepted prefix and the reconstructed 25-bit
/// register-B state, or nothing when every candidate is rejected.
pub fn algebraic_attack(stream: &Vec<u8>) -> (r: Option<([u8; 2], u32)>)
    requires
        stream@.len() >= 4,
    ensures
        match r {
            Some(pr) => exists|i: u16|
                #[trigger] cand_accepted(stream@, i) && (forall|j: u16|
                    j < i ==> !cand_accepted(stream@, j)) && pr.0@ == seq![
                    (i & 0xFF) as u8,
                    ((i >> 8) & 0xFF) as u8,
                ] && pr.1 == cand_lfsr2(stream@, i).state,
            None => forall|i: u16| !(#[trigger] cand_accepted(stream@, i)),
        },
{
    let mut i: u32 = 0;
    while i < 0x1_0000
        invariant
            i <= 0x1_0000,
            stream@.len() >= 4,
            forall|j: u16| (j as u32) < i ==> !(#[trigger] cand_accepted(stream@, j)),
        decreases 0x1_0000 - i,
    {
        let cand: u16 = i as u16;
        if let Some(pr) = try_candidate(stream, cand) {
            return Some(pr);
        }
        i = i + 1;
    }
    None
}

/// Register B's state as seeded from remainder candidate `i` (key bytes 2-4
/// are the little-endian bytes of `i`) and run through its two warm-up
/// emissions.
pub open spec fn residual_state(i: u32) -> u32 {
    stepn(lfsr2_init((i & 0xFF) as u8, ((i >> 8) & 0xFF) as u8, ((i >> 16) & 0xFF) as u8), 16).state
}

/// The residual brute force: enumerate all 2^24 values for key bytes 2-4,
/// replay register B's initialization and two-emission warm-up for each, and
/// return the first remainder whose resulting state equals the target.
/// Exhaustion without a match is a normal "not found" outcome.
#[verifier::rlimit(20)]
pub fn brute_force_lfsr2(target_state: u32) -> (r: Option<[u8; 3]>)
    ensures
        match r {
            Some(rem) => exists|i: u32|
                i < 0x100_0000 && #[trigger] residual_state(i) == target_state && (forall|j: u32|
                    j < i ==> residual_state(j) != target_state) && rem@ == seq![
                    (i & 0xFF) as u8,
                    ((i >> 8) & 0xFF) as u8,
                    ((i >> 16) & 0xFF) as u8,
                ],
            None => forall|i: u32| i < 0x100_0000 ==> #[trigger] residual_state(i) != target_state,
        },
{
    let mut i: u32 = 0;
    while i < 0x100_0000
        invariant
            i <= 0x100_0000,
            forall|j: u32| j < i ==> #[trigger] residual_state(j) != target_state,
        decreases 0x100_0000 - i,
    {
        proof {
            assert((i & 0xFF) < 256 && ((i >> 8) & 0xFF) < 256 && ((i >> 16) & 0xFF) < 256)
                by (bit_vector);
        }
        let b0: u8 = (i & 0xFF) as u8;
        let b1: u8 = ((i >> 8) & 0xFF) as u8;
        let b2: u8 = ((i >> 16) & 0xFF) as u8;

        let r0 = bit_reverse(b0);
        let r1 = bit_reverse(b1);
        let r2 = bit_reverse(b2);
        let mut lfsr2 = Lfsr {
            state: (((r0 & 0xE0) as u32) << 17) | (1u32 << 21) | (((r0 & 0x1F) as u32) << 16) | ((
            r1 as u32) << 8) | (r2 as u32),
            bit_size: 25,
            update: Feedback::Taps25,
        };
        proof {
            lemma_init_wf(0, 0, b0, b1, b2);
        }
        lfsr2.step8();
        lfsr2.step8();
        proof {
            lemma_stepn_add(lfsr2_init(b0, b1, b2), 8, 8);
        }

        if lfsr2.state == target_state {
            let rem: [u8; 3] = [b0, b1, b2];
            proof {
                assert(residual_state(i) == target_state);
                assert(rem@ =~= seq![
                    (i & 0xFF) as u8,
                    ((i >> 8) & 0xFF) as u8,
                    ((i >> 16) & 0xFF) as u8,
                ]);
            }
            return Some(rem);
        }
        i = i + 1;
    }
    None
}

proof fn lemma_low_bits_base(s: u32)
    by (bit_vector)
    requires
        s < 0x200_0000,
    ensures
        s & (((1u32 << 25u32) - 1) as u32) == s >> 0u32,
{
}

proof fn lemma_low_bits_step(cur: u32, nb: u32, s0: u32, k: u32)
    by (bit_vector)
    requires
        nb <= 1,
        k < 24,
        cur & (((1u32 << ((25 - k) as u32)) - 1) as u32) == s0 >> k,
    ensures
        ((cur >> 1) | (nb << 24u32)) & (((1u32 << ((24 - k) as u32)) - 1) as u32) == s0 >> ((k + 1) as u32),
{
}

/// While a bit first fed back at the top has not yet reached them, the low
/// bits of the 25-bit register are the original state shifted down.
proof fn lemma_low_bits_stepn(b: Lfsr, k: nat)
    requires
        lfsr_wf(b),
        b.update == Feedback::Taps25,
        k <= 24,
    ensures
        stepn(b, k).state & (((1u32 << ((25 - k) as u32)) - 1) as u32) == b.state >> (k as u32),
    decreases k,
{
    if k == 0 {
        lemma_low_bits_base(b.state);
    } else {
        lemma_low_bits_stepn(b, (k - 1) as nat);
        let cur = stepn(b, (k - 1) as nat);
        crate::lfsr::lemma_stepn_wf(b, (k - 1) as nat);
        lemma_stepn_shape(b, (k - 1) as nat);
        let nb = crate::lfsr::feedback_bit(Feedback::Taps25, cur.state);
        crate::lfsr::lemma_feedback_bit_le_1(Feedback::Taps25, cur.state);
        lemma_low_bits_step(cur.state, nb, b.state, (k - 1) as u32);
    }
}

proof fn lemma_mask_to_lsb(x: u32, v: u32, k: u32)
    by (bit_vector)
    requires
        k <= 24,
        x & (((1u32 << ((25 - k) as u32)) - 1) as u32) == v,
    ensures
        x & 1 == v & 1,
{
}

proof fn lemma_rev_accumulate(s: u32)
    by (bit_vector)
    ensures
        (s & 1) * 128 + ((s >> 1) & 1) * 64 + ((s >> 2) & 1) * 32 + ((s >> 3) & 1) * 16 + ((s >> 4)
            & 1) * 8 + ((s >> 5) & 1) * 4 + ((s >> 6) & 1) * 2 + ((s >> 7) & 1) == rev8(
            (s & 0xFF) as u8,
        ),
{
}

/// The byte a well-formed 25-bit register emits is its low byte, bit order
/// reversed.
proof fn lemma_out8_low_byte(l: Lfsr)
    requires
        lfsr_wf(l),
        l.update == Feedback::Taps25,
    ensures
        out8(l) == rev8((l.state & 0xFF) as u8),
{
    let s = l.state;
    assert forall|k: u32| k <= 7 implies #[trigger] (stepn(l, k as nat).state & 1) == (s >> k) & 1
        by {
        lemma_low_bits_stepn(l, k as nat);
        lemma_mask_to_lsb(stepn(l, k as nat).state, s >> k, k);
    }
    assert(s >> 0u32 == s) by (bit_vector);
    assert(stepn(l, 0).state & 1 == s & 1);
    lemma_rev_accumulate(s);
    crate::lfsr::lemma_out8_bound(l);
    reveal_with_fuel(crate::lfsr::out_bits, 10);
    assert(crate::lfsr::out_bits(l, 1) == s & 1);
    assert(crate::lfsr::out_bits(l, 2) == (s & 1) * 2 + ((s >> 1) & 1));
    assert(crate::lfsr::out_bits(l, 3) == (s & 1) * 4 + ((s >> 1) & 1) * 2 + ((s >> 2) & 1));
    assert(crate::lfsr::out_bits(l, 4) == (s & 1) * 8 + ((s >> 1) & 1) * 4 + ((s >> 2) & 1) * 2 + (
    (s >> 3) & 1));
    assert(crate::lfsr::out_bits(l, 5) == (s & 1) * 16 + ((s >> 1) & 1) * 8 + ((s >> 2) & 1) * 4 + (
    (s >> 3) & 1) * 2 + ((s >> 4) & 1));
    assert(crate::lfsr::out_bits(l, 6) == (s & 1) * 32 + ((s >> 1) & 1) * 16 + ((s >> 2) & 1) * 8 +
        ((s >> 3) & 1) * 4 + ((s >> 4) & 1) * 2 + ((s >> 5) & 1));
    assert(crate::lfsr::out_bits(l, 7) == (s & 1) * 64 + ((s >> 1) & 1) * 32 + ((s >> 2) & 1) * 16 +
        ((s >> 3) & 1) * 8 + ((s >> 4) & 1) * 4 + ((s >> 5) & 1) * 2 + ((s >> 6) & 1));
    assert(crate::lfsr::out_bits(l, 8) == (s & 1) * 128 + ((s >> 1) & 1) * 64 + ((s >> 2) & 1) * 32
        + ((s >> 3) & 1) * 16 + ((s >> 4) & 1) * 8 + ((s >> 5) & 1) * 4 + ((s >> 6) & 1) * 2 + ((s
        >> 7) & 1));
}

proof fn lemma_packed_byte0(a: u8, b: u8, c: u8, d: u8)
    by (bit_vector)
    ensures
        (((a as u32) | ((b as u32) << 8) | ((c as u32) << 16) | (((d & 1) as u32) << 24)) & 0xFF)
            as u8 == a,
{
}

proof fn lemma_packed_byte1(a: u8, b: u8, c: u8, d: u8, x: u32)
    by (bit_vector)
    requires
        x & (((1u32 << 17u32) - 1) as u32) == ((a as u32) | ((b as u32) << 8) | ((c as u32) << 16) | (((d
            & 1) as u32) << 24)) >> 8,
    ensures
        ((x & 0xFF) as u8) == b,
{
}

proof fn lemma_packed_byte2(a: u8, b: u8, c: u8, d: u8, x: u32)
    by (bit_vector)
    requires
        x & (((1u32 << 9u32) - 1) as u32) == ((a as u32) | ((b as u32) << 8) | ((c as u32) << 16) | (((d
            & 1) as u32) << 24)) >> 16,
    ensures
        ((x & 0xFF) as u8) == c,
{
}

proof fn lemma_rev8_involution(y: u8)
    by (bit_vector)
    ensures
        rev8(rev8(y)) == y,
{
}

/// Packing the recovered bytes is a direct inverse of emission: a register
/// built from `packed_state(y1, y2, y3, y4)` emits y1, y2 and y3 again.
/// This is the consistency of the algebraic reconstruction; it holds of
/// every byte quadruple, so a per-candidate run-time check would be
/// unreachable.
pub proof fn lemma_packed_state_replay(y1: u8, y2: u8, y3: u8, y4: u8)
    ensures
        ({
            let b = Lfsr {
                state: packed_state(y1, y2, y3, y4),
                bit_size: 25,
                update: Feedback::Taps25,
            };
            out8(b) == y1 && out8(stepn(b, 8)) == y2 && out8(stepn(b, 16)) == y3
        }),
{
    let b = Lfsr { state: packed_state(y1, y2, y3, y4), bit_size: 25, update: Feedback::Taps25 };
    lemma_packed_fits(rev8(y1), rev8(y2), rev8(y3), rev8(y4));
    crate::lfsr::lemma_stepn_wf(b, 8);
    crate::lfsr::lemma_stepn_wf(b, 16);
    lemma_stepn_shape(b, 8);
    lemma_stepn_shape(b, 16);

    lemma_out8_low_byte(b);
    lemma_packed_byte0(rev8(y1), rev8(y2), rev8(y3), rev8(y4));
    lemma_rev8_involution(y1);

    lemma_out8_low_byte(stepn(b, 8));
    lemma_low_bits_stepn(b, 8);
    lemma_packed_byte1(rev8(y1), rev8(y2), rev8(y3), rev8(y4), stepn(b, 8).state);
    lemma_rev8_involution(y2);

    lemma_out8_low_byte(stepn(b, 16));
    lemma_low_bits_stepn(b, 16);
    lemma_packed_byte2(rev8(y1), rev8(y2), rev8(y3), rev8(y4), stepn(b, 16).state);
    lemma_rev8_involution(y3);
}

proof fn lemma_shift_injective_25(s: u32, t: u32)
    by (bit_vector)
    requires
        s < 0x200_0000,
        t < 0x200_0000,
        ((s >> 1) | (((s ^ (s >> 3) ^ (s >> 4) ^ (s >> 12)) & 1) << 24u32)) == ((t >> 1) | (((t ^ (
        t >> 3) ^ (t >> 4) ^ (t >> 12)) & 1) << 24u32)),
    ensures
        s == t,
{
}

/// A 25-bit register's shift step loses no information: the shifted-out bit
/// reappears inside the feedback bit written at the top.
proof fn lemma_stepn_injective_25(l1: Lfsr, l2: Lfsr, n: nat)
    requires
        lfsr_wf(l1),
        lfsr_wf(l2),
        l1.update == Feedback::Taps25,
        l2.update == Feedback::Taps25,
        stepn(l1, n) == stepn(l2, n),
    ensures
        l1 == l2,
    decreases n,
{
    if n == 0 {
        assert(stepn(l1, 0) == l1);
        assert(stepn(l2, 0) == l2);
    } else {
        let a = stepn(l1, (n - 1) as nat);
        let b = stepn(l2, (n - 1) as nat);
        lemma_stepn_wf(l1, (n - 1) as nat);
        lemma_stepn_wf(l2, (n - 1) as nat);
        lemma_stepn_shape(l1, (n - 1) as nat);
        lemma_stepn_shape(l2, (n - 1) as nat);
        lemma_shift_injective_25(a.state, b.state);
        lemma_stepn_injective_25(l1, l2, (n - 1) as nat);
    }
}

/// Distinct remainder candidates never collide: the map from key bytes 2-4
/// through register B's initialization and two-emission warm-up to the
/// resulting state is injective, so the remainder the residual brute force
/// finds for a genuine target is the only one.
pub proof fn lemma_residual_state_injective(i: u32, j: u32)
    requires
        i < 0x100_0000,
        j < 0x100_0000,
        residual_state(i) == residual_state(j),
    ensures
        i == j,
{
    let (a, b, c) = ((i & 0xFF) as u8, ((i >> 8) & 0xFF) as u8, ((i >> 16) & 0xFF) as u8);
    let (x, y, z) = ((j & 0xFF) as u8, ((j >> 8) & 0xFF) as u8, ((j >> 16) & 0xFF) as u8);
    let l1 = lfsr2_init(a, b, c);
    let l2 = lfsr2_init(x, y, z);
    lemma_init_wf(0, 0, a, b, c);
    lemma_init_wf(0, 0, x, y, z);
    lemma_stepn_shape(l1, 16);
    lemma_stepn_shape(l2, 16);
    lemma_stepn_wf(l1, 16);
    lemma_stepn_wf(l2, 16);
    assert(stepn(l1, 16) == stepn(l2, 16));
    lemma_stepn_injective_25(l1, l2, 16);
    assert(rev8(a) == rev8(x) && rev8(b) == rev8(y) && rev8(c) == rev8(z)) by (bit_vector)
        requires
            ((((rev8(a) & 0xE0) as u32) << 17) | (1u32 << 21) | (((rev8(a) & 0x1F) as u32) << 16)
                | ((rev8(b) as u32) << 8) | (rev8(c) as u32)) == ((((rev8(x) & 0xE0) as u32) << 17)
                | (1u32 << 21) | (((rev8(x) & 0x1F) as u32) << 16) | ((rev8(y) as u32) << 8) | (
            rev8(z) as u32)),
    ;
    lemma_rev8_involution(a);
    lemma_rev8_involution(x);
    lemma_rev8_involution(b);
    lemma_rev8_involution(y);
    lemma_rev8_involution(c);
    lemma_rev8_involution(z);
    assert(i == (a as u32) | ((b as u32) << 8) | ((c as u32) << 16) && j == (x as u32) | ((
    y as u32) << 8) | ((z as u32) << 16)) by (bit_vector)
        requires
            i < 0x100_0000,
            j < 0x100_0000,
            a == (i & 0xFF) as u8 && b == ((i >> 8) & 0xFF) as u8 && c == ((i >> 16) & 0xFF) as u8,
            x == (j & 0xFF) as u8 && y == ((j >> 8) & 0xFF) as u8 && z == ((j >> 16) & 0xFF) as u8,
    ;
}

/// The prefix candidate index that corresponds to key bytes 0-1.
pub open spec fn prefix_index(key: Seq<u8>) -> u16
    recommends
        key.len() == 5,
{
    (key[0] as u16) | ((key[1] as u16) << 8)
}

/// The remainder candidate index that corresponds to key bytes 2-4.
pub open spec fn residual_index(key: Seq<u8>) -> u32
    recommends
        key.len() == 5,
{
    (key[2] as u32) | ((key[3] as u32) << 8) | ((key[4] as u32) << 16)
}

/// Probe position `j` of a run from state `c` meets the one ambiguous
/// carry case: the two register bytes sum to exactly 255 while a carry
/// comes in. There the inverted borrow chain and the cipher's carry chain
/// part ways.
pub open spec fn probe_edge(c: Css, j: nat) -> bool {
    out8(css_stepn(c, j).lfsr1) + out8(css_stepn(c, j).lfsr2) == 255 && css_stepn(c, j).carry
}

proof fn lemma_prefix_bytes(i: u16, k0: u8, k1: u8)
    by (bit_vector)
    requires
        i == (k0 as u16) | ((k1 as u16) << 8),
    ensures
        (i & 0xFF) as u8 == k0,
        ((i >> 8) & 0xFF) as u8 == k1,
{
}

proof fn lemma_residual_bytes(i: u32, k2: u8, k3: u8, k4: u8)
    by (bit_vector)
    requires
        i == (k2 as u32) | ((k3 as u32) << 8) | ((k4 as u32) << 16),
    ensures
        (i & 0xFF) as u8 == k2,
        ((i >> 8) & 0xFF) as u8 == k3,
        ((i >> 16) & 0xFF) as u8 == k4,
{
}

/// One probe position of the true candidate: when the incoming borrow
/// equals the cipher's incoming carry and the position is not the ambiguous
/// carry case, inversion returns register B's true byte and the cipher's
/// next carry.
proof fn lemma_probe_step(ks: Seq<u8>, i: u16, c0: Css, j: nat)
    requires
        j < 4,
        ks.len() >= 4,
        ks[j as int] == css_out(css_stepn(c0, j)),
        cand_lfsr1(i) == c0.lfsr1,
        if j == 0 {
            !c0.carry
        } else {
            recovered(ks, i, (j - 1) as nat).1 == css_stepn(c0, j).carry
        },
        !probe_edge(c0, j),
    ensures
        recovered(ks, i, j).0 == out8(css_stepn(c0, j).lfsr2),
        recovered(ks, i, j).1 == css_stepn(c0, j + 1).carry,
{
    let s = css_stepn(c0, j);
    let x = out8(s.lfsr1);
    let y = out8(s.lfsr2);
    let cv = carry_val(s.carry);
    lemma_css_stepn_registers(c0, j);
    lemma_sub_borrow_round_trip(x, y, cv);
    assert(css_stepn(c0, j + 1) == css_next(s));
    assert(recovered(ks, i, j) == sub_borrow(ks[j as int], x, cv));
}

/// The algebraic core of full key recovery: against a keystream genuinely
/// produced from `key`, the candidate formed from key bytes 0-1 reconstructs
/// exactly the state register B holds after its warm-up — the same state the
/// residual index reproduces — and is accepted. The one proviso: none of
/// the four probe positions meets the ambiguous carry case (`probe_edge`),
/// where the inverted borrow chain departs from the cipher's carry chain.
#[verifier::rlimit(40)]
pub proof fn lemma_true_candidate_accepted(key: Seq<u8>, n: nat)
    requires
        key.len() == 5,
        n >= 4,
        forall|j: nat| j < 4 ==> !(#[trigger] probe_edge(css_init(key), j)),
    ensures
        ({
            let c0 = css_init(key);
            let ks = keystream(c0, n);
            let i = prefix_index(key);
            cand_lfsr2(ks, i) == c0.lfsr2 && cand_lfsr2(ks, i).state == residual_state(
                residual_index(key),
            ) && cand_accepted(ks, i)
        }),
{
    let c0 = css_init(key);
    let ks = keystream(c0, n);
    let i = prefix_index(key);
    lemma_css_init_wf(key);
    lemma_keystream_len(c0, n);

    // the candidate's register A is the true one
    lemma_prefix_bytes(i, key[0], key[1]);
    assert(cand_lfsr1(i) == c0.lfsr1);

    // the four probe positions recover register B's true bytes
    lemma_keystream_index(c0, n, 0);
    lemma_keystream_index(c0, n, 1);
    lemma_keystream_index(c0, n, 2);
    lemma_keystream_index(c0, n, 3);
    assert(!probe_edge(c0, 0) && !probe_edge(c0, 1) && !probe_edge(c0, 2) && !probe_edge(c0, 3));
    lemma_probe_step(ks, i, c0, 0);
    lemma_probe_step(ks, i, c0, 1);
    lemma_probe_step(ks, i, c0, 2);
    lemma_probe_step(ks, i, c0, 3);
    let b0 = c0.lfsr2;
    lemma_css_stepn_registers(c0, 0);
    lemma_css_stepn_registers(c0, 1);
    lemma_css_stepn_registers(c0, 2);
    lemma_css_stepn_registers(c0, 3);
    lemma_css_stepn_registers(c0, 4);
    let y1 = recovered(ks, i, 0).0;
    let y2 = recovered(ks, i, 1).0;
    let y3 = recovered(ks, i, 2).0;
    let y4 = recovered(ks, i, 3).0;
    assert(y1 == out8(stepn(b0, 0)));
    assert(y2 == out8(stepn(b0, 8)));
    assert(y3 == out8(stepn(b0, 16)));
    assert(y4 == out8(stepn(b0, 24)));

    // packing those bytes back re-creates register B's state bit for bit
    lemma_stepn_wf(b0, 0);
    lemma_stepn_wf(b0, 8);
    lemma_stepn_wf(b0, 16);
    lemma_stepn_wf(b0, 24);
    lemma_stepn_shape(b0, 0);
    lemma_stepn_shape(b0, 8);
    lemma_stepn_shape(b0, 16);
    lemma_stepn_shape(b0, 24);
    lemma_out8_low_byte(stepn(b0, 0));
    lemma_out8_low_byte(stepn(b0, 8));
    lemma_out8_low_byte(stepn(b0, 16));
    lemma_out8_low_byte(stepn(b0, 24));
    lemma_low_bits_stepn(b0, 8);
    lemma_low_bits_stepn(b0, 16);
    lemma_low_bits_stepn(b0, 24);
    let t8 = stepn(b0, 8).state;
    let t16 = stepn(b0, 16).state;
    let t24 = stepn(b0, 24).state;
    lemma_rev8_involution((stepn(b0, 0).state & 0xFF) as u8);
    lemma_rev8_involution((t8 & 0xFF) as u8);
    lemma_rev8_involution((t16 & 0xFF) as u8);
    lemma_rev8_involution((t24 & 0xFF) as u8);
    assert(stepn(b0, 0) == b0);
    let s = b0.state;
    assert(((rev8(y1) as u32) | ((rev8(y2) as u32) << 8) | ((rev8(y3) as u32) << 16) | (((rev8(y4)
        & 1) as u32) << 24)) == s) by (bit_vector)
        requires
            s < 0x200_0000,
            rev8(y1) == (s & 0xFF) as u8,
            rev8(y2) == (t8 & 0xFF) as u8,
            rev8(y3) == (t16 & 0xFF) as u8,
            rev8(y4) == (t24 & 0xFF) as u8,
            t8 & (((1u32 << 17u32) - 1) as u32) == s >> 8,
            t16 & (((1u32 << 9u32) - 1) as u32) == s >> 16,
            t24 & (((1u32 << 1u32) - 1) as u32) == s >> 24,
    ;
    assert(cand_lfsr2(ks, i) == b0);

    // the same state is what the residual index reproduces
    lemma_residual_bytes(residual_index(key), key[2], key[3], key[4]);
    assert(residual_state(residual_index(key)) == s);

    // the resumed cipher is the true cipher four bytes in, so it matches
    assert(cand_css(ks, i) == css_stepn(c0, 4));
    lemma_keystream_skip(c0, n, 4);
    assert(cand_accepted(ks, i));
}

/// The 5-byte key with little-endian index `i` in the 40-bit key space.
pub open spec fn key_of(i: u64) -> Seq<u8> {
    seq![
        (i & 0xFF) as u8,
        ((i >> 8) & 0xFF) as u8,
        ((i >> 16) & 0xFF) as u8,
        ((i >> 24) & 0xFF) as u8,
        ((i >> 32) & 0xFF) as u8,
    ]
}

/// Key `key` generates exactly the keystream `ks`.
pub open spec fn key_matches(key: Seq<u8>, ks: Seq<u8>) -> bool
    recommends
        key.len() == 5,
{
    keystream(css_init(key), ks.len()) == ks
}

/// The lowest index in `[lo, hi)` whose key generates `ks`, scanning
/// upwards.
pub open spec fn first_match_in(ks: Seq<u8>, lo: u64, hi: u64) -> Option<u64>
    decreases hi - lo,
{
    if lo >= hi {
        None
    } else if key_matches(key_of(lo), ks) {
        Some(lo)
    } else {
        first_match_in(ks, (lo + 1) as u64, hi)
    }
}

/// `r` reports exactly the scan outcome `fm`: present if and only if a
/// match was found, and then carrying that index's key bytes.
pub open spec fn result_of(r: Option<[u8; 5]>, fm: Option<u64>) -> bool {
    match (r, fm) {
        (Some(k), Some(i)) => k@ == key_of(i),
        (None, None) => true,
        _ => false,
    }
}

proof fn lemma_key_byte_masks(i: u64)
    by (bit_vector)
    ensures
        (i & 0xFF) < 256,
        ((i >> 8) & 0xFF) < 256,
        ((i >> 16) & 0xFF) < 256,
        ((i >> 24) & 0xFF) < 256,
        ((i >> 32) & 0xFF) < 256,
{
}

/// The five little-endian key bytes of a 40-bit key index.
pub fn key_bytes_of(i: u64) -> (r: [u8; 5])
    ensures
        r@ == key_of(i),
{
    proof {
        lemma_key_byte_masks(i);
    }
    let r: [u8; 5] = [
        (i & 0xFF) as u8,
        ((i >> 8) & 0xFF) as u8,
        ((i >> 16) & 0xFF) as u8,
        ((i >> 24) & 0xFF) as u8,
        ((i >> 32) & 0xFF) as u8,
    ];
    proof {
        assert(r@ =~= key_of(i));
    }
    r
}

/// Scan the key indices in `[lo, hi)` upwards and return the key of the
/// first index that generates `stream`, or nothing when none does. One such
/// range is one worker's share of the exhaustive baseline attack.
pub fn brute_force_range(stream: &Vec<u8>, lo: u64, hi: u64) -> (r: Option<[u8; 5]>)
    requires
        lo <= hi,
    ensures
        result_of(r, first_match_in(stream@, lo, hi)),
{
    let mut i: u64 = lo;
    while i < hi
        invariant
            lo <= i <= hi,
            first_match_in(stream@, lo, hi) == first_match_in(stream@, i, hi),
        decreases hi - i,
    {
        let key = key_bytes_of(i);
        let css = Css::new(key);
        if matches_from(css, stream, 0) {
            proof {
                assert(stream@.skip(0) =~= stream@);
                assert(key_matches(key_of(i), stream@));
            }
            return Some(key);
        }
        proof {
            assert(stream@.skip(0) =~= stream@);
            assert(!key_matches(key_of(i), stream@));
        }
        i = i + 1;
    }
    None
}

/// The exhaustive baseline attack, single-threaded: scan the whole 40-bit
/// key space upwards and return the first key that generates `stream`. Kept
/// as a correctness reference; not performance-viable standalone.
pub fn brute_force_attack(stream: &Vec<u8>) -> (r: Option<[u8; 5]>)
    ensures
        result_of(r, first_match_in(stream@, 0, 0x100_0000_0000)),
{
    brute_force_range(stream, 0, 0x100_0000_0000)
}

/// The first present entry, in order, of a sequence of per-range results.
pub open spec fn first_present(rs: Seq<Option<[u8; 5]>>) -> Option<[u8; 5]>
    decreases rs.len(),
{
    if rs.len() == 0 {
        None
    } else if rs[0] is Some {
        rs[0]
    } else {
        first_present(rs.skip(1))
    }
}

/// Select the first present entry of the per-range results, in range order:
/// the collection step of the concurrent baseline, whose workers each return
/// their own range's outcome.
pub fn select_first(results: &Vec<Option<[u8; 5]>>) -> (r: Option<[u8; 5]>)
    ensures
        r == first_present(results@),
{
    let n = results.len();
    let mut t: usize = 0;
    proof {
        assert(results@.skip(0) =~= results@);
    }
    while t < n
        invariant
            t <= n,
            n == results@.len(),
            first_present(results@) == first_present(results@.skip(t as int)),
        decreases n - t,
    {
        proof {
            assert(results@.skip(t as int).len() == n - t);
            assert(results@.skip(t as int)[0] == results@[t as int]);
            assert(results@.skip(t as int).skip(1) =~= results@.skip(t + 1));
        }
        if results[t].is_some() {
            return results[t];
        }
        t = t + 1;
    }
    proof {
        assert(results@.skip(n as int).len() == 0);
    }
    None
}

/// Scanning `[lo, hi)` is scanning `[lo, mid)` and, when that finds
/// nothing, `[mid, hi)`.
pub proof fn lemma_first_match_split(ks: Seq<u8>, lo: u64, mid: u64, hi: u64)
    requires
        lo <= mid <= hi,
    ensures
        first_match_in(ks, lo, hi) == match first_match_in(ks, lo, mid) {
            Some(i) => Some(i),
            None => first_match_in(ks, mid, hi),
        },
    decreases mid - lo,
{
    if lo < mid && !key_matches(key_of(lo), ks) {
        lemma_first_match_split(ks, (lo + 1) as u64, mid, hi);
    }
}

/// The concurrent baseline agrees with the single-threaded one: when the
/// ranges `[bounds[t], bounds[t + 1])` tile `[bounds[0], bounds[last])` in
/// order and each entry of `rs` reports its range's scan, the first present
/// entry reports the scan of the whole interval.
pub proof fn lemma_sharded_attack_agrees(ks: Seq<u8>, bounds: Seq<u64>, rs: Seq<Option<[u8; 5]>>)
    requires
        bounds.len() == rs.len() + 1,
        rs.len() >= 1,
        forall|t: int| 0 <= t < rs.len() ==> #[trigger] bounds[t] <= bounds[t + 1],
        forall|t: int|
            0 <= t < rs.len() ==> #[trigger] result_of(
                rs[t],
                first_match_in(ks, bounds[t], bounds[t + 1]),
            ),
    ensures
        result_of(first_present(rs), first_match_in(ks, bounds[0], bounds[rs.len() as int])),
    decreases rs.len(),
{
    assert(result_of(rs[0], first_match_in(ks, bounds[0], bounds[1])));
    if rs.len() == 1 {
        assert(rs.skip(1).len() == 0);
        assert(first_present(rs.skip(1)) == None::<[u8; 5]>);
        assert(first_present(rs) == rs[0]);
    } else {
        let bs = bounds.skip(1);
        let rt = rs.skip(1);
        assert forall|t: int| 0 <= t < rt.len() implies #[trigger] bs[t] <= bs[t + 1] by {
            assert(bounds[t + 1] <= bounds[t + 2]);
        }
        assert forall|t: int| 0 <= t < rt.len() implies #[trigger] result_of(
            rt[t],
            first_match_in(ks, bs[t], bs[t + 1]),
        ) by {
            assert(result_of(rs[t + 1], first_match_in(ks, bounds[t + 1], bounds[t + 2])));
        }
        lemma_sharded_attack_agrees(ks, bs, rt);
        lemma_bounds_sorted(bounds, 1, rs.len() as int);
        lemma_first_match_split(ks, bounds[0], bounds[1], bounds[rs.len() as int]);
        match rs[0] {
            Some(k) => {
                assert(first_present(rs) == rs[0]);
            },
            None => {
                assert(first_present(rs) == first_present(rt));
            },
        }
    }
}

/// In an adjacently ordered sequence of bounds, any earlier bound is at most
/// any later one.
proof fn lemma_bounds_sorted(bounds: Seq<u64>, i: int, j: int)
    requires
        0 <= i <= j < bounds.len(),
        forall|t: int| 0 <= t < bounds.len() - 1 ==> #[trigger] bounds[t] <= bounds[t + 1],
    ensures
        bounds[i] <= bounds[j],
    decreases j - i,
{
    if i < j {
        lemma_bounds_sorted(bounds, i + 1, j);
    }
}

} // verus!
