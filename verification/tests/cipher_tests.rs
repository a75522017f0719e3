use css_attack::cipher::Css;
use css_attack::cipher::bit_reverse;
use css_attack::lfsr::Feedback;
use css_attack::lfsr::Lfsr;
use css_attack::lfsr::feedback_eval;

#[test]
fn bit_reverse_examples() {
    assert_eq!(bit_reverse(0x00), 0x00);
    assert_eq!(bit_reverse(0xFF), 0xFF);
    assert_eq!(bit_reverse(0x01), 0x80);
    assert_eq!(bit_reverse(0xDE), 0x7B);
    assert_eq!(bit_reverse(0xAD), 0xB5);
    assert_eq!(bit_reverse(bit_reverse(0x5C)), 0x5C);
}

#[test]
fn feedback_rules_yield_bits() {
    for s in [0u32, 1, 0x1FFFF, 0x1ABCD, 0x1FFFFFF, 0x133A4FD] {
        assert!(feedback_eval(Feedback::Taps17, s) <= 1);
        assert!(feedback_eval(Feedback::Taps25, s) <= 1);
    }
    assert_eq!(feedback_eval(Feedback::Taps17, 1), 1);
    assert_eq!(feedback_eval(Feedback::Taps17, 1 << 14), 1);
    assert_eq!(feedback_eval(Feedback::Taps17, (1 << 14) | 1), 0);
    assert_eq!(feedback_eval(Feedback::Taps25, 1 << 3), 1);
    assert_eq!(feedback_eval(Feedback::Taps25, (1 << 3) | (1 << 4)), 0);
}

#[test]
fn emit_byte_known_register() {
    // Register A as seeded from key bytes 0xDE, 0xAD.
    let mut a = Lfsr { state: 0xF7B5, bit_size: 17, update: Feedback::Taps17 };
    let b = a.step8();
    assert_eq!(b, 0xAD);
    assert_eq!(a.state, 0x10CF7);
}

#[test]
fn emit_byte_deterministic() {
    let mut a = Lfsr { state: 0x1ABCD, bit_size: 17, update: Feedback::Taps17 };
    let mut b = a.clone();
    assert_eq!(a.step8(), b.step8());
    assert_eq!(a.state, b.state);

    let mut c = Lfsr { state: 0x133A4FD, bit_size: 25, update: Feedback::Taps25 };
    let mut d = c.clone();
    assert_eq!(c.step8(), d.step8());
    assert_eq!(c.state, d.state);
    assert_eq!(c.bit_size, d.bit_size);
}

#[test]
fn fixed_key_regression_vector() {
    let mut css = Css::new([0xDE, 0xAD, 0xBE, 0x04, 0x00]);
    let ks = css.produce(8);
    assert_eq!(ks, vec![0xAE, 0x56, 0xB6, 0x35, 0xC3, 0x3A, 0xB1, 0x04]);
}

#[test]
fn produce_is_stateful_and_contiguous() {
    let mut css = Css::new([0xDE, 0xAD, 0xBE, 0x04, 0x00]);
    let first = css.produce(4);
    let second = css.produce(4);
    assert_eq!(first, vec![0xAE, 0x56, 0xB6, 0x35]);
    assert_eq!(second, vec![0xC3, 0x3A, 0xB1, 0x04]);
}

#[test]
fn step_matches_produce() {
    let mut a = Css::new([0x12, 0x34, 0x56, 0x78, 0x9A]);
    let mut b = Css::new([0x12, 0x34, 0x56, 0x78, 0x9A]);
    let bytes = a.produce(16);
    for i in 0..16 {
        assert_eq!(b.step(), bytes[i]);
    }
}
