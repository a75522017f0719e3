use css_attack::attack::algebraic_attack;
use css_attack::attack::brute_force_attack;
use css_attack::attack::brute_force_lfsr2;
use css_attack::attack::brute_force_range;
use css_attack::attack::double_overflowing_sub;
use css_attack::attack::select_first;
use css_attack::cipher::Css;

fn keystream_of(key: [u8; 5], n: usize) -> Vec<u8> {
    let mut css = Css::new(key);
    css.produce(n)
}

#[test]
fn sub_borrow_examples() {
    assert_eq!(double_overflowing_sub(10, 3, 1), (6, false));
    assert_eq!(double_overflowing_sub(3, 10, 0), (249, true));
    assert_eq!(double_overflowing_sub(5, 5, 0), (0, false));
    assert_eq!(double_overflowing_sub(5, 5, 1), (255, true));
    assert_eq!(double_overflowing_sub(0, 255, 1), (0, true));
}

#[test]
fn sub_borrow_inverts_forward_addition() {
    // o = (x + y + c) mod 256; subtracting x and c from o recovers y, and
    // the borrow reports whether x + y + c reached 256.
    for (x, y, c) in [(100u8, 50u8, 0u8), (200, 55, 1), (200, 56, 0), (0, 0, 1), (255, 255, 1)] {
        let o = (x as u16 + y as u16 + c as u16) as u8;
        let (y_rec, borrow) = double_overflowing_sub(o, x, c);
        assert_eq!(y_rec, y);
        assert_eq!(borrow, (x as u16) + (y as u16) + (c as u16) >= 256);
    }
}

#[test]
fn full_recovery_round_trip() {
    let key = [0xDE, 0xAD, 0xBE, 0x04, 0x00];
    let ks = keystream_of(key, 64);
    let (prefix, state) = algebraic_attack(&ks).expect("algebraic stage should succeed");
    assert_eq!(prefix, [0xDE, 0xAD]);
    assert_eq!(state, 0x33A4FD);
    let rem = brute_force_lfsr2(state).expect("residual stage should succeed");
    assert_eq!(rem, [0xBE, 0x04, 0x00]);
    let recovered = [prefix[0], prefix[1], rem[0], rem[1], rem[2]];
    assert_eq!(recovered, key);
}

#[test]
fn top_prefix_candidate_is_enumerated() {
    // The enumeration must include the prefix value 0xFFFF itself.
    let key = [0xFF, 0xFF, 0x01, 0x00, 0x00];
    let ks = keystream_of(key, 64);
    let (prefix, state) = algebraic_attack(&ks).expect("top candidate must be tried");
    assert_eq!(prefix, [0xFF, 0xFF]);
    assert_eq!(state, 0x240120);
    let rem = brute_force_lfsr2(state).expect("residual stage should succeed");
    assert_eq!(rem, [0x01, 0x00, 0x00]);
}

#[test]
fn residual_recovery_across_sampled_keys() {
    for rem in [[0xBE, 0x04, 0x00], [0x01, 0x00, 0x00], [0x00, 0x00, 0x00], [0xFF, 0x01, 0x00]] {
        let key = [0x12, 0x34, rem[0], rem[1], rem[2]];
        let ks = keystream_of(key, 64);
        let (prefix, state) = algebraic_attack(&ks).expect("algebraic stage should succeed");
        assert_eq!(prefix, [0x12, 0x34]);
        let found = brute_force_lfsr2(state).expect("residual stage should succeed");
        assert_eq!(found, rem);
    }
}

#[test]
fn algebraic_attack_rejects_foreign_stream() {
    let flat = vec![0x42u8; 64];
    assert_eq!(algebraic_attack(&flat), None);
    let ramp: Vec<u8> = (0..64u32).map(|i| ((i * 37 + 11) & 0xFF) as u8).collect();
    assert_eq!(algebraic_attack(&ramp), None);
}

#[test]
fn ambiguous_carry_key_defeats_algebraic_stage() {
    // Within this key's first four keystream bytes the two register bytes
    // sum to exactly 255 under an incoming carry, so the inverted borrow
    // chain departs from the cipher's carry chain and every candidate —
    // the true one included — is rejected. The scan exhausts normally.
    let key = [0xC2, 0x3B, 0x9B, 0x30, 0xD9];
    let ks = keystream_of(key, 64);
    assert_eq!(algebraic_attack(&ks), None);
}

#[test]
fn baseline_brute_force_finds_low_key() {
    let key = [0x03, 0x00, 0x00, 0x00, 0x00];
    let ks = keystream_of(key, 16);
    assert_eq!(brute_force_attack(&ks), Some(key));
}

#[test]
fn baseline_and_sharded_scan_agree() {
    let key = [0x03, 0x00, 0x00, 0x00, 0x00];
    let ks = keystream_of(key, 16);
    let single = brute_force_attack(&ks);
    let shard_a = brute_force_range(&ks, 0, 2);
    let shard_b = brute_force_range(&ks, 2, 0x100_0000_0000);
    assert_eq!(shard_a, None);
    let results = vec![shard_a, shard_b];
    assert_eq!(select_first(&results), single);
    assert_eq!(single, Some(key));
}

#[test]
fn empty_range_finds_nothing() {
    let ks = keystream_of([0x03, 0x00, 0x00, 0x00, 0x00], 16);
    assert_eq!(brute_force_range(&ks, 5, 5), None);
    assert_eq!(select_first(&vec![None, None, None]), None);
}
