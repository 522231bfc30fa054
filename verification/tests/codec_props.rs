use alac::lpc::sign_extend;
use alac::rice::zigzag_decode;

#[test]
fn sign_extend_keeps_values_that_fit() {
    assert_eq!(sign_extend(5, 4), 5);
    assert_eq!(sign_extend(-8, 4), -8);
    assert_eq!(sign_extend(7, 4), 7);
    assert_eq!(sign_extend(0, 1), 0);
    assert_eq!(sign_extend(32767, 16), 32767);
    assert_eq!(sign_extend(-32768, 16), -32768);
}

#[test]
fn sign_extend_extends_the_top_bit() {
    assert_eq!(sign_extend(8, 4), -8);
    assert_eq!(sign_extend(15, 4), -1);
    assert_eq!(sign_extend(0xFFFF, 16), -1);
    assert_eq!(sign_extend(0x8000, 16), -32768);
    assert_eq!(sign_extend(0x1_0005, 16), 5);
}

#[test]
fn sign_extend_with_32_bits_is_the_identity() {
    assert_eq!(sign_extend(i32::MIN, 32), i32::MIN);
    assert_eq!(sign_extend(i32::MAX, 32), i32::MAX);
    assert_eq!(sign_extend(-1, 32), -1);
    assert_eq!(sign_extend(12345, 32), 12345);
}

#[test]
fn zigzag_maps_alternating_signs() {
    assert_eq!(zigzag_decode(0), 0);
    assert_eq!(zigzag_decode(1), -1);
    assert_eq!(zigzag_decode(2), 1);
    assert_eq!(zigzag_decode(3), -2);
    assert_eq!(zigzag_decode(4), 2);
    assert_eq!(zigzag_decode(u32::MAX), i32::MIN);
    assert_eq!(zigzag_decode(u32::MAX - 1), i32::MAX);
}

#[test]
fn zigzag_is_a_bijection_on_sampled_values() {
    // The encoding side of the mapping, for the round trip.
    fn zigzag_encode(x: i32) -> u32 {
        if x >= 0 {
            (x as u32) * 2
        } else {
            (-((x + 1) as i64) as u32) * 2 + 1
        }
    }
    let samples: Vec<i32> = vec![0, 1, -1, 2, -2, 12345, -12345, i32::MAX, i32::MIN];
    for &x in &samples {
        assert_eq!(zigzag_decode(zigzag_encode(x)), x);
    }
    let codes: Vec<u32> = vec![0, 1, 2, 3, 1000, 1001, u32::MAX - 1, u32::MAX];
    for &v in &codes {
        assert_eq!(zigzag_encode(zigzag_decode(v)), v);
    }
}
