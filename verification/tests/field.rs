use starkom::cell::Cell;
use starkom::field::{
    from_const, is_zero, less, multiplicative_generator, one, zero, Field, Scalar, GL,
};
use starkom::utils::{
    encode_cell, encode_usize, hash_to_scalar, isize_to_scalar, make_dst, next_power_of_two,
    padded_circuit_size, rotation_set, scalar_to_isize, RangeError,
};

fn hex(text: &str) -> Scalar {
    Scalar::from_str_radix(text, 16).unwrap()
}

#[test]
fn test_scalar_addition_wraps_around() {
    let largest = -from_const(1);
    assert_eq!(largest + from_const(3), from_const(2));
    assert_eq!(from_const(2) - from_const(3), largest);
    assert_eq!(from_const(40) + from_const(2), from_const(42));
}

#[test]
fn test_scalar_multiplication() {
    assert_eq!(from_const(6) * from_const(7), from_const(42));
    assert_eq!(-from_const(1) * -from_const(1), from_const(1));
}

#[test]
fn test_scalar_inverse() {
    let inverse = from_const(7).invert().unwrap();
    assert!(inverse != from_const(7));
    assert_eq!(inverse * from_const(7), from_const(1));
    assert!(from_const(0).invert().is_none());
}

#[test]
fn test_scalar_power() {
    assert_eq!(from_const(3).pow(0), from_const(1));
    assert_eq!(from_const(3).pow(5), from_const(243));
}

#[test]
fn test_scalar_decimal_notation() {
    assert_eq!(from_const(0).to_decimal(), "0");
    assert_eq!(from_const(1234567890123).to_decimal(), "1234567890123");
}

#[test]
fn test_scalar_from_digits() {
    assert_eq!(Scalar::from_str_radix("ff", 16), Some(from_const(255)));
    assert_eq!(Scalar::from_str_radix("101", 2), Some(from_const(5)));
    assert_eq!(Scalar::from_str_radix("12", 2), None);
}

#[test]
fn test_scalar_limbs() {
    let limbs = [1, 2, 3, 4];
    assert_eq!(Scalar::from_limbs(limbs).unwrap().to_limbs(), limbs);
    assert!(Scalar::from_limbs([u64::MAX; 4]).is_none());
    assert!(less(from_const(3), from_const(4)));
    assert!(!less(from_const(4), from_const(4)));
    assert!(is_zero(zero::<Scalar>()));
    assert_eq!(one::<Scalar>(), from_const(1));
}

#[test]
fn test_scalar_random() {
    assert!(Scalar::random() != Scalar::random());
}

#[test]
fn test_multiplicative_generator() {
    assert_eq!(multiplicative_generator(), from_const(5));
}

#[test]
fn test_goldilocks() {
    let p: u64 = 0xffffffff00000001;
    assert_eq!(GL::from_u64(p), GL::from_u64(0));
    assert_eq!(GL::from_u64(5).minus(GL::from_u64(7)), GL::from_u64(p - 2));
    assert_eq!(
        GL::from_u64(1 << 40).times(GL::from_u64(1 << 40)),
        GL::from_u64(((1u128 << 80) % (p as u128)) as u64)
    );
    let inverse = GL::from_u64(12).invert().unwrap();
    assert!(inverse != GL::from_u64(12));
    assert_eq!(inverse.times(GL::from_u64(12)), GL::from_u64(1));
    assert!(GL::from_u64(0).invert().is_none());
    assert_eq!(GL::from_u64(3).pow(4), GL::from_u64(81));
    assert_eq!(GL::from_u64(98).negated().to_decimal(), (p - 98).to_string());
}

#[test]
fn test_hash_to_scalar() {
    assert_eq!(
        hash_to_scalar(b"lorem ipsum dolor sit amet"),
        hex("69c562c4b39c86fc322322c86cfe5be83fbd472c6a38862bdd2f362bfa442ad6")
    );
    assert_eq!(
        hash_to_scalar(b"sator arepo tenet opera rotas"),
        hex("027880d47636bf77d55804a6cf2d5ec8f09427cdf678e2ed3d74c432cc2efa7a")
    );
}

#[test]
fn test_make_dst() {
    let digest = make_dst(b"abc");
    assert_eq!(
        digest[..8],
        [0x3a, 0x98, 0x5d, 0xa7, 0x4f, 0xe2, 0x25, 0xb2]
    );
    assert_eq!(
        digest[24..],
        [0x46, 0xbf, 0xe2, 0x45, 0x11, 0x43, 0x15, 0x32]
    );
}

#[test]
fn test_encode_usize() {
    let bytes = encode_usize(0x010203);
    assert_eq!(bytes[..29], [0; 29]);
    assert_eq!(bytes[29..], [1, 2, 3]);
}

#[test]
fn test_encode_cell() {
    let bytes = encode_cell(Cell::new(0x0405, 6));
    assert_eq!(bytes[14..16], [4, 5]);
    assert_eq!(bytes[31], 6);
    assert_eq!(bytes.iter().map(|&byte| byte as u32).sum::<u32>(), 15);
}

#[test]
fn test_isize_round_trip() {
    for value in [0, 1, -1, 42, -42, isize::MAX, isize::MIN] {
        let element: Scalar = isize_to_scalar(value);
        assert_eq!(scalar_to_isize(element), Ok(value));
    }
}

#[test]
fn test_isize_range() {
    let two = from_const(2);
    assert_eq!(
        scalar_to_isize(two.pow(63)),
        Err(RangeError::TooLarge { value: "9223372036854775808".to_string() })
    );
    assert_eq!(scalar_to_isize(-two.pow(63)), Ok(isize::MIN));
    assert_eq!(
        scalar_to_isize(-two.pow(64)),
        Err(RangeError::TooSmall { value: (-two.pow(64)).to_string() })
    );
}

#[test]
fn test_padded_sizes() {
    assert_eq!(next_power_of_two(0), 1);
    assert_eq!(next_power_of_two(5), 8);
    assert_eq!(next_power_of_two(8), 8);
    assert_eq!(rotation_set(&vec![3, -1, 3]), vec![-1, 0, 1, 3]);
    assert_eq!(padded_circuit_size::<Scalar>(3, &vec![0]), (8, 3));
    assert_eq!(padded_circuit_size::<Scalar>(3, &vec![-2, -1, 2]), (16, 6));
    assert_eq!(padded_circuit_size::<GL>(3, &vec![]), (16, 12));
}

#[test]
fn test_scalar_text() {
    let zeros = |n: usize| "0".repeat(n);
    assert_eq!(from_const(0).to_string(), "0x".to_string() + &zeros(64));
    assert_eq!(
        from_const(0xbeef).to_string(),
        "0x".to_string() + &zeros(60) + "beef"
    );
    let text = (-from_const(1)).to_string();
    assert_eq!(text.len(), 66);
    assert_eq!(hex(&text[2..]) + from_const(1), from_const(0));
}
