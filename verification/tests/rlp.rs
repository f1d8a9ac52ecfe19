use signed_rlp::signed::Signed;

fn encode<const BITS: usize, const LIMBS: usize>(value: Signed<BITS, LIMBS>) -> Vec<u8> {
    let mut buf = vec![];
    value.encode(&mut buf);
    buf
}

fn unsigned<const BITS: usize, const LIMBS: usize>(v: u64) -> Signed<BITS, LIMBS> {
    let mut limbs = [0u64; LIMBS];
    if LIMBS > 0 {
        limbs[0] = v;
    } else {
        assert_eq!(v, 0);
    }
    Signed::from_limbs(limbs).unwrap()
}

/// The two's-complement pattern of `v` on `BITS` bits.
fn signed<const BITS: usize, const LIMBS: usize>(v: i128) -> Signed<BITS, LIMBS> {
    let mut limbs = [if v < 0 { u64::MAX } else { 0 }; LIMBS];
    let pattern = v as u128;
    if LIMBS > 0 {
        limbs[0] = pattern as u64;
    }
    if LIMBS > 1 {
        limbs[1] = (pattern >> 64) as u64;
    }
    if BITS % 64 != 0 {
        limbs[LIMBS - 1] &= u64::MAX >> (64 - BITS % 64);
    }
    Signed::from_limbs(limbs).unwrap()
}

fn round_trip<const BITS: usize, const LIMBS: usize>(value: Signed<BITS, LIMBS>) {
    let bytes = encode(value);
    assert_eq!(value.length(), bytes.len());
    let mut cursor = bytes.as_slice();
    assert_eq!(Signed::<BITS, LIMBS>::decode(&mut cursor), Ok(value));
    assert!(cursor.is_empty());
}

#[test]
fn test_rlp() {
    assert_eq!(encode(unsigned::<0, 0>(0))[..], [0x80]);
    assert_eq!(encode(unsigned::<256, 4>(0))[..], [0x80]);
    assert_eq!(encode(unsigned::<256, 4>(15))[..], [0x0f]);
    assert_eq!(encode(unsigned::<256, 4>(1024))[..], [0x82, 0x04, 0x00]);
    assert_eq!(encode(unsigned::<256, 4>(0x1234_5678))[..], [0x84, 0x12, 0x34, 0x56, 0x78]);
}

#[test]
fn rlp_small() {
    let signed_int: Signed<64, 1> = signed("-1260332".parse().unwrap());

    let mut buf = Vec::new();
    signed_int.encode(&mut buf);
    let mut rlp = buf.as_slice();
    let result: Signed<64, 1> = Signed::decode(&mut rlp).unwrap();

    assert_eq!(result, signed_int);
}

#[test]
fn rlp_big() {
    let signed_int: Signed<256, 4> =
        signed("-1260332358234975439857342953478925".parse().unwrap());

    let mut buf = Vec::new();
    signed_int.encode(&mut buf);
    let mut rlp = buf.as_slice();
    let result: Signed<256, 4> = Signed::decode(&mut rlp).unwrap();

    assert_eq!(result, signed_int);
}

#[test]
fn one_word_values() {
    assert_eq!(encode(signed::<64, 1>(0)), [0x80]);
    assert_eq!(encode(signed::<64, 1>(15)), [0x0f]);
    assert_eq!(encode(signed::<64, 1>(1024)), [0x82, 0x04, 0x00]);
    assert_eq!(
        encode(signed::<64, 1>(-1260332)),
        [0x88, 0xff, 0xff, 0xff, 0xff, 0xff, 0xec, 0xc4, 0xd4]
    );
    assert_eq!(
        encode(signed::<64, 1>(i64::MAX as i128)),
        [0x88, 0x7f, 0xff, 0xff, 0xff, 0xff, 0xff, 0xff, 0xff]
    );
    assert_eq!(encode(signed::<64, 1>(i64::MIN as i128)), [0x88, 0x80, 0, 0, 0, 0, 0, 0, 0]);
}

#[test]
fn small_values_are_one_byte() {
    for v in 1..=127u8 {
        assert_eq!(encode(signed::<64, 1>(v as i128)), [v]);
        assert_eq!(encode(signed::<128, 2>(v as i128)), [v]);
        assert_eq!(encode(signed::<256, 4>(v as i128)), [v]);
        assert_eq!(signed::<256, 4>(v as i128).length(), 1);
    }
    assert_eq!(encode(signed::<256, 4>(128)), [0x81, 0x80]);
    assert_eq!(encode(signed::<64, 1>(128)), [0x81, 0x80]);
    assert_eq!(encode(signed::<8, 1>(-128)), [0x81, 0x80]);
}

#[test]
fn two_word_values() {
    assert_eq!(encode(signed::<128, 2>(0)), [0x80]);
    assert_eq!(encode(signed::<128, 2>(1 << 64)), [0x89, 1, 0, 0, 0, 0, 0, 0, 0, 0]);
    let mut expected = vec![0x90];
    expected.extend_from_slice(&(-1260332i128).to_be_bytes());
    assert_eq!(encode(signed::<128, 2>(-1260332)), expected);
    assert_eq!(signed::<128, 2>(-1260332).length(), 17);
}

#[test]
fn many_word_values() {
    let mut expected = vec![0xa0];
    expected.extend_from_slice(&[0xff; 16]);
    expected.extend_from_slice(&(-1260332358234975439857342953478925i128).to_be_bytes());
    assert_eq!(encode(signed::<256, 4>(-1260332358234975439857342953478925)), expected);
    assert_eq!(
        encode(signed::<256, 4>(1260332358234975439857342953478925)),
        [0x8e, 0x3e, 0x23, 0xa1, 0x7c, 0x1a, 0xee, 0xf8, 0x67, 0x3d, 0x43, 0x50, 0xb2, 0xdb, 0x0d]
    );
    assert_eq!(encode(signed::<192, 3>(1 << 64)), [0x89, 1, 0, 0, 0, 0, 0, 0, 0, 0]);
}

#[test]
fn negative_values_keep_every_byte() {
    assert_eq!(encode(signed::<8, 1>(-1)), [0x81, 0xff]);
    assert_eq!(encode(signed::<16, 1>(-1)), [0x82, 0xff, 0xff]);
    assert_eq!(encode(signed::<16, 1>(-32768)), [0x82, 0x80, 0x00]);
    let wide = encode(signed::<256, 4>(-1));
    assert_eq!(wide.len(), 33);
    assert_eq!(wide[0], 0x80 + 32);
    assert!(wide[1] & 0x80 != 0);
    assert!(wide[1..].iter().all(|b| *b == 0xff));
}

#[test]
fn widths_that_are_not_whole_bytes() {
    // seven bits: minus one is the pattern 0x7f, which is its own encoding
    assert_eq!(encode(signed::<7, 1>(-1)), [0x7f]);
    // twelve bits: the sign bit is bit 3 of the first payload byte
    assert_eq!(encode(signed::<12, 1>(-1)), [0x82, 0x0f, 0xff]);
    assert_eq!(encode(signed::<12, 1>(-2048)), [0x82, 0x08, 0x00]);
    round_trip(signed::<7, 1>(-1));
    round_trip(signed::<12, 1>(-2048));
    round_trip(signed::<65, 2>(-1));
}

#[test]
fn payloads_beyond_55_bytes_take_a_long_header() {
    let value = signed::<512, 8>(-1);
    let bytes = encode(value);
    assert_eq!(bytes.len(), 66);
    assert_eq!(bytes[..2], [0xb8, 0x40]);
    assert!(bytes[2..].iter().all(|b| *b == 0xff));
    assert_eq!(value.length(), 66);
    round_trip(value);

    // 56 payload bytes: the shortest payload with a long header
    let mut limbs = [0u64; 8];
    limbs[6] = 1 << 56;
    let value = Signed::<512, 8>::from_limbs(limbs).unwrap();
    let bytes = encode(value);
    assert_eq!(bytes.len(), 58);
    assert_eq!(bytes[..3], [0xb8, 56, 0x01]);
    assert_eq!(value.length(), 58);
    round_trip(value);

    // 55 payload bytes: the longest payload with a short header
    let mut limbs = [0u64; 8];
    limbs[6] = 1 << 55;
    let value = Signed::<512, 8>::from_limbs(limbs).unwrap();
    let bytes = encode(value);
    assert_eq!(bytes.len(), 56);
    assert_eq!(bytes[..2], [0x80 + 55, 0x80]);
    assert_eq!(value.length(), 56);
    round_trip(value);
}

#[test]
fn payloads_beyond_255_bytes_take_a_two_byte_length() {
    let value = Signed::<2560, 40>::from_limbs([u64::MAX; 40]).unwrap();
    let bytes = encode(value);
    assert_eq!(bytes.len(), 323);
    assert_eq!(bytes[..3], [0xb9, 0x01, 0x40]);
    assert_eq!(value.length(), 323);
    round_trip(value);
}

#[test]
fn zero_width_has_one_value() {
    let zero = Signed::<0, 0>::from_limbs([]).unwrap();
    assert_eq!(encode(zero), [0x80]);
    assert_eq!(zero.length(), 1);
    round_trip(zero);
}

#[test]
fn encode_appends() {
    let mut out = vec![1, 2, 3];
    signed::<64, 1>(1024).encode(&mut out);
    signed::<256, 4>(-1).encode(&mut out);
    assert_eq!(out.len(), 3 + 3 + 33);
    assert_eq!(out[..6], [1, 2, 3, 0x82, 0x04, 0x00]);
}

#[test]
fn length_is_what_encode_writes() {
    for v in [0i128, 1, 127, 128, 255, 256, 65535, 65536, -1, -128, -129, i64::MAX as i128, i64::MIN as i128] {
        assert_eq!(signed::<64, 1>(v).length(), encode(signed::<64, 1>(v)).len());
        assert_eq!(signed::<128, 2>(v).length(), encode(signed::<128, 2>(v)).len());
        assert_eq!(signed::<256, 4>(v).length(), encode(signed::<256, 4>(v)).len());
        assert_eq!(signed::<512, 8>(v).length(), encode(signed::<512, 8>(v)).len());
    }
}

#[test]
fn extremes_round_trip() {
    round_trip(signed::<64, 1>(0));
    round_trip(signed::<64, 1>(i64::MIN as i128));
    round_trip(signed::<64, 1>(i64::MAX as i128));
    round_trip(signed::<128, 2>(i128::MIN));
    round_trip(signed::<128, 2>(i128::MAX));
    round_trip(signed::<8, 1>(-128));
    round_trip(signed::<8, 1>(127));
    // the least and the greatest value of 256 bits
    round_trip(Signed::<256, 4>::from_limbs([0, 0, 0, 1 << 63]).unwrap());
    round_trip(Signed::<256, 4>::from_limbs([u64::MAX, u64::MAX, u64::MAX, u64::MAX >> 1]).unwrap());
    round_trip(signed::<256, 4>(-1260332));
    round_trip(signed::<256, 4>(-1260332358234975439857342953478925));
}

#[test]
fn samples_round_trip() {
    let mut x: u64 = 0x9e37_79b9_7f4a_7c15;
    for _ in 0..500 {
        let mut limbs = [0u64; 4];
        for limb in limbs.iter_mut() {
            x ^= x << 13;
            x ^= x >> 7;
            x ^= x << 17;
            *limb = x;
        }
        // clear a varying number of high bytes, so that every payload length occurs
        let keep = (x % 33) as usize;
        for byte in keep..32 {
            limbs[byte / 8] &= !(0xffu64 << (8 * (byte % 8)));
        }
        round_trip(Signed::<256, 4>::from_limbs(limbs).unwrap());
        round_trip(Signed::<192, 3>::from_limbs([limbs[0], limbs[1], limbs[2]]).unwrap());
        round_trip(Signed::<128, 2>::from_limbs([limbs[0], limbs[1]]).unwrap());
        round_trip(Signed::<64, 1>::from_limbs([limbs[0]]).unwrap());
    }
}
