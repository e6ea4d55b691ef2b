use endian_codec::Endian;

#[test]
fn read_u16_both_orders() {
    let buf = [0x01u8, 0x02];
    assert_eq!(Endian::Big.read_u16(&buf), 258);
    assert_eq!(Endian::Little.read_u16(&buf), 513);
}

#[test]
fn write_u32_both_orders() {
    let mut buf = [0u8; 4];
    Endian::Big.write_u32(&mut buf, 16909060);
    assert_eq!(buf, [0x01, 0x02, 0x03, 0x04]);
    Endian::Little.write_u32(&mut buf, 16909060);
    assert_eq!(buf, [0x04, 0x03, 0x02, 0x01]);
}

#[test]
fn read_i8_is_order_independent() {
    let buf = [0xFFu8];
    assert_eq!(Endian::Big.read_i8(&buf), -1);
    assert_eq!(Endian::Little.read_i8(&buf), -1);
}

#[test]
fn write_f32_bits_big() {
    let mut buf = [0u8; 4];
    Endian::Big.write_u32(&mut buf, 1.0f32.to_bits());
    assert_eq!(buf, [0x3F, 0x80, 0x00, 0x00]);
}

#[test]
fn read_u128_all_ones() {
    let buf = [0xFFu8; 16];
    assert_eq!(Endian::Big.read_u128(&buf), u128::MAX);
    assert_eq!(Endian::Little.read_u128(&buf), u128::MAX);
}

#[test]
fn round_trip_unsigned() {
    for &order in &[Endian::Little, Endian::Big] {
        for &v in &[0u8, 1, 0x7F, 0x80, 0xFF] {
            let mut b = [0u8; 1];
            order.write_u8(&mut b, v);
            assert_eq!(order.read_u8(&b), v);
        }
        for &v in &[0u16, 1, 0x0102, 0x8000, u16::MAX] {
            let mut b = [0u8; 2];
            order.write_u16(&mut b, v);
            assert_eq!(order.read_u16(&b), v);
        }
        for &v in &[0u32, 1, 0xDEAD_BEEF, u32::MAX] {
            let mut b = [0u8; 4];
            order.write_u32(&mut b, v);
            assert_eq!(order.read_u32(&b), v);
        }
        for &v in &[0u64, 1, 0x0123_4567_89AB_CDEF, u64::MAX] {
            let mut b = [0u8; 8];
            order.write_u64(&mut b, v);
            assert_eq!(order.read_u64(&b), v);
        }
        for &v in &[0u128, 1, u64::MAX as u128 + 7, u128::MAX] {
            let mut b = [0u8; 16];
            order.write_u128(&mut b, v);
            assert_eq!(order.read_u128(&b), v);
        }
    }
}

#[test]
fn round_trip_signed() {
    for &order in &[Endian::Little, Endian::Big] {
        for &v in &[i8::MIN, -1, 0, 1, i8::MAX] {
            let mut b = [0u8; 1];
            order.write_i8(&mut b, v);
            assert_eq!(order.read_i8(&b), v);
        }
        for &v in &[i16::MIN, -258, -1, 0, 1, 258, i16::MAX] {
            let mut b = [0u8; 2];
            order.write_i16(&mut b, v);
            assert_eq!(order.read_i16(&b), v);
        }
        for &v in &[i32::MIN, -16909060, -1, 0, 1, 16909060, i32::MAX] {
            let mut b = [0u8; 4];
            order.write_i32(&mut b, v);
            assert_eq!(order.read_i32(&b), v);
        }
        for &v in &[i64::MIN, -1, 0, 1, 0x0123_4567_89AB_CDEF, i64::MAX] {
            let mut b = [0u8; 8];
            order.write_i64(&mut b, v);
            assert_eq!(order.read_i64(&b), v);
        }
        for &v in &[i128::MIN, -1, 0, 1, i64::MAX as i128 + 9, i128::MAX] {
            let mut b = [0u8; 16];
            order.write_i128(&mut b, v);
            assert_eq!(order.read_i128(&b), v);
        }
    }
}

#[test]
fn round_trip_float_bits() {
    for &order in &[Endian::Little, Endian::Big] {
        for &v in &[0.0f32, -0.0, 1.0, -1.5, f32::INFINITY, f32::MIN_POSITIVE] {
            let mut b = [0u8; 4];
            order.write_u32(&mut b, v.to_bits());
            assert_eq!(f32::from_bits(order.read_u32(&b)).to_bits(), v.to_bits());
        }
        let nan32 = f32::from_bits(0x7FC0_0001);
        let mut b = [0u8; 4];
        order.write_u32(&mut b, nan32.to_bits());
        assert_eq!(order.read_u32(&b), 0x7FC0_0001);
        for &v in &[0.0f64, -0.0, 1.0, -2.25, f64::NEG_INFINITY, f64::MAX] {
            let mut b = [0u8; 8];
            order.write_u64(&mut b, v.to_bits());
            assert_eq!(f64::from_bits(order.read_u64(&b)).to_bits(), v.to_bits());
        }
    }
}

#[test]
fn orders_encode_reversed() {
    let mut little = [0u8; 8];
    let mut big = [0u8; 8];
    Endian::Little.write_u64(&mut little, 0x0102_0304_0506_0708);
    Endian::Big.write_u64(&mut big, 0x0102_0304_0506_0708);
    let mut reversed = little;
    reversed.reverse();
    assert_eq!(big, reversed);

    let mut little4 = [0u8; 4];
    let mut big4 = [0u8; 4];
    Endian::Little.write_i32(&mut little4, -559038737);
    Endian::Big.write_i32(&mut big4, -559038737);
    let mut reversed4 = little4;
    reversed4.reverse();
    assert_eq!(big4, reversed4);
}

#[test]
fn single_byte_orders_agree() {
    for v in 0..=u8::MAX {
        let mut a = [0u8; 1];
        let mut b = [0u8; 1];
        Endian::Little.write_u8(&mut a, v);
        Endian::Big.write_u8(&mut b, v);
        assert_eq!(a, b);
        assert_eq!(Endian::Little.read_u8(&a), Endian::Big.read_u8(&a));
        assert_eq!(Endian::Little.read_i8(&a), Endian::Big.read_i8(&a));
    }
}

#[test]
fn exact_width_buffer_succeeds() {
    let two = [0xAB, 0xCD];
    assert_eq!(Endian::Big.read_u16(&two), 0xABCD);
    let sixteen = [0u8; 16];
    assert_eq!(Endian::Little.read_u128(&sixteen), 0);
    let mut eight = [0u8; 8];
    Endian::Big.write_u64(&mut eight, u64::MAX);
    assert_eq!(eight, [0xFF; 8]);
}

#[test]
fn write_leaves_tail_unchanged() {
    let mut buf = [0x11u8, 0x22, 0x33, 0x44, 0x55, 0x66];
    Endian::Big.write_u16(&mut buf, 0x0102);
    assert_eq!(buf, [0x01, 0x02, 0x33, 0x44, 0x55, 0x66]);
    Endian::Little.write_u32(&mut buf, 0xAABBCCDD);
    assert_eq!(buf, [0xDD, 0xCC, 0xBB, 0xAA, 0x55, 0x66]);
}

#[test]
fn native_order_reads_machine_representation() {
    let native = Endian::native();
    assert_eq!(native.read_u16(&0x0102u16.to_ne_bytes()), 0x0102);
    assert_eq!(native.read_u32(&0xDEAD_BEEFu32.to_ne_bytes()), 0xDEAD_BEEF);
    assert_eq!(
        native.read_u64(&0x0123_4567_89AB_CDEFu64.to_ne_bytes()),
        0x0123_4567_89AB_CDEF
    );
    assert_eq!(native.read_u128(&u128::MAX.to_ne_bytes()), u128::MAX);
    let mut buf = [0u8; 8];
    native.write_u64(&mut buf, 0x0123_4567_89AB_CDEF);
    assert_eq!(buf, 0x0123_4567_89AB_CDEFu64.to_ne_bytes());
}

#[test]
fn native_order_is_consistent_with_itself() {
    let native = Endian::native();
    assert!(native == Endian::Little || native == Endian::Big);
    assert_eq!(native, Endian::native());
}

#[test]
fn signed_encodings_are_twos_complement() {
    let mut buf = [0u8; 2];
    Endian::Big.write_i16(&mut buf, -2);
    assert_eq!(buf, [0xFF, 0xFE]);
    Endian::Little.write_i16(&mut buf, -2);
    assert_eq!(buf, [0xFE, 0xFF]);
    let mut one = [0u8; 1];
    Endian::Big.write_i8(&mut one, -128);
    assert_eq!(one, [0x80]);
}
