use big_space::GridPrecision;

#[test]
fn wrapping_add_wraps_at_every_width() {
    assert_eq!(<i8 as GridPrecision>::wrapping_add(i8::MAX, 1), i8::MIN);
    assert_eq!(<i16 as GridPrecision>::wrapping_add(i16::MAX, 1), i16::MIN);
    assert_eq!(<i32 as GridPrecision>::wrapping_add(i32::MAX, 1), i32::MIN);
    assert_eq!(<i64 as GridPrecision>::wrapping_add(i64::MAX, 1), i64::MIN);
    assert_eq!(<i128 as GridPrecision>::wrapping_add(i128::MAX, 1), i128::MIN);
    assert_eq!(<i32 as GridPrecision>::wrapping_add(40, 2), 42);
}

#[test]
fn wrapping_sub_wraps_at_every_width() {
    assert_eq!(<i8 as GridPrecision>::wrapping_sub(i8::MIN, 1), i8::MAX);
    assert_eq!(<i16 as GridPrecision>::wrapping_sub(i16::MIN, 1), i16::MAX);
    assert_eq!(<i32 as GridPrecision>::wrapping_sub(i32::MIN, 1), i32::MAX);
    assert_eq!(<i64 as GridPrecision>::wrapping_sub(i64::MIN, 1), i64::MAX);
    assert_eq!(<i128 as GridPrecision>::wrapping_sub(i128::MIN, 1), i128::MAX);
    assert_eq!(<i64 as GridPrecision>::wrapping_sub(40, 42), -2);
}

#[test]
fn zero_and_one() {
    assert_eq!(<i8 as GridPrecision>::zero(), 0);
    assert_eq!(<i128 as GridPrecision>::one(), 1);
    assert_eq!(<i16 as GridPrecision>::one(), 1);
}

#[test]
fn as_i128_is_exact() {
    assert_eq!(GridPrecision::as_i128(i8::MIN), -128);
    assert_eq!(GridPrecision::as_i128(i64::MAX), i64::MAX as i128);
    assert_eq!(GridPrecision::as_i128(i128::MIN), i128::MIN);
}

#[test]
fn from_i128_saturates() {
    assert_eq!(<i8 as GridPrecision>::from_i128(1000), i8::MAX);
    assert_eq!(<i8 as GridPrecision>::from_i128(-1000), i8::MIN);
    assert_eq!(<i8 as GridPrecision>::from_i128(-7), -7);
    assert_eq!(<i16 as GridPrecision>::from_i128(1 << 40), i16::MAX);
    assert_eq!(<i32 as GridPrecision>::from_i128(-(1 << 40)), i32::MIN);
    assert_eq!(<i64 as GridPrecision>::from_i128(i128::MAX), i64::MAX);
    assert_eq!(<i128 as GridPrecision>::from_i128(i128::MIN), i128::MIN);
}
