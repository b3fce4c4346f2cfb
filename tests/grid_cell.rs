use big_space::GridCell;

#[test]
fn add_and_sub_are_component_wise() {
    let a = GridCell::new(1i64, -2, 3);
    let b = GridCell::new(10i64, 20, -30);
    assert_eq!(a.add(b), GridCell::new(11, 18, -27));
    assert_eq!(a.sub(b), GridCell::new(-9, -22, 33));
}

#[test]
fn sub_wraps_at_the_bounds() {
    let a = GridCell::new(i8::MAX, i8::MIN, 0);
    let b = GridCell::new(-1i8, 1, 0);
    assert_eq!(a.sub(b), GridCell::new(i8::MIN, i8::MAX, 0));
}

#[test]
fn sub_then_add_round_trips_at_every_width() {
    let a = GridCell::new(i8::MAX, i8::MIN, 5);
    let b = GridCell::new(-1i8, 1, i8::MIN);
    assert_eq!(a.sub(b).add(b), a);

    let a = GridCell::new(i16::MAX, i16::MIN, -3);
    let b = GridCell::new(i16::MIN, i16::MAX, 7);
    assert_eq!(a.sub(b).add(b), a);

    let a = GridCell::new(i32::MIN, 12, i32::MAX);
    let b = GridCell::new(1i32, i32::MIN, -1);
    assert_eq!(a.sub(b).add(b), a);

    let a = GridCell::new(i64::MAX, i64::MIN, 0);
    let b = GridCell::new(i64::MIN, i64::MAX, i64::MAX);
    assert_eq!(a.sub(b).add(b), a);

    let a = GridCell::new(i128::MAX, i128::MIN, 99);
    let b = GridCell::new(-5i128, 5, i128::MIN);
    assert_eq!(a.sub(b).add(b), a);
}

#[test]
fn zero_one_and_default() {
    assert_eq!(GridCell::<i32>::zero(), GridCell::new(0, 0, 0));
    assert_eq!(GridCell::<i32>::one(), GridCell::new(1, 1, 1));
    assert_eq!(GridCell::<i64>::default(), GridCell::<i64>::zero());
}

#[test]
fn cells_order_lexicographically() {
    assert!(GridCell::new(0i32, 5, 5) < GridCell::new(1i32, 0, 0));
    assert!(GridCell::new(1i32, 0, 9) < GridCell::new(1i32, 1, 0));
}
