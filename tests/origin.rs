use big_space::origin::{find_origin, update_global_from_cell_local};
use big_space::{FloatingOriginSettings, GridCell, OriginError, Translation, World};

#[test]
fn find_origin_returns_the_marked_entity_with_a_cell() {
    let mut world = World::<i64>::new();
    world.spawn(Translation::zero(), Some(GridCell::zero()));
    let bare = world.spawn(Translation::zero(), None);
    world.set_origin(bare);
    let origin = world.spawn(Translation::zero(), Some(GridCell::zero()));
    world.set_origin(origin);
    assert_eq!(find_origin(&world), Ok(origin));
}

#[test]
fn find_origin_reports_none_and_several() {
    let mut world = World::<i64>::new();
    let a = world.spawn(Translation::zero(), Some(GridCell::zero()));
    assert_eq!(find_origin(&world), Err(OriginError::NoOrigin));
    let b = world.spawn(Translation::zero(), Some(GridCell::zero()));
    world.set_origin(a);
    world.set_origin(b);
    assert_eq!(find_origin(&world), Err(OriginError::MultipleOrigins));
}

#[test]
fn cell_local_translation_relative_to_the_origin() {
    let s = FloatingOriginSettings::new(10, 1).unwrap();
    let t = update_global_from_cell_local(
        &s,
        &GridCell::new(3i32, -1, 0),
        &GridCell::new(1i32, 1, 1),
        &Translation::new(4, 5, 6),
    );
    assert_eq!(t, Translation::new(24, -15, -4));
}

#[test]
fn cell_difference_wraps_before_scaling() {
    let s = FloatingOriginSettings::new(10, 1).unwrap();
    let t = update_global_from_cell_local(
        &s,
        &GridCell::new(i8::MAX, 0, 0),
        &GridCell::new(i8::MIN, 0, 0),
        &Translation::new(1, 0, 0),
    );
    assert_eq!(t, Translation::new(-9, 0, 0));
}
