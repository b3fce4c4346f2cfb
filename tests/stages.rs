use big_space::{
    recenter_transform_on_grid, transform_propagate_system, update_global_from_grid,
    FloatingOriginSettings, GridCell, HierarchyError, OriginError, Translation, World,
};

fn settings() -> FloatingOriginSettings {
    FloatingOriginSettings::new(10_000, 100).unwrap()
}

#[test]
fn recentering_moves_a_far_root_to_the_nearest_cell() {
    let s = settings();
    let mut world = World::<i64>::new();
    let e = world.spawn(Translation::new(12_000, -3, -15_000), Some(GridCell::new(4, 0, 0)));
    world.clear_change_flags();
    world.set_translation(e, Translation::new(12_000, -3, -15_000));
    recenter_transform_on_grid(&s, &mut world);
    assert_eq!(world.cells[e], Some(GridCell::new(5, 0, -2)));
    assert_eq!(world.translations[e], Translation::new(2_000, -3, 5_000));
    assert!(world.cells_changed[e]);
}

#[test]
fn recentering_leaves_unchanged_children_and_cellless_entities_alone() {
    let s = settings();
    let mut world = World::<i32>::new();
    let root = world.spawn(Translation::new(0, 0, 0), Some(GridCell::zero()));
    let child = world.spawn(Translation::new(90_000, 0, 0), Some(GridCell::zero()));
    world.add_child(root, child);
    let bare = world.spawn(Translation::new(90_000, 0, 0), None);
    let still = world.spawn(Translation::new(90_000, 0, 0), Some(GridCell::zero()));
    let edge = world.spawn(Translation::new(5_100, 0, 0), Some(GridCell::zero()));
    world.clear_change_flags();
    world.set_translation(child, Translation::new(90_000, 0, 0));
    world.set_translation(bare, Translation::new(90_000, 0, 0));
    world.set_translation(edge, Translation::new(5_100, 0, 0));
    recenter_transform_on_grid(&s, &mut world);
    for e in [child, bare, still, edge] {
        assert_eq!(world.translations[e].x, if e == edge { 5_100 } else { 90_000 });
        assert!(!world.cells_changed[e]);
    }
    assert_eq!(world.cells[still], Some(GridCell::zero()));
}

#[test]
fn recentering_twice_changes_nothing_more() {
    let s = settings();
    let mut world = World::<i16>::new();
    let e = world.spawn(Translation::new(-123_456, 0, 7), Some(GridCell::zero()));
    recenter_transform_on_grid(&s, &mut world);
    let cell = world.cells[e];
    let t = world.translations[e];
    assert_eq!(cell, Some(GridCell::new(-12, 0, 0)));
    assert_eq!(t, Translation::new(-3_456, 0, 7));
    recenter_transform_on_grid(&s, &mut world);
    assert_eq!(world.cells[e], cell);
    assert_eq!(world.translations[e], t);
}

fn origin_world() -> (World<i64>, usize, usize, usize) {
    let mut world = World::<i64>::new();
    let origin = world.spawn(Translation::new(0, 0, 0), Some(GridCell::new(0, 0, 1)));
    world.set_origin(origin);
    let e1 = world.spawn(Translation::new(1, 2, 3), Some(GridCell::new(1, 0, 0)));
    let e2 = world.spawn(Translation::new(4, 5, 6), Some(GridCell::new(0, 2, 0)));
    (world, origin, e1, e2)
}

#[test]
fn only_changed_entities_are_recomputed_while_the_origin_stays() {
    let s = FloatingOriginSettings::new(10, 1).unwrap();
    let (mut world, _origin, e1, e2) = origin_world();
    world.clear_change_flags();
    world.set_translation(e1, Translation::new(1, 2, 4));
    update_global_from_grid(&s, &mut world).unwrap();
    assert!(world.globals_changed[e1]);
    assert_eq!(world.globals[e1], Translation::new(11, 2, -6));
    assert!(!world.globals_changed[e2]);
    assert_eq!(world.globals[e2], Translation::new(0, 0, 0));
}

#[test]
fn every_entity_is_recomputed_when_the_origin_moves() {
    let s = FloatingOriginSettings::new(10, 1).unwrap();
    let (mut world, origin, e1, e2) = origin_world();
    world.clear_change_flags();
    world.cells[origin] = Some(GridCell::new(0, 0, 2));
    world.cells_changed[origin] = true;
    update_global_from_grid(&s, &mut world).unwrap();
    assert!(world.globals_changed[e1]);
    assert!(world.globals_changed[e2]);
    assert_eq!(world.globals[e1], Translation::new(11, 2, -17));
    assert_eq!(world.globals[e2], Translation::new(4, 25, -14));
    assert_eq!(world.globals[origin], Translation::new(0, 0, 0));
}

#[test]
fn the_origin_must_exist() {
    let s = settings();
    let mut world = World::<i32>::new();
    world.spawn(Translation::new(0, 0, 0), Some(GridCell::zero()));
    let marked_without_cell = world.spawn(Translation::new(0, 0, 0), None);
    world.set_origin(marked_without_cell);
    assert_eq!(update_global_from_grid(&s, &mut world), Err(OriginError::NoOrigin));
    assert!(!world.globals_changed[0]);
}

#[test]
fn the_origin_must_be_unique() {
    let s = settings();
    let mut world = World::<i32>::new();
    let a = world.spawn(Translation::new(0, 0, 0), Some(GridCell::zero()));
    let b = world.spawn(Translation::new(0, 0, 0), Some(GridCell::zero()));
    world.set_origin(a);
    world.set_origin(b);
    assert_eq!(update_global_from_grid(&s, &mut world), Err(OriginError::MultipleOrigins));
    assert!(!world.globals_changed[a]);
}

#[test]
fn hierarchy_propagation_example() {
    let s = FloatingOriginSettings::new(10, 1).unwrap();
    let mut world = World::<i64>::new();
    let root = world.spawn(Translation::new(5, 0, 0), Some(GridCell::new(0, 0, 0)));
    let child = world.spawn(Translation::new(0, 2, 0), None);
    world.add_child(root, child);
    let origin = world.spawn(Translation::new(0, 0, 0), Some(GridCell::new(0, 0, 1)));
    world.set_origin(origin);

    recenter_transform_on_grid(&s, &mut world);
    update_global_from_grid(&s, &mut world).unwrap();
    let report = transform_propagate_system(&mut world);

    assert!(report.errors.is_empty());
    assert_eq!(report.recomputed, vec![child]);
    assert_eq!(world.globals[root], Translation::new(5, 0, -10));
    assert_eq!(world.globals[child], Translation::new(5, 2, -10));
}

#[test]
fn a_malformed_link_is_reported_and_siblings_still_propagate() {
    let mut world = World::<i32>::new();
    let root = world.spawn(Translation::new(100, 0, 0), None);
    let other = world.spawn(Translation::new(0, 0, 0), None);
    let good = world.spawn(Translation::new(1, 0, 0), None);
    let bad = world.spawn(Translation::new(2, 0, 0), None);
    let below_bad = world.spawn(Translation::new(3, 0, 0), None);
    world.add_child(root, good);
    world.add_child(bad, below_bad);
    // `bad` is listed by `root` but records `other` as its parent.
    world.children[root].push(bad);
    world.parents[bad] = Some(other);

    let report = transform_propagate_system(&mut world);

    assert_eq!(
        report.errors,
        vec![HierarchyError { child: bad, expected_parent: root, recorded_parent: Some(other) }]
    );
    assert_eq!(world.globals[root], Translation::new(100, 0, 0));
    assert_eq!(world.globals[good], Translation::new(101, 0, 0));
    assert!(!world.globals_changed[bad]);
    assert!(!world.globals_changed[below_bad]);
}

#[test]
fn a_missing_child_is_skipped() {
    let mut world = World::<i32>::new();
    let root = world.spawn(Translation::new(7, 0, 0), None);
    let kid = world.spawn(Translation::new(0, 1, 0), None);
    world.children[root].push(99);
    world.add_child(root, kid);
    let report = transform_propagate_system(&mut world);
    assert!(report.errors.is_empty());
    assert_eq!(world.globals[kid], Translation::new(7, 1, 0));
}

#[test]
fn an_unchanged_subtree_is_not_recomputed() {
    let mut world = World::<i32>::new();
    let root = world.spawn(Translation::new(1, 0, 0), None);
    let kid = world.spawn(Translation::new(0, 1, 0), None);
    let grandkid = world.spawn(Translation::new(0, 0, 1), None);
    world.add_child(root, kid);
    world.add_child(kid, grandkid);
    transform_propagate_system(&mut world);
    assert_eq!(world.globals[grandkid], Translation::new(1, 1, 1));

    world.clear_change_flags();
    transform_propagate_system(&mut world);
    assert!(!world.globals_changed[root]);
    assert!(!world.globals_changed[kid]);
    assert!(!world.globals_changed[grandkid]);

    world.set_translation(kid, Translation::new(0, 5, 0));
    transform_propagate_system(&mut world);
    assert!(!world.globals_changed[root]);
    assert!(world.globals_changed[kid]);
    assert!(world.globals_changed[grandkid]);
    assert_eq!(world.globals[grandkid], Translation::new(1, 5, 1));
}

#[test]
fn an_origin_move_reaches_children_of_every_root() {
    let mut world = World::<i32>::new();
    let origin = world.spawn(Translation::new(0, 0, 0), Some(GridCell::zero()));
    world.set_origin(origin);
    let root = world.spawn(Translation::new(0, 0, 0), Some(GridCell::zero()));
    let kid = world.spawn(Translation::new(0, 3, 0), None);
    world.add_child(root, kid);
    transform_propagate_system(&mut world);
    world.clear_change_flags();

    world.cells_changed[origin] = true;
    world.globals[root] = Translation::new(-10, 0, 0);
    transform_propagate_system(&mut world);
    assert!(world.globals_changed[kid]);
    assert_eq!(world.globals[kid], Translation::new(-10, 3, 0));
}

#[test]
fn composition_saturates() {
    let a = Translation::new(i64::MAX, i64::MIN, 1);
    assert_eq!(a.compose(&Translation::new(1, -1, 1)), Translation::new(i64::MAX, i64::MIN, 2));
}

#[test]
fn recomputed_children_come_after_their_parents() {
    let mut world = World::<i32>::new();
    let root = world.spawn(Translation::new(1, 0, 0), None);
    let a = world.spawn(Translation::new(0, 1, 0), None);
    let b = world.spawn(Translation::new(0, 2, 0), None);
    let a1 = world.spawn(Translation::new(0, 0, 1), None);
    let a2 = world.spawn(Translation::new(0, 0, 2), None);
    world.add_child(root, a);
    world.add_child(a, a1);
    world.add_child(root, b);
    world.add_child(a, a2);
    let report = transform_propagate_system(&mut world);
    assert_eq!(report.recomputed, vec![a, a1, a2, b]);

    world.clear_change_flags();
    world.set_translation(a2, Translation::new(0, 0, 3));
    let report = transform_propagate_system(&mut world);
    assert_eq!(report.recomputed, vec![a2]);
    assert_eq!(world.globals[a2], Translation::new(1, 1, 3));
}
