//! Expressing root entities relative to the floating origin.

use vstd::prelude::*;

use crate::grid_cell::GridCell;
use crate::precision::GridPrecision;
use crate::settings::FloatingOriginSettings;
use crate::translation::Translation;
use crate::world::World;

verus! {

/// Why no reference frame could be chosen.
#[derive(Clone, Copy, Debug, PartialEq, Eq)]
pub enum OriginError {
    /// No entity with a cell is marked as the origin.
    NoOrigin,
    /// More than one entity with a cell is marked as the origin.
    MultipleOrigins,
}

/// Entity `i` is marked as the origin and has a cell.
pub open spec fn is_origin_candidate<P: GridPrecision>(world: World<P>, i: int) -> bool {
    0 <= i < world.len() && world.origins@[i] && world.cells@[i] is Some
}

/// Entity `o` is the only origin candidate.
pub open spec fn is_sole_origin<P: GridPrecision>(world: World<P>, o: int) -> bool {
    &&& is_origin_candidate(world, o)
    &&& forall|j: int| #[trigger] is_origin_candidate(world, j) ==> j == o
}

pub open spec fn has_sole_origin<P: GridPrecision>(world: World<P>) -> bool {
    exists|o: int| is_sole_origin(world, o)
}

/// The origin, where there is exactly one.
pub open spec fn sole_origin<P: GridPrecision>(world: World<P>) -> int {
    choose|o: int| is_sole_origin(world, o)
}

/// Finds the one entity that is marked as the origin and has a cell.
pub fn find_origin<P: GridPrecision>(world: &World<P>) -> (r: Result<usize, OriginError>)
    requires
        world.wf(),
    ensures
        r matches Ok(o) ==> is_sole_origin(*world, o as int),
        (r is Ok) == has_sole_origin(*world),
        (r == Err::<usize, _>(OriginError::NoOrigin)) == (forall|j: int|
            !#[trigger] is_origin_candidate(*world, j)),
        (r == Err::<usize, _>(OriginError::MultipleOrigins)) == (exists|j: int, k: int|
            j != k && #[trigger] is_origin_candidate(*world, j) && #[trigger] is_origin_candidate(
                *world,
                k,
            )),
{
    let n = world.origins.len();
    let mut found: Option<usize> = None;
    let mut i: usize = 0;
    while i < n
        invariant
            world.wf(),
            n == world.len(),
            0 <= i <= n,
            found matches Some(o) ==> o < i && is_origin_candidate(*world, o as int),
            forall|j: int|
                0 <= j < i && #[trigger] is_origin_candidate(*world, j) ==> found == Some(
                    j as usize,
                ),
        decreases n - i,
    {
        if world.origins[i] && world.cells[i].is_some() {
            if let Some(o) = found {
                assert(is_origin_candidate(*world, o as int));
                assert(is_origin_candidate(*world, i as int));
                return Err(OriginError::MultipleOrigins);
            }
            found = Some(i);
        }
        i += 1;
    }
    match found {
        Some(o) => {
            assert(is_sole_origin(*world, o as int));
            Ok(o)
        },
        None => Err(OriginError::NoOrigin),
    }
}

/// The translation of an entity in cell `entity_cell`, relative to an origin
/// in cell `origin_cell`.
pub fn update_global_from_cell_local<P: GridPrecision>(
    settings: &FloatingOriginSettings,
    entity_cell: &GridCell<P>,
    origin_cell: &GridCell<P>,
    local: &Translation,
) -> (r: Translation)
    ensures
        r == settings.global_pos_spec(entity_cell.sub_spec(*origin_cell), *local).narrow_spec(),
{
    let delta = entity_cell.sub(*origin_cell);
    settings.global_pos_single(&delta, local)
}

/// Entity `i` is a root with a cell whose translation relative to the
/// origin may be stale: the origin's cell changed, or its own cell or
/// translation did.
pub open spec fn is_stale<P: GridPrecision>(world: World<P>, origin: int, i: int) -> bool {
    &&& world.is_root(i)
    &&& world.cells@[i] is Some
    &&& (world.cells_changed@[origin] || world.cells_changed@[i] || world.translations_changed@[i])
}

/// What the update does to entity `i`, from `before` to `after`.
pub open spec fn origin_update_outcome<P: GridPrecision>(
    settings: FloatingOriginSettings,
    before: World<P>,
    after: World<P>,
    origin: int,
    i: int,
) -> bool {
    if is_stale(before, origin, i) {
        &&& after.globals@[i] == settings.global_pos_spec(
            before.cells@[i].unwrap().sub_spec(before.cells@[origin].unwrap()),
            before.translations@[i],
        ).narrow_spec()
        &&& after.globals_changed@[i]
    } else {
        &&& after.globals@[i] == before.globals@[i]
        &&& after.globals_changed@[i] == before.globals_changed@[i]
    }
}

/// Recomputes the translation relative to the origin of every root entity
/// with a cell that may be stale. When the origin's cell changed, that is
/// every such entity; otherwise only those whose own cell or translation
/// changed. Rotation and scale are the host's, taken from the local
/// transform unchanged.
///
/// Fails, changing nothing, unless exactly one entity with a cell is marked
/// as the origin.
pub fn update_global_from_grid<P: GridPrecision>(
    settings: &FloatingOriginSettings,
    world: &mut World<P>,
) -> (r: Result<(), OriginError>)
    requires
        old(world).wf(),
    ensures
        final(world).wf(),
        (r is Ok) == has_sole_origin(*old(world)),
        (r == Err::<(), _>(OriginError::NoOrigin)) == (forall|j: int|
            !#[trigger] is_origin_candidate(*old(world), j)),
        (r == Err::<(), _>(OriginError::MultipleOrigins)) == (exists|j: int, k: int|
            j != k && #[trigger] is_origin_candidate(*old(world), j) && #[trigger] is_origin_candidate(
                *old(world),
                k,
            )),
        r is Err ==> *final(world) == *old(world),
        final(world).parents == old(world).parents,
        final(world).children == old(world).children,
        final(world).children_changed == old(world).children_changed,
        final(world).cells == old(world).cells,
        final(world).cells_changed == old(world).cells_changed,
        final(world).translations == old(world).translations,
        final(world).translations_changed == old(world).translations_changed,
        final(world).origins == old(world).origins,
        r is Ok ==> forall|i: int|
            0 <= i < old(world).len() ==> #[trigger] origin_update_outcome(
                *settings,
                *old(world),
                *final(world),
                sole_origin(*old(world)),
                i,
            ),
{
    let o = match find_origin(world) {
        Ok(o) => o,
        Err(e) => {
            return Err(e);
        },
    };
    let origin_cell = match world.cells[o] {
        Some(c) => c,
        None => {
            return Err(OriginError::NoOrigin);
        },
    };
    let origin_changed = world.cells_changed[o];
    let n = world.parents.len();
    let mut i: usize = 0;
    while i < n
        invariant
            old(world).wf(),
            world.wf(),
            n == old(world).len(),
            0 <= i <= n,
            is_sole_origin(*old(world), o as int),
            old(world).cells@[o as int] == Some(origin_cell),
            origin_changed == old(world).cells_changed@[o as int],
            world.parents == old(world).parents,
            world.children == old(world).children,
            world.children_changed == old(world).children_changed,
            world.cells == old(world).cells,
            world.cells_changed == old(world).cells_changed,
            world.translations == old(world).translations,
            world.translations_changed == old(world).translations_changed,
            world.origins == old(world).origins,
            forall|j: int| i <= j < n ==> #[trigger] world.globals@[j] == old(world).globals@[j],
            forall|j: int|
                i <= j < n ==> #[trigger] world.globals_changed@[j] == old(
                    world,
                ).globals_changed@[j],
            forall|j: int|
                0 <= j < i ==> #[trigger] origin_update_outcome(
                    *settings,
                    *old(world),
                    *world,
                    o as int,
                    j,
                ),
        decreases n - i,
    {
        let ghost prev = *world;
        let stale = world.parents[i].is_none() && world.cells[i].is_some() && (origin_changed
            || world.cells_changed[i] || world.translations_changed[i]);
        assert(stale == is_stale(*old(world), o as int, i as int));
        if stale {
            let cell = world.cells[i].unwrap();
            let t = world.translations[i];
            let g = update_global_from_cell_local(settings, &cell, &origin_cell, &t);
            world.globals[i] = g;
            world.globals_changed[i] = true;
        } else {
            assert(world.globals@[i as int] == old(world).globals@[i as int]);
        }
        assert(origin_update_outcome(*settings, *old(world), *world, o as int, i as int));
        assert forall|j: int| 0 <= j < i implies #[trigger] origin_update_outcome(
            *settings,
            *old(world),
            *world,
            o as int,
            j,
        ) by {
            assert(origin_update_outcome(*settings, *old(world), prev, o as int, j));
        }
        assert forall|j: int| i < j < n implies #[trigger] world.globals@[j] == old(
            world,
        ).globals@[j] by {
            assert(prev.globals@[j] == old(world).globals@[j]);
        }
        assert forall|j: int| i < j < n implies #[trigger] world.globals_changed@[j] == old(
            world,
        ).globals_changed@[j] by {
            assert(prev.globals_changed@[j] == old(world).globals_changed@[j]);
        }
        i += 1;
    }
    assert(sole_origin(*old(world)) == o as int);
    Ok(())
}

/// Origin invalidation: while the origin's cell is unchanged, only a root
/// whose own cell or translation changed is recomputed; once the origin's
/// cell changes, every root with a cell is.
pub proof fn lemma_origin_invalidation<P: GridPrecision>(
    world: World<P>,
    origin: int,
    changed: int,
    unchanged: int,
)
    requires
        world.wf(),
        is_sole_origin(world, origin),
        0 <= changed < world.len(),
        0 <= unchanged < world.len(),
        world.is_root(changed),
        world.is_root(unchanged),
        world.cells@[changed] is Some,
        world.cells@[unchanged] is Some,
        world.cells_changed@[changed] || world.translations_changed@[changed],
        !world.cells_changed@[unchanged],
        !world.translations_changed@[unchanged],
    ensures
        sole_origin(world) == origin,
        is_stale(world, origin, changed),
        is_stale(world, origin, unchanged) == world.cells_changed@[origin],
{
}

} // verus!
