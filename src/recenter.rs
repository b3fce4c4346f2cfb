//! Moving root entities between cells to keep their translations small.

use vstd::prelude::*;

use crate::precision::GridPrecision;
use crate::settings::FloatingOriginSettings;
use crate::world::World;

verus! {

/// Entity `i` is a root with a cell whose translation changed and lies
/// beyond the recentering distance.
pub open spec fn needs_recentering<P: GridPrecision>(
    settings: FloatingOriginSettings,
    world: World<P>,
    i: int,
) -> bool {
    &&& world.is_root(i)
    &&& world.cells@[i] is Some
    &&& world.translations_changed@[i]
    &&& settings.exceeds(world.translations@[i])
}

/// What recentering does to entity `i`, from `before` to `after`.
pub open spec fn recenter_outcome<P: GridPrecision>(
    settings: FloatingOriginSettings,
    before: World<P>,
    after: World<P>,
    i: int,
) -> bool {
    if needs_recentering(settings, before, i) {
        let (delta, t) = settings.recenter_spec::<P>(before.translations@[i].as_wide_spec());
        &&& after.cells@[i] == Some(before.cells@[i].unwrap().add_spec(delta))
        &&& after.translations@[i] == t
        &&& after.cells_changed@[i]
    } else {
        &&& after.cells@[i] == before.cells@[i]
        &&& after.translations@[i] == before.translations@[i]
        &&& after.cells_changed@[i] == before.cells_changed@[i]
    }
}

/// Moves every root entity whose translation changed and went beyond the
/// recentering distance to the cell nearest to it, keeping what is left as
/// its translation. The cell and the translation change together, and the
/// cell is flagged as changed.
pub fn recenter_transform_on_grid<P: GridPrecision>(
    settings: &FloatingOriginSettings,
    world: &mut World<P>,
)
    requires
        settings.wf(),
        old(world).wf(),
    ensures
        final(world).wf(),
        final(world).parents == old(world).parents,
        final(world).children == old(world).children,
        final(world).children_changed == old(world).children_changed,
        final(world).translations_changed == old(world).translations_changed,
        final(world).globals == old(world).globals,
        final(world).globals_changed == old(world).globals_changed,
        final(world).origins == old(world).origins,
        forall|i: int|
            0 <= i < old(world).len() ==> #[trigger] recenter_outcome(
                *settings,
                *old(world),
                *final(world),
                i,
            ),
{
    let n = world.parents.len();
    let max = settings.maximum_distance_from_origin() as i128;
    let mut i: usize = 0;
    while i < n
        invariant
            settings.wf(),
            n == old(world).len(),
            0 <= i <= n,
            max == settings.max_distance(),
            old(world).wf(),
            world.wf(),
            world.len() == n,
            world.parents == old(world).parents,
            world.children == old(world).children,
            world.children_changed == old(world).children_changed,
            world.translations_changed == old(world).translations_changed,
            world.globals == old(world).globals,
            world.globals_changed == old(world).globals_changed,
            world.origins == old(world).origins,
            forall|j: int|
                #![trigger world.cells@[j]]
                i <= j < n ==> {
                    &&& world.cells@[j] == old(world).cells@[j]
                    &&& world.translations@[j] == old(world).translations@[j]
                    &&& world.cells_changed@[j] == old(world).cells_changed@[j]
                },
            forall|j: int|
                0 <= j < i ==> #[trigger] recenter_outcome(*settings, *old(world), *world, j),
        decreases n - i,
    {
        let ghost prev = *world;
        if world.parents[i].is_none() && world.translations_changed[i] {
            if let Some(cell) = world.cells[i] {
                let t = world.translations[i];
                let beyond = t.x as i128 > max || (t.x as i128) < -max || t.y as i128 > max
                    || (t.y as i128) < -max || t.z as i128 > max || (t.z as i128) < -max;
                if beyond {
                    let (delta, reduced) = settings.precise_translation::<P>(t.as_wide());
                    world.cells[i] = Some(cell.add(delta));
                    world.translations[i] = reduced;
                    world.cells_changed[i] = true;
                }
            }
        }
        assert(recenter_outcome(*settings, *old(world), *world, i as int));
        assert forall|j: int| 0 <= j < i implies #[trigger] recenter_outcome(
            *settings,
            *old(world),
            *world,
            j,
        ) by {
            assert(recenter_outcome(*settings, *old(world), prev, j));
        }
        assert forall|j: int| i < j < n implies #[trigger] world.cells@[j] == old(world).cells@[j]
            && world.translations@[j] == old(world).translations@[j] && world.cells_changed@[j]
            == old(world).cells_changed@[j] by {
            assert(prev.cells@[j] == old(world).cells@[j]);
        }
        i += 1;
    }
}

} // verus!
