//! The entities that the stages read and write, stored one column per
//! component and indexed by entity.

use vstd::prelude::*;

use crate::grid_cell::GridCell;
use crate::precision::GridPrecision;
use crate::translation::Translation;

verus! {

/// The components of a scene, with the host's per-frame change flags.
///
/// Entity `i` owns element `i` of every column. A `*_changed` flag is set
/// when its component was written since the host last cleared the flags.
pub struct World<P: GridPrecision> {
    /// The parent of each entity; `None` for a root.
    pub parents: Vec<Option<usize>>,
    /// The children of each entity.
    pub children: Vec<Vec<usize>>,
    pub children_changed: Vec<bool>,
    /// The grid cell of each entity; an entity without one lives in the
    /// zero cell.
    pub cells: Vec<Option<GridCell<P>>>,
    pub cells_changed: Vec<bool>,
    /// Each entity's translation relative to its cell (a root) or to its
    /// parent (a child).
    pub translations: Vec<Translation>,
    pub translations_changed: Vec<bool>,
    /// Each entity's translation relative to the floating origin, as the
    /// stages last computed it.
    pub globals: Vec<Translation>,
    pub globals_changed: Vec<bool>,
    /// Marks the entity that positions are expressed relative to.
    pub origins: Vec<bool>,
}

impl<P: GridPrecision> World<P> {
    /// The number of entities.
    pub open spec fn len(self) -> nat {
        self.parents@.len()
    }

    /// Every column holds one element per entity.
    pub open spec fn wf(self) -> bool {
        let n = self.len();
        &&& n <= usize::MAX
        &&& self.children@.len() == n
        &&& self.children_changed@.len() == n
        &&& self.cells@.len() == n
        &&& self.cells_changed@.len() == n
        &&& self.translations@.len() == n
        &&& self.translations_changed@.len() == n
        &&& self.globals@.len() == n
        &&& self.globals_changed@.len() == n
        &&& self.origins@.len() == n
    }

    /// Entity `i` has no parent.
    pub open spec fn is_root(self, i: int) -> bool {
        self.parents@[i] is None
    }

    /// A world with no entities.
    pub fn new() -> (r: Self)
        ensures
            r.wf(),
            r.len() == 0,
    {
        World {
            parents: Vec::new(),
            children: Vec::new(),
            children_changed: Vec::new(),
            cells: Vec::new(),
            cells_changed: Vec::new(),
            translations: Vec::new(),
            translations_changed: Vec::new(),
            globals: Vec::new(),
            globals_changed: Vec::new(),
            origins: Vec::new(),
        }
    }

    /// Adds a root entity and returns its index. Its components count as
    /// changed, as newly added ones do; its global translation is zero until
    /// the stages compute it.
    pub fn spawn(&mut self, translation: Translation, cell: Option<GridCell<P>>) -> (id: usize)
        requires
            old(self).wf(),
            old(self).len() < usize::MAX,
        ensures
            final(self).wf(),
            id == old(self).len(),
            final(self).len() == old(self).len() + 1,
            final(self).parents@ == old(self).parents@.push(None),
            final(self).children@.len() == id + 1,
            forall|i: int| 0 <= i < id ==> #[trigger] final(self).children@[i] == old(self).children@[i],
            final(self).children@[id as int]@ == Seq::<usize>::empty(),
            final(self).children_changed@ == old(self).children_changed@.push(false),
            final(self).cells@ == old(self).cells@.push(cell),
            final(self).cells_changed@ == old(self).cells_changed@.push(cell is Some),
            final(self).translations@ == old(self).translations@.push(translation),
            final(self).translations_changed@ == old(self).translations_changed@.push(true),
            final(self).globals@ == old(self).globals@.push(Translation { x: 0, y: 0, z: 0 }),
            final(self).globals_changed@ == old(self).globals_changed@.push(false),
            final(self).origins@ == old(self).origins@.push(false),
    {
        let id = self.parents.len();
        self.parents.push(None);
        self.children.push(Vec::new());
        self.children_changed.push(false);
        self.cells.push(cell);
        self.cells_changed.push(cell.is_some());
        self.translations.push(translation);
        self.translations_changed.push(true);
        self.globals.push(Translation::zero());
        self.globals_changed.push(false);
        self.origins.push(false);
        id
    }

    /// Makes root entity `child` a child of `parent`: records the parent
    /// and appends `child` to the parent's children, which count as changed.
    pub fn add_child(&mut self, parent: usize, child: usize)
        requires
            old(self).wf(),
            parent < old(self).len(),
            child < old(self).len(),
            old(self).parents@[child as int] is None,
        ensures
            final(self).wf(),
            final(self).parents@ == old(self).parents@.update(child as int, Some(parent)),
            final(self).children@.len() == old(self).children@.len(),
            forall|i: int|
                0 <= i < old(self).len() && i != parent ==> #[trigger] final(self).children@[i]
                    == old(self).children@[i],
            final(self).children@[parent as int]@ == old(self).children@[parent as int]@.push(child),
            final(self).children_changed@ == old(self).children_changed@.update(parent as int, true),
            final(self).cells == old(self).cells,
            final(self).cells_changed == old(self).cells_changed,
            final(self).translations == old(self).translations,
            final(self).translations_changed == old(self).translations_changed,
            final(self).globals == old(self).globals,
            final(self).globals_changed == old(self).globals_changed,
            final(self).origins == old(self).origins,
    {
        self.parents[child] = Some(parent);
        self.children[parent].push(child);
        self.children_changed[parent] = true;
    }

    /// Marks `entity` as the floating origin.
    pub fn set_origin(&mut self, entity: usize)
        requires
            old(self).wf(),
            entity < old(self).len(),
        ensures
            final(self).wf(),
            final(self).origins@ == old(self).origins@.update(entity as int, true),
            final(self).parents == old(self).parents,
            final(self).children == old(self).children,
            final(self).children_changed == old(self).children_changed,
            final(self).cells == old(self).cells,
            final(self).cells_changed == old(self).cells_changed,
            final(self).translations == old(self).translations,
            final(self).translations_changed == old(self).translations_changed,
            final(self).globals == old(self).globals,
            final(self).globals_changed == old(self).globals_changed,
    {
        self.origins[entity] = true;
    }

    /// Replaces the translation of `entity` and flags it as changed.
    pub fn set_translation(&mut self, entity: usize, translation: Translation)
        requires
            old(self).wf(),
            entity < old(self).len(),
        ensures
            final(self).wf(),
            final(self).translations@ == old(self).translations@.update(entity as int, translation),
            final(self).translations_changed@ == old(self).translations_changed@.update(
                entity as int,
                true,
            ),
            final(self).parents == old(self).parents,
            final(self).children == old(self).children,
            final(self).children_changed == old(self).children_changed,
            final(self).cells == old(self).cells,
            final(self).cells_changed == old(self).cells_changed,
            final(self).globals == old(self).globals,
            final(self).globals_changed == old(self).globals_changed,
            final(self).origins == old(self).origins,
    {
        self.translations[entity] = translation;
        self.translations_changed[entity] = true;
    }

    /// Starts a new frame: no component counts as changed.
    pub fn clear_change_flags(&mut self)
        requires
            old(self).wf(),
        ensures
            final(self).wf(),
            final(self).len() == old(self).len(),
            final(self).parents == old(self).parents,
            final(self).children == old(self).children,
            final(self).cells == old(self).cells,
            final(self).translations == old(self).translations,
            final(self).globals == old(self).globals,
            final(self).origins == old(self).origins,
            forall|i: int|
                0 <= i < old(self).len() ==> {
                    &&& !#[trigger] final(self).children_changed@[i]
                    &&& !final(self).cells_changed@[i]
                    &&& !final(self).translations_changed@[i]
                    &&& !final(self).globals_changed@[i]
                },
    {
        let n = self.parents.len();
        let mut i: usize = 0;
        while i < n
            invariant
                old(self).wf(),
                self.wf(),
                n == old(self).len(),
                self.len() == n,
                0 <= i <= n,
                self.parents == old(self).parents,
                self.children == old(self).children,
                self.cells == old(self).cells,
                self.translations == old(self).translations,
                self.globals == old(self).globals,
                self.origins == old(self).origins,
                forall|j: int|
                    0 <= j < i ==> {
                        &&& !#[trigger] self.children_changed@[j]
                        &&& !self.cells_changed@[j]
                        &&& !self.translations_changed@[j]
                        &&& !self.globals_changed@[j]
                    },
            decreases n - i,
        {
            self.children_changed[i] = false;
            self.cells_changed[i] = false;
            self.translations_changed[i] = false;
            self.globals_changed[i] = false;
            i += 1;
        }
    }
}

} // verus!
