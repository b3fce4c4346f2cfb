//! Composing translations down the parent/child hierarchy.
//!
//! Every entity that hangs below a root through consistent links (each
//! child lists a parent that lists it back) gets its translation composed
//! onto its parent's. Only entities whose inputs may have changed are
//! recomputed: the flag that forces recomputation is carried from parent to
//! child down the traversal.

use vstd::prelude::*;

use crate::precision::GridPrecision;
use crate::translation::Translation;
use crate::world::World;

verus! {

/// A child whose recorded parent is not the entity that lists it.
#[derive(Clone, Copy, Debug, PartialEq, Eq)]
pub struct HierarchyError {
    pub child: usize,
    pub expected_parent: usize,
    pub recorded_parent: Option<usize>,
}

/// The cell of the floating origin changed this frame.
pub open spec fn origin_cell_changed<P: GridPrecision>(w: World<P>) -> bool {
    exists|i: int|
        0 <= i < w.len() && w.origins@[i] && w.cells@[i] is Some && #[trigger] w.cells_changed@[i]
}

pub open spec fn parent_of<P: GridPrecision>(w: World<P>, z: int) -> int {
    w.parents@[z].unwrap() as int
}

/// Entity `z` records a parent, which lists `z` among its children.
pub open spec fn is_linked<P: GridPrecision>(w: World<P>, z: int) -> bool {
    &&& 0 <= z < w.len()
    &&& w.parents@[z] is Some
    &&& parent_of(w, z) < w.len()
    &&& w.children@[parent_of(w, z)]@.contains(z as usize)
}

/// Entity `z` hangs `d` consistent links below a root.
pub open spec fn at_depth<P: GridPrecision>(w: World<P>, z: int, d: nat) -> bool
    decreases d,
{
    if d == 0 {
        0 <= z < w.len() && w.is_root(z)
    } else {
        is_linked(w, z) && at_depth(w, parent_of(w, z), (d - 1) as nat)
    }
}

/// The ancestor `k` links above `z`.
pub open spec fn ancestor<P: GridPrecision>(w: World<P>, z: int, k: nat) -> int
    decreases k,
{
    if k == 0 {
        z
    } else {
        ancestor(w, parent_of(w, z), (k - 1) as nat)
    }
}

/// The flag that entity `z`, at depth `d`, hands to its children: its
/// subtree must be recomputed.
pub open spec fn flag_out<P: GridPrecision>(w: World<P>, z: int, d: nat) -> bool
    decreases d,
{
    if d == 0 {
        ||| w.translations_changed@[z]
        ||| (w.cells@[z] is Some && w.cells_changed@[z])
        ||| origin_cell_changed(w)
        ||| w.children_changed@[z]
    } else {
        ||| flag_out(w, parent_of(w, z), (d - 1) as nat)
        ||| w.translations_changed@[z]
        ||| w.children_changed@[z]
    }
}

/// Entity `z`, at depth `d`, gets a new global translation: a root without a
/// cell whose translation changed, or a child whose parent handed down the
/// flag or whose own translation changed.
pub open spec fn recomputes<P: GridPrecision>(w: World<P>, z: int, d: nat) -> bool {
    if d == 0 {
        w.cells@[z] is None && w.translations_changed@[z]
    } else {
        flag_out(w, parent_of(w, z), (d - 1) as nat) || w.translations_changed@[z]
    }
}

/// The global translation of entity `z`, at depth `d`, after propagation.
pub open spec fn final_global<P: GridPrecision>(w: World<P>, z: int, d: nat) -> Translation
    decreases d,
{
    if recomputes(w, z, d) {
        if d == 0 {
            w.translations@[z]
        } else {
            final_global(w, parent_of(w, z), (d - 1) as nat).compose_spec(w.translations@[z])
        }
    } else {
        w.globals@[z]
    }
}

pub open spec fn final_changed<P: GridPrecision>(w: World<P>, z: int, d: nat) -> bool {
    w.globals_changed@[z] || recomputes(w, z, d)
}

/// Entity `z` is a root or hangs below one, at most `w.len()` links deep.
pub open spec fn is_attached<P: GridPrecision>(w: World<P>, z: int) -> bool {
    exists|d: nat| d <= w.len() && #[trigger] at_depth(w, z, d)
}

/// The depth of an attached entity.
pub open spec fn depth_of<P: GridPrecision>(w: World<P>, z: int) -> nat {
    choose|d: nat| d <= w.len() && at_depth(w, z, d)
}

/// Entry `i` of `order` is a child entity, attached below a root, that
/// propagation recomputes, and comes after its parent if the parent is a
/// recomputed child too.
pub open spec fn listed_in_order<P: GridPrecision>(w: World<P>, order: Seq<usize>, i: int) -> bool {
    let z = order[i] as int;
    exists|d: nat|
        1 <= d <= w.len() && #[trigger] at_depth(w, z, d) && recomputes(w, z, d) && (d >= 2
            && recomputes(w, parent_of(w, z), (d - 1) as nat) ==> order.subrange(0, i).contains(
            w.parents@[z].unwrap(),
        ))
}

/// `e` names a child listed by an attached entity (less than `w.len()`
/// links deep) whose recorded parent is another.
pub open spec fn is_reported<P: GridPrecision>(w: World<P>, e: HierarchyError) -> bool {
    &&& e.child < w.len()
    &&& exists|d: nat| d < w.len() && #[trigger] at_depth(w, e.expected_parent as int, d)
    &&& w.children@[e.expected_parent as int]@.contains(e.child)
    &&& e.recorded_parent == w.parents@[e.child as int]
    &&& e.recorded_parent != Some(e.expected_parent)
}

/// `after` holds the propagated result of entity `z` at depth `d`.
pub open spec fn settled_at<P: GridPrecision>(w: World<P>, after: World<P>, z: int, d: nat) -> bool {
    &&& after.globals@[z] == final_global(w, z, d)
    &&& after.globals_changed@[z] == final_changed(w, z, d)
}

pub open spec fn is_settled<P: GridPrecision>(w: World<P>, after: World<P>, z: int) -> bool {
    exists|d: nat| d <= w.len() && #[trigger] at_depth(w, z, d) && settled_at(w, after, z, d)
}

pub open spec fn untouched<P: GridPrecision>(w: World<P>, after: World<P>, z: int) -> bool {
    &&& after.globals@[z] == w.globals@[z]
    &&& after.globals_changed@[z] == w.globals_changed@[z]
}

/// Only the global translations and their flags differ.
pub open spec fn same_inputs<P: GridPrecision>(w: World<P>, after: World<P>) -> bool {
    &&& after.wf()
    &&& after.parents == w.parents
    &&& after.children == w.children
    &&& after.children_changed == w.children_changed
    &&& after.cells == w.cells
    &&& after.cells_changed == w.cells_changed
    &&& after.translations == w.translations
    &&& after.translations_changed == w.translations_changed
    &&& after.origins == w.origins
}

spec fn consistent<P: GridPrecision>(w: World<P>, cur: World<P>, z: int) -> bool {
    untouched(w, cur, z) || is_settled(w, cur, z)
}

/// A state part way through propagating `w`.
spec fn state_ok<P: GridPrecision>(
    w: World<P>,
    cur: World<P>,
    errors: Seq<HierarchyError>,
    order: Seq<usize>,
) -> bool {
    &&& w.wf()
    &&& same_inputs(w, cur)
    &&& forall|z: int| 0 <= z < w.len() ==> #[trigger] consistent(w, cur, z)
    &&& forall|i: int| 0 <= i < errors.len() ==> #[trigger] is_reported(w, errors[i])
    &&& forall|i: int| 0 <= i < order.len() ==> #[trigger] listed_in_order(w, order, i)
}

spec fn kept_or_settled<P: GridPrecision>(w: World<P>, a: World<P>, b: World<P>, z: int) -> bool {
    (b.globals@[z] == a.globals@[z] && b.globals_changed@[z] == a.globals_changed@[z])
        || is_settled(w, b, z)
}

/// From `a` to `b`, every entity kept its result or got its final one.
spec fn advances<P: GridPrecision>(w: World<P>, a: World<P>, b: World<P>) -> bool {
    forall|z: int| 0 <= z < w.len() ==> #[trigger] kept_or_settled(w, a, b, z)
}

spec fn extends<T>(a: Seq<T>, b: Seq<T>) -> bool {
    a.len() <= b.len() && forall|i: int| 0 <= i < a.len() ==> #[trigger] b[i] == a[i]
}

/// Every entity below `c` (at depth `d`), `c` included, is settled.
spec fn subtree_settled<P: GridPrecision>(w: World<P>, cur: World<P>, c: int, d: nat) -> bool {
    forall|z: int, k: nat|
        at_depth(w, z, d + k) && d + k <= w.len() && #[trigger] ancestor(w, z, k) == c
            ==> is_settled(w, cur, z)
}

/// Every malformed link below `c` (at depth `d`), `c` included, is listed.
spec fn subtree_errors_listed<P: GridPrecision>(
    w: World<P>,
    errors: Seq<HierarchyError>,
    c: int,
    d: nat,
) -> bool {
    forall|e: HierarchyError, k: nat|
        is_reported(w, e) && at_depth(w, e.expected_parent as int, d + k) && d + k < w.len()
            && #[trigger] ancestor(w, e.expected_parent as int, k) == c ==> errors.contains(e)
}

/// Every recomputed child below `c` (at depth `d`), `c` included, is in
/// `order`.
spec fn subtree_ordered<P: GridPrecision>(w: World<P>, order: Seq<usize>, c: int, d: nat) -> bool {
    forall|z: int, k: nat|
        at_depth(w, z, d + k) && d + k <= w.len() && 1 <= d + k && recomputes(w, z, d + k)
            && #[trigger] ancestor(w, z, k) == c ==> order.contains(z as usize)
}

/// Entity `x`, listed by `p` and visited at depth `d`, is done: a malformed
/// link from `p` is listed, and a consistent one has its subtree settled and
/// its malformed links listed.
spec fn node_done<P: GridPrecision>(
    w: World<P>,
    cur: World<P>,
    errors: Seq<HierarchyError>,
    order: Seq<usize>,
    x: int,
    p: int,
    d: nat,
) -> bool {
    &&& forall|e: HierarchyError|
        is_reported(w, e) && e.child == x && e.expected_parent == p ==> #[trigger] errors.contains(e)
    &&& (0 <= x < w.len() && w.parents@[x] == Some(p as usize)) ==> {
        &&& subtree_settled(w, cur, x, d)
        &&& subtree_errors_listed(w, errors, x, d)
        &&& subtree_ordered(w, order, x, d)
    }
}

proof fn lemma_depth_unique<P: GridPrecision>(w: World<P>, z: int, d1: nat, d2: nat)
    requires
        at_depth(w, z, d1),
        at_depth(w, z, d2),
    ensures
        d1 == d2,
    decreases d1,
{
    if d1 > 0 && d2 > 0 {
        lemma_depth_unique(w, parent_of(w, z), (d1 - 1) as nat, (d2 - 1) as nat);
    }
}

proof fn lemma_ancestor_depth<P: GridPrecision>(w: World<P>, z: int, dz: nat, k: nat)
    requires
        at_depth(w, z, dz),
        k <= dz,
    ensures
        at_depth(w, ancestor(w, z, k), (dz - k) as nat),
    decreases k,
{
    if k > 0 {
        lemma_ancestor_depth(w, parent_of(w, z), (dz - 1) as nat, (k - 1) as nat);
    }
}

proof fn lemma_ancestor_step<P: GridPrecision>(w: World<P>, z: int, k: nat)
    requires
        k >= 1,
    ensures
        ancestor(w, z, k) == parent_of(w, ancestor(w, z, (k - 1) as nat)),
    decreases k,
{
    assert(ancestor(w, z, k) == ancestor(w, parent_of(w, z), (k - 1) as nat));
    if k > 1 {
        lemma_ancestor_step(w, parent_of(w, z), (k - 1) as nat);
        assert(ancestor(w, z, (k - 1) as nat) == ancestor(
            w,
            parent_of(w, z),
            (k - 2) as nat,
        ));
    } else {
        assert(ancestor(w, parent_of(w, z), 0) == parent_of(w, z));
    }
}

/// A settled entity stays settled while its values are kept.
proof fn lemma_advances_trans<P: GridPrecision>(w: World<P>, a: World<P>, b: World<P>, c: World<P>)
    requires
        advances(w, a, b),
        advances(w, b, c),
    ensures
        advances(w, a, c),
{
    assert forall|z: int| 0 <= z < w.len() implies #[trigger] kept_or_settled(w, a, c, z) by {
        assert(kept_or_settled(w, a, b, z));
        assert(kept_or_settled(w, b, c, z));
        if is_settled(w, b, z) && !is_settled(w, c, z) {
            let d = choose|d: nat| d <= w.len() && #[trigger] at_depth(w, z, d) && settled_at(w, b, z, d);
            assert(settled_at(w, c, z, d));
        }
    }
}

proof fn lemma_extends_contains<T>(a: Seq<T>, b: Seq<T>)
    requires
        extends(a, b),
    ensures
        forall|e: T| a.contains(e) ==> #[trigger] b.contains(e),
{
    assert forall|e: T| a.contains(e) implies #[trigger] b.contains(e) by {
        let i = choose|i: int| 0 <= i < a.len() && a[i] == e;
        assert(b[i] == e);
    }
}

proof fn lemma_order_extends<P: GridPrecision>(w: World<P>, a: Seq<usize>, b: Seq<usize>)
    requires
        extends(a, b),
        forall|i: int| 0 <= i < a.len() ==> #[trigger] listed_in_order(w, a, i),
    ensures
        forall|i: int| 0 <= i < a.len() ==> #[trigger] listed_in_order(w, b, i),
{
    assert forall|i: int| 0 <= i < a.len() implies #[trigger] listed_in_order(w, b, i) by {
        assert(listed_in_order(w, a, i));
        assert(b.subrange(0, i) =~= a.subrange(0, i));
        assert(b[i] == a[i]);
    }
}

proof fn lemma_state_advances<P: GridPrecision>(
    w: World<P>,
    a: World<P>,
    b: World<P>,
    ea: Seq<HierarchyError>,
    eb: Seq<HierarchyError>,
    oa: Seq<usize>,
    ob: Seq<usize>,
)
    requires
        state_ok(w, a, ea, oa),
        advances(w, a, b),
        same_inputs(w, b),
        forall|i: int| 0 <= i < eb.len() ==> #[trigger] is_reported(w, eb[i]),
        forall|i: int| 0 <= i < ob.len() ==> #[trigger] listed_in_order(w, ob, i),
    ensures
        state_ok(w, b, eb, ob),
{
    assert forall|z: int| 0 <= z < w.len() implies #[trigger] consistent(w, b, z) by {
        assert(consistent(w, a, z));
        assert(kept_or_settled(w, a, b, z));
        if is_settled(w, a, z) && !is_settled(w, b, z) {
            let d = choose|d: nat| d <= w.len() && #[trigger] at_depth(w, z, d) && settled_at(w, a, z, d);
            assert(settled_at(w, b, z, d));
        }
    }
}

proof fn lemma_subtree_advances<P: GridPrecision>(
    w: World<P>,
    a: World<P>,
    b: World<P>,
    ea: Seq<HierarchyError>,
    eb: Seq<HierarchyError>,
    oa: Seq<usize>,
    ob: Seq<usize>,
    x: int,
    d: nat,
)
    requires
        subtree_settled(w, a, x, d),
        subtree_errors_listed(w, ea, x, d),
        subtree_ordered(w, oa, x, d),
        advances(w, a, b),
        extends(ea, eb),
        extends(oa, ob),
    ensures
        subtree_settled(w, b, x, d),
        subtree_errors_listed(w, eb, x, d),
        subtree_ordered(w, ob, x, d),
{
    lemma_extends_contains(ea, eb);
    lemma_extends_contains(oa, ob);
    assert forall|z: int, k: nat|
        at_depth(w, z, d + k) && d + k <= w.len() && #[trigger] ancestor(w, z, k) == x implies is_settled(
        w,
        b,
        z,
    ) by {
        assert(is_settled(w, a, z));
        assert(0 <= z < w.len());
        assert(kept_or_settled(w, a, b, z));
        if !is_settled(w, b, z) {
            let dd = choose|dd: nat|
                dd <= w.len() && #[trigger] at_depth(w, z, dd) && settled_at(w, a, z, dd);
            assert(settled_at(w, b, z, dd));
        }
    }
}

proof fn lemma_node_done_advances<P: GridPrecision>(
    w: World<P>,
    a: World<P>,
    b: World<P>,
    ea: Seq<HierarchyError>,
    eb: Seq<HierarchyError>,
    oa: Seq<usize>,
    ob: Seq<usize>,
    x: int,
    p: int,
    d: nat,
)
    requires
        node_done(w, a, ea, oa, x, p, d),
        advances(w, a, b),
        extends(ea, eb),
        extends(oa, ob),
    ensures
        node_done(w, b, eb, ob, x, p, d),
{
    lemma_extends_contains(ea, eb);
    if 0 <= x < w.len() && w.parents@[x] == Some(p as usize) {
        lemma_subtree_advances(w, a, b, ea, eb, oa, ob, x, d);
    }
}

/// Once `c` is settled, listed in `order` if it is a recomputed child, and
/// each entity it lists is done, its whole subtree is.
proof fn lemma_subtree_from_children<P: GridPrecision>(
    w: World<P>,
    cur: World<P>,
    errors: Seq<HierarchyError>,
    order: Seq<usize>,
    c: int,
    d: nat,
)
    requires
        w.wf(),
        at_depth(w, c, d),
        is_settled(w, cur, c),
        d >= 1 && recomputes(w, c, d) ==> order.contains(c as usize),
        forall|j: int|
            0 <= j < w.children@[c]@.len() ==> #[trigger] node_done(
                w,
                cur,
                errors,
                order,
                w.children@[c]@[j] as int,
                c,
                d + 1,
            ),
    ensures
        subtree_settled(w, cur, c, d),
        subtree_errors_listed(w, errors, c, d),
        subtree_ordered(w, order, c, d),
{
    assert forall|z: int, k: nat|
        at_depth(w, z, d + k) && d + k <= w.len() && #[trigger] ancestor(w, z, k) == c implies is_settled(
        w,
        cur,
        z,
    ) by {
        if k > 0 {
            let y = ancestor(w, z, (k - 1) as nat);
            lemma_ancestor_step(w, z, k);
            lemma_ancestor_depth(w, z, d + k, (k - 1) as nat);
            assert(at_depth(w, y, d + 1));
            assert(w.children@[c]@.contains(y as usize));
            let j = choose|j: int| 0 <= j < w.children@[c]@.len() && w.children@[c]@[j] == y as usize;
            assert(w.children@[c]@[j] as int == y);
            assert(node_done(w, cur, errors, order, y, c, d + 1));
            assert(w.parents@[y] == Some(c as usize));
            assert(subtree_settled(w, cur, y, d + 1));
            assert(at_depth(w, z, (d + 1) + (k - 1) as nat));
            assert(ancestor(w, z, (k - 1) as nat) == y);
        } else {
            assert(ancestor(w, z, 0) == z);
        }
    }
    assert forall|z: int, k: nat|
        at_depth(w, z, d + k) && d + k <= w.len() && 1 <= d + k && recomputes(w, z, d + k)
            && #[trigger] ancestor(w, z, k) == c implies order.contains(z as usize) by {
        if k > 0 {
            let y = ancestor(w, z, (k - 1) as nat);
            lemma_ancestor_step(w, z, k);
            lemma_ancestor_depth(w, z, d + k, (k - 1) as nat);
            assert(at_depth(w, y, d + 1));
            assert(w.children@[c]@.contains(y as usize));
            let j = choose|j: int| 0 <= j < w.children@[c]@.len() && w.children@[c]@[j] == y as usize;
            assert(w.children@[c]@[j] as int == y);
            assert(node_done(w, cur, errors, order, y, c, d + 1));
            assert(w.parents@[y] == Some(c as usize));
            assert(subtree_ordered(w, order, y, d + 1));
            assert(at_depth(w, z, (d + 1) + (k - 1) as nat));
            assert(recomputes(w, z, (d + 1) + (k - 1) as nat));
            assert(ancestor(w, z, (k - 1) as nat) == y);
        } else {
            assert(ancestor(w, z, 0) == z);
        }
    }
    assert forall|e: HierarchyError, k: nat|
        is_reported(w, e) && at_depth(w, e.expected_parent as int, d + k) && d + k < w.len()
            && #[trigger] ancestor(w, e.expected_parent as int, k) == c implies errors.contains(e) by {
        if k == 0 {
            assert(ancestor(w, e.expected_parent as int, 0) == e.expected_parent as int);
            let j = choose|j: int| 0 <= j < w.children@[c]@.len() && w.children@[c]@[j] == e.child;
            assert(node_done(w, cur, errors, order, w.children@[c]@[j] as int, c, d + 1));
        } else {
            let z = e.expected_parent as int;
            let y = ancestor(w, z, (k - 1) as nat);
            lemma_ancestor_step(w, z, k);
            lemma_ancestor_depth(w, z, d + k, (k - 1) as nat);
            assert(at_depth(w, y, d + 1));
            assert(w.children@[c]@.contains(y as usize));
            let j = choose|j: int| 0 <= j < w.children@[c]@.len() && w.children@[c]@[j] == y as usize;
            assert(w.children@[c]@[j] as int == y);
            assert(node_done(w, cur, errors, order, y, c, d + 1));
            assert(w.parents@[y] == Some(c as usize));
            assert(subtree_errors_listed(w, errors, y, d + 1));
            assert(at_depth(w, z, (d + 1) + (k - 1) as nat));
            assert(ancestor(w, z, (k - 1) as nat) == y);
        }
    }
}

/// Propagates into `entity`, listed as a child of `expected_parent`, and
/// below it. `parent_global` is the parent's propagated translation and
/// `changed` the flag it hands down; `remaining` is how many more levels the
/// walk may descend, which bounds it even if the links are malformed.
fn propagate_recursive<P: GridPrecision>(
    world: &mut World<P>,
    errors: &mut Vec<HierarchyError>,
    order: &mut Vec<usize>,
    parent_global: Translation,
    entity: usize,
    expected_parent: usize,
    changed: bool,
    remaining: usize,
    Ghost(w): Ghost<World<P>>,
)
    requires
        state_ok(w, *old(world), old(errors)@, old(order)@),
        remaining <= w.len(),
        at_depth(w, expected_parent as int, (w.len() - remaining) as nat),
        w.children@[expected_parent as int]@.contains(entity),
        parent_global == final_global(w, expected_parent as int, (w.len() - remaining) as nat),
        changed == flag_out(w, expected_parent as int, (w.len() - remaining) as nat),
        w.len() - remaining >= 1 && recomputes(
            w,
            expected_parent as int,
            (w.len() - remaining) as nat,
        ) ==> old(order)@.contains(expected_parent),
    ensures
        state_ok(w, *final(world), final(errors)@, final(order)@),
        advances(w, *old(world), *final(world)),
        extends(old(errors)@, final(errors)@),
        extends(old(order)@, final(order)@),
        node_done(
            w,
            *final(world),
            final(errors)@,
            final(order)@,
            entity as int,
            expected_parent as int,
            (w.len() + 1 - remaining) as nat,
        ),
    decreases remaining, 1nat,
{
    let ghost d: nat = (w.len() + 1 - remaining) as nat;
    let ghost p = expected_parent as int;
    proof {
        assert(advances(w, *world, *world)) by {
            assert forall|z: int| 0 <= z < w.len() implies #[trigger] kept_or_settled(
                w,
                *world,
                *world,
                z,
            ) by {}
        }
    }
    if remaining == 0 {
        // Deeper than there are entities: only a cycle could lead here.
        proof {
            assert forall|e: HierarchyError|
                is_reported(w, e) && e.child == entity && e.expected_parent == expected_parent implies #[trigger] errors@.contains(
                e,
            ) by {
                let dd = choose|dd: nat| dd < w.len() && #[trigger] at_depth(w, p, dd);
                lemma_depth_unique(w, p, dd, (w.len() - remaining) as nat);
            }
        }
        return;
    }
    let n = world.parents.len();
    if entity >= n {
        // Missing from the lookup: skip this subtree.
        return;
    }
    let recorded = world.parents[entity];
    let consistent_link = match recorded {
        Some(q) => q == expected_parent,
        None => false,
    };
    if !consistent_link {
        let ghost before = errors@;
        let err = HierarchyError { child: entity, expected_parent, recorded_parent: recorded };
        errors.push(err);
        proof {
            assert(is_reported(w, err)) by {
                assert(at_depth(w, p, (w.len() - remaining) as nat));
            }
            assert(errors@[before.len() as int] == err);
            assert forall|e: HierarchyError|
                is_reported(w, e) && e.child == entity && e.expected_parent == expected_parent implies #[trigger] errors@.contains(
                e,
            ) by {
                assert(e == err);
            }
        }
        return;
    }
    proof {
        assert(at_depth(w, entity as int, d));
    }
    let local = world.translations[entity];
    let recompute = changed || world.translations_changed[entity];
    let ghost before = *world;
    let ghost before_order = order@;
    let global = if recompute {
        let g = parent_global.compose(&local);
        world.globals[entity] = g;
        world.globals_changed[entity] = true;
        order.push(entity);
        proof {
            assert(order@[before_order.len() as int] == entity);
            assert(order@.subrange(0, before_order.len() as int) =~= before_order);
            assert(listed_in_order(w, order@, before_order.len() as int)) by {
                assert(recomputes(w, entity as int, d));
                assert(w.parents@[entity as int].unwrap() == expected_parent);
            }
            lemma_order_extends(w, before_order, order@);
        }
        g
    } else {
        proof {
            assert(consistent(w, *world, entity as int));
            if is_settled(w, *world, entity as int) {
                let dd = choose|dd: nat|
                    dd <= w.len() && #[trigger] at_depth(w, entity as int, dd) && settled_at(
                        w,
                        *world,
                        entity as int,
                        dd,
                    );
                lemma_depth_unique(w, entity as int, dd, d);
            }
        }
        world.globals[entity]
    };
    proof {
        assert(settled_at(w, *world, entity as int, d));
        assert(is_settled(w, *world, entity as int));
        assert forall|z: int| 0 <= z < w.len() implies #[trigger] kept_or_settled(
            w,
            before,
            *world,
            z,
        ) by {}
        lemma_state_advances(w, before, *world, errors@, errors@, before_order, order@);
        lemma_advances_trans(w, *old(world), before, *world);
        assert(recomputes(w, entity as int, d) ==> order@.contains(entity));
    }
    let flag = recompute || world.children_changed[entity];
    let ghost mid = *world;
    let ghost mid_errors = errors@;
    let ghost mid_order = order@;
    propagate_children(world, errors, order, global, entity, flag, remaining - 1, Ghost(w));
    proof {
        lemma_advances_trans(w, *old(world), mid, *world);
        assert(kept_or_settled(w, mid, *world, entity as int));
        if !is_settled(w, *world, entity as int) {
            assert(settled_at(w, *world, entity as int, d));
        }
        lemma_extends_contains(mid_order, order@);
        assert forall|j: int| 0 <= j < w.children@[entity as int]@.len() implies #[trigger] node_done(
            w,
            *world,
            errors@,
            order@,
            w.children@[entity as int]@[j] as int,
            entity as int,
            d + 1,
        ) by {
            assert((w.len() + 1 - (remaining - 1)) as nat == d + 1);
            assert(node_done(
                w,
                *world,
                errors@,
                order@,
                w.children@[entity as int]@[j] as int,
                entity as int,
                (w.len() + 1 - (remaining - 1)) as nat,
            ));
        }
        lemma_subtree_from_children(w, *world, errors@, order@, entity as int, d);
        assert forall|e: HierarchyError|
            is_reported(w, e) && e.child == entity && e.expected_parent == expected_parent implies #[trigger] errors@.contains(
            e,
        ) by {}
        assert forall|i: int| 0 <= i < old(errors)@.len() implies #[trigger] errors@[i] == old(
            errors,
        )@[i] by {
            assert(mid_errors[i] == old(errors)@[i]);
        }
        assert forall|i: int| 0 <= i < old(order)@.len() implies #[trigger] order@[i] == old(
            order,
        )@[i] by {
            assert(before_order[i] == old(order)@[i]);
            assert(mid_order[i] == before_order[i]);
        }
    }
}

/// Propagates into every child that `entity`, at depth `w.len() - remaining`,
/// lists.
fn propagate_children<P: GridPrecision>(
    world: &mut World<P>,
    errors: &mut Vec<HierarchyError>,
    order: &mut Vec<usize>,
    global: Translation,
    entity: usize,
    changed: bool,
    remaining: usize,
    Ghost(w): Ghost<World<P>>,
)
    requires
        state_ok(w, *old(world), old(errors)@, old(order)@),
        remaining <= w.len(),
        at_depth(w, entity as int, (w.len() - remaining) as nat),
        global == final_global(w, entity as int, (w.len() - remaining) as nat),
        changed == flag_out(w, entity as int, (w.len() - remaining) as nat),
        w.len() - remaining >= 1 && recomputes(w, entity as int, (w.len() - remaining) as nat)
            ==> old(order)@.contains(entity),
    ensures
        state_ok(w, *final(world), final(errors)@, final(order)@),
        advances(w, *old(world), *final(world)),
        extends(old(errors)@, final(errors)@),
        extends(old(order)@, final(order)@),
        forall|j: int|
            0 <= j < w.children@[entity as int]@.len() ==> #[trigger] node_done(
                w,
                *final(world),
                final(errors)@,
                final(order)@,
                w.children@[entity as int]@[j] as int,
                entity as int,
                (w.len() + 1 - remaining) as nat,
            ),
    decreases remaining, 2nat,
{
    let ghost d: nat = (w.len() + 1 - remaining) as nat;
    let m = world.children[entity].len();
    let mut j: usize = 0;
    proof {
        assert forall|z: int| 0 <= z < w.len() implies #[trigger] kept_or_settled(
            w,
            *world,
            *world,
            z,
        ) by {}
    }
    while j < m
        invariant
            state_ok(w, *world, errors@, order@),
            advances(w, *old(world), *world),
            extends(old(errors)@, errors@),
            extends(old(order)@, order@),
            remaining <= w.len(),
            at_depth(w, entity as int, (w.len() - remaining) as nat),
            global == final_global(w, entity as int, (w.len() - remaining) as nat),
            changed == flag_out(w, entity as int, (w.len() - remaining) as nat),
            w.len() - remaining >= 1 && recomputes(w, entity as int, (w.len() - remaining) as nat)
                ==> order@.contains(entity),
            d == w.len() + 1 - remaining,
            m == w.children@[entity as int]@.len(),
            0 <= j <= m,
            forall|jj: int|
                0 <= jj < j ==> #[trigger] node_done(
                    w,
                    *world,
                    errors@,
                    order@,
                    w.children@[entity as int]@[jj] as int,
                    entity as int,
                    d,
                ),
        decreases m - j,
    {
        let child = world.children[entity][j];
        let ghost prev = *world;
        let ghost prev_errors = errors@;
        let ghost prev_order = order@;
        proof {
            assert(w.children@[entity as int]@[j as int] == child);
        }
        propagate_recursive(
            world,
            errors,
            order,
            global,
            child,
            entity,
            changed,
            remaining,
            Ghost(w),
        );
        proof {
            lemma_advances_trans(w, *old(world), prev, *world);
            lemma_extends_contains(prev_order, order@);
            assert forall|jj: int| 0 <= jj < j + 1 implies #[trigger] node_done(
                w,
                *world,
                errors@,
                order@,
                w.children@[entity as int]@[jj] as int,
                entity as int,
                d,
            ) by {
                if jj < j {
                    lemma_node_done_advances(
                        w,
                        prev,
                        *world,
                        prev_errors,
                        errors@,
                        prev_order,
                        order@,
                        w.children@[entity as int]@[jj] as int,
                        entity as int,
                        d,
                    );
                }
            }
            assert forall|i: int| 0 <= i < old(errors)@.len() implies #[trigger] errors@[i] == old(
                errors,
            )@[i] by {
                assert(prev_errors[i] == old(errors)@[i]);
            }
            assert forall|i: int| 0 <= i < old(order)@.len() implies #[trigger] order@[i] == old(
                order,
            )@[i] by {
                assert(prev_order[i] == old(order)@[i]);
            }
        }
        j += 1;
    }
}

/// What propagation leaves for entity `z` of `w` in `after`: an attached
/// entity holds its propagated translation, any other is untouched.
pub open spec fn propagated<P: GridPrecision>(w: World<P>, after: World<P>, z: int) -> bool {
    if is_attached(w, z) {
        settled_at(w, after, z, depth_of(w, z))
    } else {
        untouched(w, after, z)
    }
}

fn origin_cell_changed_exec<P: GridPrecision>(world: &World<P>) -> (r: bool)
    requires
        world.wf(),
    ensures
        r == origin_cell_changed(*world),
{
    let n = world.parents.len();
    let mut i: usize = 0;
    while i < n
        invariant
            world.wf(),
            n == world.len(),
            0 <= i <= n,
            forall|j: int|
                0 <= j < i ==> !(world.origins@[j] && world.cells@[j] is Some
                    && #[trigger] world.cells_changed@[j]),
        decreases n - i,
    {
        if world.origins[i] && world.cells[i].is_some() && world.cells_changed[i] {
            return true;
        }
        i += 1;
    }
    false
}

/// What one propagation pass reports.
pub struct Propagation {
    /// Every malformed link met, in the order met.
    pub errors: Vec<HierarchyError>,
    /// The children that got a new global translation, each after its parent
    /// where the parent is a recomputed child too.
    pub recomputed: Vec<usize>,
}

/// Composes translations down the hierarchy from every root, depth first.
///
/// A root without a cell whose translation changed takes it as its global
/// translation; a root with a cell keeps the one the origin-relative update
/// gave it. Below a root, an entity is recomputed from its parent's result
/// when its own translation changed or its parent hands down the flag,
/// which a node raises when it was recomputed or its list of children
/// changed, and a root also when its cell or the origin's cell changed.
///
/// A child whose recorded parent is not the entity listing it is reported
/// and its subtree is left alone; a listed child that does not exist is
/// skipped. The rest of the scene is propagated all the same.
pub fn transform_propagate_system<P: GridPrecision>(world: &mut World<P>) -> (r: Propagation)
    requires
        old(world).wf(),
    ensures
        same_inputs(*old(world), *final(world)),
        forall|z: int|
            0 <= z < old(world).len() ==> #[trigger] propagated(*old(world), *final(world), z),
        forall|i: int|
            0 <= i < r.errors@.len() ==> #[trigger] is_reported(*old(world), r.errors@[i]),
        forall|e: HierarchyError| #[trigger] is_reported(*old(world), e) ==> r.errors@.contains(e),
        forall|i: int|
            0 <= i < r.recomputed@.len() ==> #[trigger] listed_in_order(
                *old(world),
                r.recomputed@,
                i,
            ),
        forall|z: int|
            #[trigger] is_attached(*old(world), z) && depth_of(*old(world), z) >= 1 && recomputes(
                *old(world),
                z,
                depth_of(*old(world), z),
            ) ==> r.recomputed@.contains(z as usize),
{
    let ghost w = *world;
    let n = world.parents.len();
    let origin_changed = origin_cell_changed_exec(world);
    let mut errors: Vec<HierarchyError> = Vec::new();
    let mut order: Vec<usize> = Vec::new();
    let mut r: usize = 0;
    proof {
        assert forall|z: int| 0 <= z < w.len() implies #[trigger] consistent(w, *world, z) by {
            assert(untouched(w, *world, z));
        }
    }
    while r < n
        invariant
            state_ok(w, *world, errors@, order@),
            n == w.len(),
            origin_changed == origin_cell_changed(w),
            0 <= r <= n,
            forall|rr: int|
                0 <= rr < r && w.is_root(rr) ==> #[trigger] subtree_settled(w, *world, rr, 0),
            forall|rr: int|
                0 <= rr < r && w.is_root(rr) ==> #[trigger] subtree_errors_listed(
                    w,
                    errors@,
                    rr,
                    0,
                ),
            forall|rr: int|
                0 <= rr < r && w.is_root(rr) ==> #[trigger] subtree_ordered(w, order@, rr, 0),
        decreases n - r,
    {
        if world.parents[r].is_none() {
            let ghost prev = *world;
            let ghost prev_errors = errors@;
            let ghost prev_order = order@;
            let has_cell = world.cells[r].is_some();
            let translation_changed = world.translations_changed[r];
            if !has_cell && translation_changed {
                let t = world.translations[r];
                world.globals[r] = t;
                world.globals_changed[r] = true;
            } else {
                proof {
                    assert(consistent(w, *world, r as int));
                    if is_settled(w, *world, r as int) {
                        let dd = choose|dd: nat|
                            dd <= w.len() && #[trigger] at_depth(w, r as int, dd) && settled_at(
                                w,
                                *world,
                                r as int,
                                dd,
                            );
                        lemma_depth_unique(w, r as int, dd, 0);
                    }
                }
            }
            proof {
                assert(at_depth(w, r as int, 0));
                assert(settled_at(w, *world, r as int, 0));
                assert(is_settled(w, *world, r as int));
                assert forall|z: int| 0 <= z < w.len() implies #[trigger] kept_or_settled(
                    w,
                    prev,
                    *world,
                    z,
                ) by {}
                lemma_state_advances(w, prev, *world, errors@, errors@, order@, order@);
            }
            let global = world.globals[r];
            let flag = translation_changed || (has_cell && world.cells_changed[r]) || origin_changed
                || world.children_changed[r];
            let ghost mid = *world;
            propagate_children(world, &mut errors, &mut order, global, r, flag, n, Ghost(w));
            proof {
                lemma_advances_trans(w, prev, mid, *world);
                assert(kept_or_settled(w, mid, *world, r as int));
                if !is_settled(w, *world, r as int) {
                    assert(settled_at(w, *world, r as int, 0));
                }
                assert forall|j: int| 0 <= j < w.children@[r as int]@.len() implies #[trigger] node_done(
                    w,
                    *world,
                    errors@,
                    order@,
                    w.children@[r as int]@[j] as int,
                    r as int,
                    0 + 1,
                ) by {
                    assert(node_done(
                        w,
                        *world,
                        errors@,
                        order@,
                        w.children@[r as int]@[j] as int,
                        r as int,
                        (w.len() + 1 - n) as nat,
                    ));
                }
                lemma_subtree_from_children(w, *world, errors@, order@, r as int, 0);
                assert forall|rr: int| 0 <= rr <= r && w.is_root(rr) implies #[trigger] subtree_settled(
                    w,
                    *world,
                    rr,
                    0,
                ) && subtree_errors_listed(w, errors@, rr, 0) && subtree_ordered(
                    w,
                    order@,
                    rr,
                    0,
                ) by {
                    if rr < r {
                        assert(subtree_settled(w, prev, rr, 0));
                        assert(subtree_errors_listed(w, prev_errors, rr, 0));
                        assert(subtree_ordered(w, prev_order, rr, 0));
                        lemma_subtree_advances(
                            w,
                            prev,
                            *world,
                            prev_errors,
                            errors@,
                            prev_order,
                            order@,
                            rr,
                            0,
                        );
                    }
                }
                assert forall|rr: int| 0 <= rr <= r && w.is_root(rr) implies #[trigger] subtree_errors_listed(
                    w,
                    errors@,
                    rr,
                    0,
                ) by {
                    assert(subtree_settled(w, *world, rr, 0));
                }
                assert forall|rr: int| 0 <= rr <= r && w.is_root(rr) implies #[trigger] subtree_ordered(
                    w,
                    order@,
                    rr,
                    0,
                ) by {
                    assert(subtree_settled(w, *world, rr, 0));
                }
            }
        } else {
            proof {
                assert(!w.is_root(r as int));
                assert forall|rr: int| 0 <= rr <= r && w.is_root(rr) implies #[trigger] subtree_settled(
                    w,
                    *world,
                    rr,
                    0,
                ) && subtree_errors_listed(w, errors@, rr, 0) && subtree_ordered(
                    w,
                    order@,
                    rr,
                    0,
                ) by {
                    assert(rr < r);
                    assert(subtree_errors_listed(w, errors@, rr, 0));
                    assert(subtree_ordered(w, order@, rr, 0));
                }
            }
        }
        r += 1;
    }
    proof {
        assert forall|z: int| 0 <= z < w.len() implies #[trigger] propagated(w, *world, z) by {
            assert(consistent(w, *world, z));
            if is_attached(w, z) {
                let dz = depth_of(w, z);
                let root = ancestor(w, z, dz);
                lemma_ancestor_depth(w, z, dz, dz);
                assert(at_depth(w, root, 0));
                assert(subtree_settled(w, *world, root, 0));
                assert(ancestor(w, z, dz) == root);
                assert(at_depth(w, z, 0 + dz));
                assert(is_settled(w, *world, z));
                let dd = choose|dd: nat|
                    dd <= w.len() && #[trigger] at_depth(w, z, dd) && settled_at(w, *world, z, dd);
                lemma_depth_unique(w, z, dd, dz);
            } else {
                if is_settled(w, *world, z) {
                    let dd = choose|dd: nat|
                        dd <= w.len() && #[trigger] at_depth(w, z, dd) && settled_at(w, *world, z, dd);
                    assert(is_attached(w, z));
                }
            }
        }
        assert forall|e: HierarchyError| #[trigger] is_reported(w, e) implies errors@.contains(e) by {
            let p = e.expected_parent as int;
            let dp = choose|dp: nat| dp < w.len() && #[trigger] at_depth(w, p, dp);
            let root = ancestor(w, p, dp);
            lemma_ancestor_depth(w, p, dp, dp);
            assert(at_depth(w, root, 0));
            assert(subtree_settled(w, *world, root, 0));
            assert(subtree_errors_listed(w, errors@, root, 0));
            assert(ancestor(w, p, dp) == root);
            assert(at_depth(w, p, 0 + dp));
        }
        assert forall|z: int|
            #[trigger] is_attached(w, z) && depth_of(w, z) >= 1 && recomputes(
                w,
                z,
                depth_of(w, z),
            ) implies order@.contains(z as usize) by {
            let dz = depth_of(w, z);
            let root = ancestor(w, z, dz);
            lemma_ancestor_depth(w, z, dz, dz);
            assert(at_depth(w, root, 0));
            assert(subtree_settled(w, *world, root, 0));
            assert(subtree_ordered(w, order@, root, 0));
            assert(ancestor(w, z, dz) == root);
            assert(at_depth(w, z, 0 + dz));
            assert(recomputes(w, z, 0 + dz));
        }
    }
    Propagation { errors, recomputed: order }
}

/// A child listed by an attached entity, less than `w.len()` links deep, but
/// recording another parent, is reported by propagation.
pub proof fn lemma_malformed_link_reported<P: GridPrecision>(
    w: World<P>,
    child: usize,
    listed_by: usize,
    depth: nat,
)
    requires
        w.wf(),
        child < w.len(),
        depth < w.len(),
        at_depth(w, listed_by as int, depth),
        w.children@[listed_by as int]@.contains(child),
        w.parents@[child as int] != Some(listed_by),
    ensures
        is_reported(
            w,
            HierarchyError {
                child,
                expected_parent: listed_by,
                recorded_parent: w.parents@[child as int],
            },
        ),
{
    let e = HierarchyError {
        child,
        expected_parent: listed_by,
        recorded_parent: w.parents@[child as int],
    };
    assert(at_depth(w, e.expected_parent as int, depth));
}

} // verus!
