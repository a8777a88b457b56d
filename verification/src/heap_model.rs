//! The mathematical model shared by both heap-store strategies: a heap is a
//! sequence of slots, each empty or holding an object; reachability is the
//! transitive closure of the references stored in pairs, starting from the
//! root set.

use vstd::prelude::*;
use crate::object::{GcPtr, Object, ObjectType};

verus! {

/// Slot `i` of the heap currently holds an object.
pub open spec fn live(h: Seq<Option<Object>>, i: int) -> bool {
    0 <= i < h.len() && h[i] is Some
}

/// The object held by slot `i`.
pub open spec fn obj_at(h: Seq<Option<Object>>, i: int) -> Object {
    h[i]->Some_0
}

/// Slot `i` holds an object whose mark bit is set.
pub open spec fn is_marked(h: Seq<Option<Object>>, i: int) -> bool {
    live(h, i) && obj_at(h, i).marked
}

/// The object in slot `i` stores a reference to slot `j`.
pub open spec fn edge(h: Seq<Option<Object>>, i: int, j: int) -> bool {
    live(h, i) && match obj_at(h, i).obj_type {
        ObjectType::Pair(p) => j == p.head.0 as int || j == p.tail.0 as int,
        ObjectType::Int(_) => false,
    }
}

/// Every reference stored in a live object resolves to a live object: the
/// collector's core safety invariant.
pub open spec fn heap_wf(h: Seq<Option<Object>>) -> bool {
    forall|i: int, j: int| edge(h, i, j) ==> live(h, j)
}

/// The two heaps hold objects in the same slots with the same payloads; only
/// the mark bits may differ.
pub open spec fn same_shape(h1: Seq<Option<Object>>, h2: Seq<Option<Object>>) -> bool {
    &&& h1.len() == h2.len()
    &&& forall|i: int| #![trigger h1[i]] #![trigger h2[i]] 0 <= i < h1.len() ==> {
        &&& (h1[i] is Some <==> h2[i] is Some)
        &&& (h1[i] is Some ==> obj_at(h1, i).obj_type == obj_at(h2, i).obj_type)
    }
}

/// Slot `j` is reachable from slot `i` in at most `n` reference steps.
pub open spec fn reach_n(h: Seq<Option<Object>>, i: int, j: int, n: nat) -> bool
    decreases n,
{
    live(h, i) && (i == j || (n > 0 && exists|k: int|
        #[trigger] edge(h, i, k) && reach_n(h, k, j, (n - 1) as nat)))
}

/// Slot `j` is reachable from slot `i`.
pub open spec fn reach(h: Seq<Option<Object>>, i: int, j: int) -> bool {
    exists|n: nat| reach_n(h, i, j, n)
}

/// Slot `j` is reachable from some reference in the root set.
pub open spec fn root_reach(h: Seq<Option<Object>>, roots: Seq<GcPtr>, j: int) -> bool {
    exists|r: int| 0 <= r < roots.len() && #[trigger] reach(h, roots[r].0 as int, j)
}

/// How many slots of the heap hold an object.
pub open spec fn live_count(h: Seq<Option<Object>>) -> nat
    decreases h.len(),
{
    if h.len() == 0 {
        0
    } else {
        live_count(h.drop_last()) + (if h.last() is Some { 1nat } else { 0nat })
    }
}

/// How many slots hold an object whose mark bit is clear.
pub open spec fn unmarked_count(h: Seq<Option<Object>>) -> nat
    decreases h.len(),
{
    if h.len() == 0 {
        0
    } else {
        unmarked_count(h.drop_last())
            + (if h.last() is Some && !h.last()->Some_0.marked { 1nat } else { 0nat })
    }
}

/// The live-object count at which a collection runs before the next
/// allocation proceeds, until the first cycle recomputes it.
pub const INITIAL_GC_THRESHOLD: usize = 32;

/// The collection threshold recomputed after a cycle that left `live_after`
/// objects: twice the live count, floored at one so that an empty heap does
/// not force a collection on every allocation.
pub open spec fn grow_threshold(live_after: nat) -> nat {
    if live_after == 0 { 1 } else { 2 * live_after }
}

/// `post` is the outcome of a completed collection of `pre` with root set
/// `roots`: exactly the reachable slots stay occupied, the surviving objects
/// keep their payloads, and every surviving mark bit is clear again.
pub open spec fn collected(pre: Seq<Option<Object>>, roots: Seq<GcPtr>, post: Seq<Option<Object>>) -> bool {
    &&& post.len() == pre.len()
    &&& forall|i: int| #[trigger] live(post, i) <==> root_reach(pre, roots, i)
    &&& forall|i: int| #[trigger] live(post, i) ==>
        obj_at(post, i).obj_type == obj_at(pre, i).obj_type && !obj_at(post, i).marked
}

/// `post` is `pre` with one fresh unmarked object of payload `obj_type`
/// stored in the previously-empty slot `r`, either a reused slot or a slot
/// appended at the end.
pub open spec fn allocates(pre: Seq<Option<Object>>, post: Seq<Option<Object>>, r: GcPtr, obj_type: ObjectType) -> bool {
    ||| (r.0 as int == pre.len()
        && post == pre.push(Some((Object { marked: false, obj_type }))))
    ||| (0 <= r.0 < pre.len() && pre[r.0 as int] is None
        && post == pre.update(r.0 as int, Some((Object { marked: false, obj_type }))))
}

/// Updating one slot changes the live count by the difference between the
/// new and the old occupancy of that slot.
pub proof fn lemma_live_count_update(h: Seq<Option<Object>>, i: int, v: Option<Object>)
    requires
        0 <= i < h.len(),
    ensures
        live_count(h.update(i, v)) + (if h[i] is Some { 1nat } else { 0nat })
            == live_count(h) + (if v is Some { 1nat } else { 0nat }),
    decreases h.len(),
{
    let hu = h.update(i, v);
    if i == h.len() - 1 {
        assert(hu.drop_last() =~= h.drop_last());
    } else {
        assert(hu.drop_last() =~= h.drop_last().update(i, v));
        assert(hu.last() == h.last());
        lemma_live_count_update(h.drop_last(), i, v);
    }
}

/// Updating one slot changes the count of unmarked objects by the difference
/// between the new and the old contribution of that slot.
pub proof fn lemma_unmarked_count_update(h: Seq<Option<Object>>, i: int, v: Option<Object>)
    requires
        0 <= i < h.len(),
    ensures
        unmarked_count(h.update(i, v))
            + (if h[i] is Some && !h[i]->Some_0.marked { 1nat } else { 0nat })
            == unmarked_count(h) + (if v is Some && !v->Some_0.marked { 1nat } else { 0nat }),
    decreases h.len(),
{
    let hu = h.update(i, v);
    if i == h.len() - 1 {
        assert(hu.drop_last() =~= h.drop_last());
    } else {
        assert(hu.drop_last() =~= h.drop_last().update(i, v));
        assert(hu.last() == h.last());
        lemma_unmarked_count_update(h.drop_last(), i, v);
    }
}

/// A heap with one more slot appended counts that slot's occupancy on top.
pub proof fn lemma_live_count_push(h: Seq<Option<Object>>, v: Option<Object>)
    ensures
        live_count(h.push(v)) == live_count(h) + (if v is Some { 1nat } else { 0nat }),
{
    assert(h.push(v).drop_last() =~= h);
}

/// If every slot live in `h1` is live in `h2` too, `h1` holds no more
/// objects than `h2`.
pub proof fn lemma_live_count_pointwise_le(h1: Seq<Option<Object>>, h2: Seq<Option<Object>>)
    requires
        h1.len() == h2.len(),
        forall|i: int| live(h1, i) ==> live(h2, i),
    ensures
        live_count(h1) <= live_count(h2),
    decreases h1.len(),
{
    if h1.len() > 0 {
        let g1 = h1.drop_last();
        let g2 = h2.drop_last();
        assert forall|i: int| live(g1, i) implies live(g2, i) by {
            assert(live(h1, i));
        }
        lemma_live_count_pointwise_le(g1, g2);
        if h1.last() is Some {
            assert(live(h1, h1.len() - 1));
        }
    }
}

/// Heaps whose slots are live in exactly the same places hold the same
/// number of objects.
pub proof fn lemma_live_count_pointwise_eq(h1: Seq<Option<Object>>, h2: Seq<Option<Object>>)
    requires
        h1.len() == h2.len(),
        forall|i: int| live(h1, i) <==> live(h2, i),
    ensures
        live_count(h1) == live_count(h2),
{
    lemma_live_count_pointwise_le(h1, h2);
    lemma_live_count_pointwise_le(h2, h1);
}

/// A live slot contributes at least one to the live count.
pub proof fn lemma_live_count_pos(h: Seq<Option<Object>>, i: int)
    requires
        live(h, i),
    ensures
        live_count(h) >= 1,
{
    lemma_live_count_update(h, i, None);
}

/// Heaps of the same shape have the same edges.
pub proof fn lemma_same_shape_edge(h1: Seq<Option<Object>>, h2: Seq<Option<Object>>, i: int, j: int)
    requires
        same_shape(h1, h2),
    ensures
        edge(h1, i, j) <==> edge(h2, i, j),
{
}

/// Sameness of shape is symmetric.
pub proof fn lemma_same_shape_sym(h1: Seq<Option<Object>>, h2: Seq<Option<Object>>)
    requires
        same_shape(h1, h2),
    ensures
        same_shape(h2, h1),
{
}

/// Sameness of shape is transitive.
pub proof fn lemma_same_shape_trans(h1: Seq<Option<Object>>, h2: Seq<Option<Object>>, h3: Seq<Option<Object>>)
    requires
        same_shape(h1, h2),
        same_shape(h2, h3),
    ensures
        same_shape(h1, h3),
{
}

/// Heaps of the same shape satisfy the safety invariant together.
pub proof fn lemma_same_shape_wf(h1: Seq<Option<Object>>, h2: Seq<Option<Object>>)
    requires
        same_shape(h1, h2),
        heap_wf(h1),
    ensures
        heap_wf(h2),
{
    assert forall|i: int, j: int| edge(h2, i, j) implies live(h2, j) by {
        lemma_same_shape_edge(h1, h2, i, j);
        assert(live(h1, j));
    }
}

/// Reachability ignores mark bits: it is preserved between heaps of the same
/// shape.
pub proof fn lemma_same_shape_reach_n(h1: Seq<Option<Object>>, h2: Seq<Option<Object>>, i: int, j: int, n: nat)
    requires
        same_shape(h1, h2),
        reach_n(h1, i, j, n),
    ensures
        reach_n(h2, i, j, n),
    decreases n,
{
    assert(live(h2, i));
    if i != j {
        let k = choose|k: int| #[trigger] edge(h1, i, k) && reach_n(h1, k, j, (n - 1) as nat);
        lemma_same_shape_edge(h1, h2, i, k);
        lemma_same_shape_reach_n(h1, h2, k, j, (n - 1) as nat);
        assert(edge(h2, i, k) && reach_n(h2, k, j, (n - 1) as nat));
    }
}

/// Everything reachable is live, and so is the starting point.
pub proof fn lemma_reach_n_live(h: Seq<Option<Object>>, i: int, j: int, n: nat)
    requires
        reach_n(h, i, j, n),
    ensures
        live(h, i),
        live(h, j),
    decreases n,
{
    if i != j {
        let k = choose|k: int| #[trigger] edge(h, i, k) && reach_n(h, k, j, (n - 1) as nat);
        lemma_reach_n_live(h, k, j, (n - 1) as nat);
    }
}

/// More fuel never loses a path.
pub proof fn lemma_reach_n_mono(h: Seq<Option<Object>>, i: int, j: int, n: nat, m: nat)
    requires
        reach_n(h, i, j, n),
        n <= m,
    ensures
        reach_n(h, i, j, m),
    decreases n,
{
    if i != j {
        let k = choose|k: int| #[trigger] edge(h, i, k) && reach_n(h, k, j, (n - 1) as nat);
        lemma_reach_n_mono(h, k, j, (n - 1) as nat, (m - 1) as nat);
        assert(edge(h, i, k) && reach_n(h, k, j, (m - 1) as nat));
    }
}

/// Reachability extends backwards across one stored reference.
pub proof fn lemma_reach_step(h: Seq<Option<Object>>, i: int, k: int, j: int)
    requires
        live(h, i),
        edge(h, i, k),
        reach(h, k, j),
    ensures
        reach(h, i, j),
{
    let n = choose|n: nat| reach_n(h, k, j, n);
    assert(reach_n(h, i, j, n + 1));
}

/// Reachability extends forwards across one stored reference.
pub proof fn lemma_reach_extend(h: Seq<Option<Object>>, a: int, i: int, k: int, n: nat)
    requires
        reach_n(h, a, i, n),
        edge(h, i, k),
        live(h, k),
    ensures
        reach_n(h, a, k, n + 1),
    decreases n,
{
    if a == i {
        assert(reach_n(h, k, k, 0));
        lemma_reach_n_mono(h, k, k, 0, n);
        assert(edge(h, a, k) && reach_n(h, k, k, n));
    } else {
        let m = choose|m: int| #[trigger] edge(h, a, m) && reach_n(h, m, i, (n - 1) as nat);
        lemma_reach_extend(h, m, i, k, (n - 1) as nat);
        assert(edge(h, a, m) && reach_n(h, m, k, n));
    }
}

/// The set of root-reachable slots is closed under stored references.
pub proof fn lemma_root_reach_step(h: Seq<Option<Object>>, roots: Seq<GcPtr>, i: int, k: int)
    requires
        root_reach(h, roots, i),
        edge(h, i, k),
        live(h, k),
    ensures
        root_reach(h, roots, k),
{
    let r = choose|r: int| 0 <= r < roots.len() && #[trigger] reach(h, roots[r].0 as int, i);
    let n = choose|n: nat| reach_n(h, roots[r].0 as int, i, n);
    lemma_reach_extend(h, roots[r].0 as int, i, k, n);
    assert(reach(h, roots[r].0 as int, k));
}

/// Whatever is reachable in the collected heap was already reachable before
/// the collection.
proof fn lemma_collected_reach_fwd(pre: Seq<Option<Object>>, roots: Seq<GcPtr>, post: Seq<Option<Object>>, i: int, j: int, n: nat)
    requires
        collected(pre, roots, post),
        reach_n(post, i, j, n),
    ensures
        root_reach(pre, roots, j),
    decreases n,
{
    if i == j {
        assert(live(post, j));
    } else {
        let k = choose|k: int| #[trigger] edge(post, i, k) && reach_n(post, k, j, (n - 1) as nat);
        lemma_collected_reach_fwd(pre, roots, post, k, j, (n - 1) as nat);
    }
}

/// Whatever was reachable before a collection is still reachable in the
/// collected heap: the surviving objects keep their payloads, and every slot
/// on a path from a root survives.
proof fn lemma_collected_reach_bwd(pre: Seq<Option<Object>>, roots: Seq<GcPtr>, post: Seq<Option<Object>>, i: int, j: int, n: nat)
    requires
        collected(pre, roots, post),
        reach_n(pre, i, j, n),
        root_reach(pre, roots, i),
    ensures
        reach(post, i, j),
    decreases n,
{
    assert(live(post, i));
    if i == j {
        assert(reach_n(post, i, j, 0));
    } else {
        let k = choose|k: int| #[trigger] edge(pre, i, k) && reach_n(pre, k, j, (n - 1) as nat);
        lemma_reach_n_live(pre, k, j, (n - 1) as nat);
        lemma_root_reach_step(pre, roots, i, k);
        lemma_collected_reach_bwd(pre, roots, post, k, j, (n - 1) as nat);
        assert(edge(post, i, k));
        lemma_reach_step(post, i, k, j);
    }
}

/// An immediately-repeated collection reclaims nothing: a heap that has just
/// been collected is its own collection, so running the collector again on
/// it, with the same root set and no intervening mutation, leaves every
/// object live and the live count unchanged.
pub proof fn lemma_collection_idempotent(pre: Seq<Option<Object>>, roots: Seq<GcPtr>, post: Seq<Option<Object>>)
    requires
        collected(pre, roots, post),
    ensures
        forall|j: int| root_reach(post, roots, j) <==> root_reach(pre, roots, j),
        collected(post, roots, post),
{
    assert forall|j: int| root_reach(post, roots, j) implies root_reach(pre, roots, j) by {
        let r = choose|r: int| 0 <= r < roots.len() && #[trigger] reach(post, roots[r].0 as int, j);
        let n = choose|n: nat| reach_n(post, roots[r].0 as int, j, n);
        lemma_collected_reach_fwd(pre, roots, post, roots[r].0 as int, j, n);
    }
    assert forall|j: int| root_reach(pre, roots, j) implies root_reach(post, roots, j) by {
        let r = choose|r: int| 0 <= r < roots.len() && #[trigger] reach(pre, roots[r].0 as int, j);
        let n = choose|n: nat| reach_n(pre, roots[r].0 as int, j, n);
        assert(live(pre, roots[r].0 as int)) by {
            lemma_reach_n_live(pre, roots[r].0 as int, j, n);
        }
        assert(reach_n(pre, roots[r].0 as int, roots[r].0 as int, 0));
        assert(reach(pre, roots[r].0 as int, roots[r].0 as int));
        assert(root_reach(pre, roots, roots[r].0 as int));
        lemma_collected_reach_bwd(pre, roots, post, roots[r].0 as int, j, n);
        assert(reach(post, roots[r].0 as int, j));
    }
}

/// A marked slot whose marked successors are always marked passes its mark
/// to everything it reaches: the completeness argument for the mark phase.
pub proof fn lemma_reach_marked(h: Seq<Option<Object>>, i: int, j: int, n: nat)
    requires
        reach_n(h, i, j, n),
        is_marked(h, i),
        forall|a: int, b: int| is_marked(h, a) && #[trigger] edge(h, a, b) ==> is_marked(h, b),
    ensures
        is_marked(h, j),
    decreases n,
{
    if i != j {
        let k = choose|k: int| #[trigger] edge(h, i, k) && reach_n(h, k, j, (n - 1) as nat);
        assert(is_marked(h, k));
        lemma_reach_marked(h, k, j, (n - 1) as nat);
    }
}

} // verus!
