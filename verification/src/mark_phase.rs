//! The mark phase, shared by both heap-store strategies: a depth-first
//! reachability walk from every root, stopping at already-marked objects so
//! that shared substructure is visited once and the walk terminates.

use vstd::prelude::*;
use crate::object::{GcPtr, Object, ObjectType};
use crate::heap_model::{
    live, is_marked, edge, heap_wf, same_shape, reach, reach_n, root_reach, unmarked_count,
    lemma_unmarked_count_update, lemma_same_shape_sym, lemma_same_shape_trans,
    lemma_same_shape_edge, lemma_same_shape_wf, lemma_same_shape_reach_n,
    lemma_reach_step, lemma_reach_marked,
};

verus! {

/// Mark the object in slot `p` and everything reachable from it. An object
/// found already marked stops the walk, which bounds the recursion by the
/// number of unmarked objects and makes sharing harmless: afterwards, the
/// marked slots are the previously marked ones plus slots reachable from
/// `p`, and every newly marked slot has all its successors marked.
pub(crate) fn mark(heap: &mut Vec<Option<Object>>, p: GcPtr)
    requires
        heap_wf(old(heap)@),
        live(old(heap)@, p.0 as int),
    ensures
        same_shape(old(heap)@, final(heap)@),
        forall|i: int| is_marked(old(heap)@, i) ==> is_marked(final(heap)@, i),
        is_marked(final(heap)@, p.0 as int),
        forall|i: int| is_marked(final(heap)@, i) && !is_marked(old(heap)@, i)
            ==> reach(old(heap)@, p.0 as int, i),
        forall|i: int, k: int| is_marked(final(heap)@, i) && !is_marked(old(heap)@, i)
            && edge(final(heap)@, i, k) ==> is_marked(final(heap)@, k),
        unmarked_count(final(heap)@) <= unmarked_count(old(heap)@),
    decreases unmarked_count(heap@),
{
    let idx = p.0;
    let obj = heap[idx].unwrap();
    if obj.marked {
        return;
    }
    let ghost h0 = heap@;
    heap[idx] = Some(Object { marked: true, obj_type: obj.obj_type });
    let ghost h1 = heap@;
    proof {
        assert(h1 == h0.update(idx as int, Some((Object { marked: true, obj_type: obj.obj_type }))));
        lemma_unmarked_count_update(h0, idx as int, h1[idx as int]);
        assert(same_shape(h0, h1));
        lemma_same_shape_wf(h0, h1);
        assert(forall|i: int| is_marked(h1, i) <==> is_marked(h0, i) || i == idx as int);
    }
    match obj.obj_type {
        ObjectType::Int(_) => {
            proof {
                assert(reach_n(h0, idx as int, idx as int, 0));
                assert(reach(h0, idx as int, idx as int));
                assert forall|i: int, k: int|
                    is_marked(h1, i) && !is_marked(h0, i) && edge(h1, i, k)
                    implies is_marked(h1, k) by {
                    lemma_same_shape_edge(h0, h1, i, k);
                }
            }
        }
        ObjectType::Pair(pair) => {
            let ghost hd = pair.head.0 as int;
            let ghost tl = pair.tail.0 as int;
            proof {
                assert(edge(h0, idx as int, hd));
                assert(edge(h0, idx as int, tl));
                assert(live(h0, hd) && live(h0, tl));
            }
            mark(heap, pair.head);
            let ghost h2 = heap@;
            proof {
                lemma_same_shape_wf(h1, h2);
                lemma_same_shape_edge(h1, h2, idx as int, tl);
            }
            mark(heap, pair.tail);
            let ghost h3 = heap@;
            proof {
                lemma_same_shape_trans(h1, h2, h3);
                lemma_same_shape_trans(h0, h1, h3);
                lemma_same_shape_sym(h0, h1);
                lemma_same_shape_sym(h1, h2);
                lemma_same_shape_trans(h2, h1, h0);

                // Marks only ever grow across the three stages.
                assert(forall|i: int| is_marked(h0, i) ==> is_marked(h3, i));
                assert(is_marked(h3, idx as int));

                // Every newly marked slot is reachable from `idx` in the
                // heap as it stood at entry.
                assert forall|i: int| is_marked(h3, i) && !is_marked(h0, i)
                    implies reach(h0, idx as int, i) by {
                    if i == idx as int {
                        assert(reach_n(h0, idx as int, idx as int, 0));
                        assert(reach(h0, idx as int, i));
                    } else if is_marked(h2, i) {
                        assert(!is_marked(h1, i));
                        assert(reach(h1, hd, i));
                        let n = choose|n: nat| reach_n(h1, hd, i, n);
                        lemma_same_shape_reach_n(h1, h0, hd, i, n);
                        assert(reach(h0, hd, i));
                        lemma_reach_step(h0, idx as int, hd, i);
                    } else {
                        assert(reach(h2, tl, i));
                        let n = choose|n: nat| reach_n(h2, tl, i, n);
                        lemma_same_shape_reach_n(h2, h0, tl, i, n);
                        assert(reach(h0, tl, i));
                        lemma_reach_step(h0, idx as int, tl, i);
                    }
                }

                // Every newly marked slot has all its successors marked.
                assert forall|i: int, k: int|
                    is_marked(h3, i) && !is_marked(h0, i) && edge(h3, i, k)
                    implies is_marked(h3, k) by {
                    if i == idx as int {
                        lemma_same_shape_edge(h0, h3, i, k);
                        assert(k == hd || k == tl);
                        assert(is_marked(h2, hd));
                        assert(is_marked(h3, tl));
                    } else if is_marked(h2, i) {
                        lemma_same_shape_sym(h2, h3);
                        lemma_same_shape_edge(h2, h3, i, k);
                        assert(edge(h2, i, k));
                        assert(is_marked(h2, k));
                    }
                }
            }
        }
    }
}

/// Mark everything reachable from the root set. Starting from a heap with no
/// marks set, the marked slots afterwards are exactly the root-reachable
/// ones.
#[verifier::loop_isolation(false)]
pub(crate) fn mark_roots(heap: &mut Vec<Option<Object>>, roots: &Vec<GcPtr>)
    requires
        heap_wf(old(heap)@),
        forall|r: int| 0 <= r < roots@.len() ==> live(old(heap)@, #[trigger] roots@[r].0 as int),
        forall|i: int| !is_marked(old(heap)@, i),
    ensures
        same_shape(old(heap)@, final(heap)@),
        forall|i: int| is_marked(final(heap)@, i) <==> root_reach(old(heap)@, roots@, i),
{
    let ghost h0 = heap@;
    let mut r: usize = 0;
    while r < roots.len()
        invariant
            0 <= r <= roots@.len(),
            same_shape(h0, heap@),
            forall|q: int| 0 <= q < r ==> is_marked(heap@, #[trigger] roots@[q].0 as int),
            forall|i: int| #[trigger] is_marked(heap@, i)
                ==> exists|q: int| 0 <= q < r && reach(h0, roots@[q].0 as int, i),
            forall|i: int, k: int| is_marked(heap@, i) && #[trigger] edge(heap@, i, k)
                ==> is_marked(heap@, k),
        decreases roots@.len() - r,
    {
        let ghost hprev = heap@;
        proof {
            lemma_same_shape_wf(h0, hprev);
        }
        mark(heap, roots[r]);
        let ghost hcur = heap@;
        proof {
            lemma_same_shape_trans(h0, hprev, hcur);
            assert(is_marked(hcur, roots@[r as int].0 as int));
            assert forall|i: int| #[trigger] is_marked(hcur, i)
                implies exists|q: int| 0 <= q <= r && reach(h0, roots@[q].0 as int, i) by {
                if is_marked(hprev, i) {
                    let q = choose|q: int| 0 <= q < r && reach(h0, roots@[q].0 as int, i);
                    assert(0 <= q <= r && reach(h0, roots@[q].0 as int, i));
                } else {
                    assert(reach(hprev, roots@[r as int].0 as int, i));
                    let n = choose|n: nat| reach_n(hprev, roots@[r as int].0 as int, i, n);
                    lemma_same_shape_sym(h0, hprev);
                    lemma_same_shape_reach_n(hprev, h0, roots@[r as int].0 as int, i, n);
                    assert(reach(h0, roots@[r as int].0 as int, i));
                    assert(0 <= r as int <= r && reach(h0, roots@[r as int].0 as int, i));
                }
            }
            assert forall|i: int, k: int|
                is_marked(hcur, i) && #[trigger] edge(hcur, i, k)
                implies is_marked(hcur, k) by {
                if is_marked(hprev, i) {
                    lemma_same_shape_sym(hprev, hcur);
                    lemma_same_shape_edge(hprev, hcur, i, k);
                    assert(edge(hprev, i, k));
                    assert(is_marked(hprev, k));
                }
            }
        }
        r = r + 1;
    }
    proof {
        assert forall|i: int| is_marked(heap@, i) implies root_reach(h0, roots@, i) by {
            let q = choose|q: int| 0 <= q < r && reach(h0, roots@[q].0 as int, i);
            assert(0 <= q < roots@.len() && reach(h0, roots@[q].0 as int, i));
        }
        assert forall|i: int| root_reach(h0, roots@, i) implies is_marked(heap@, i) by {
            let q = choose|q: int| 0 <= q < roots@.len()
                && #[trigger] reach(h0, roots@[q].0 as int, i);
            let n = choose|n: nat| reach_n(h0, roots@[q].0 as int, i, n);
            lemma_same_shape_reach_n(h0, heap@, roots@[q].0 as int, i, n);
            lemma_reach_marked(heap@, roots@[q].0 as int, i, n);
        }
    }
}

} // verus!
