//! The list heap-store strategy: every allocation appends a fresh slot to
//! the table, and a separate list of references, in allocation order, plays
//! the role of the owned chain of nodes. Sweep walks that list, drops the
//! reclaimed entries, and keeps the survivors in order; vacated slots are
//! never reused.

use vstd::prelude::*;
use crate::object::{GcPtr, Object, ObjectType, Pair};
use crate::heap_model::{
    live, obj_at, is_marked, edge, heap_wf, reach, reach_n, root_reach,
    collected, allocates, grow_threshold, INITIAL_GC_THRESHOLD,
    lemma_root_reach_step, lemma_reach_n_live, lemma_collection_idempotent,
};
use crate::mark_phase::mark_roots;

verus! {

/// Some entry of the reference list names slot `i`.
pub open spec fn list_has(os: Seq<GcPtr>, i: int) -> bool {
    exists|k: int| 0 <= k < os.len() && (#[trigger] os[k]).0 == i
}

/// The virtual machine over the list heap store: its operand stack is the
/// collector's root set, and `objects` lists every live object once, in
/// allocation order.
pub struct Vm {
    pub num_objects: usize,
    pub max_objects: usize,
    pub heap: Vec<Option<Object>>,
    pub objects: Vec<GcPtr>,
    pub stack: Vec<GcPtr>,
}

impl Vm {
    /// The resting invariant: stored references resolve to live objects,
    /// `objects` names exactly the live slots and names each once, the
    /// count is the list's length, every root is live, and no mark bit is
    /// set between cycles.
    pub open spec fn wf(self) -> bool {
        &&& heap_wf(self.heap@)
        &&& self.num_objects == self.objects@.len()
        &&& forall|k: int| 0 <= k < self.objects@.len()
            ==> live(self.heap@, (#[trigger] self.objects@[k]).0 as int)
        &&& forall|k1: int, k2: int|
            0 <= k1 < self.objects@.len() && 0 <= k2 < self.objects@.len() && k1 != k2
            ==> (#[trigger] self.objects@[k1]).0 != (#[trigger] self.objects@[k2]).0
        &&& forall|i: int| #[trigger] live(self.heap@, i) ==> list_has(self.objects@, i)
        &&& forall|r: int| 0 <= r < self.stack@.len()
            ==> live(self.heap@, (#[trigger] self.stack@[r]).0 as int)
        &&& forall|i: int| !is_marked(self.heap@, i)
    }

    pub fn new() -> (vm: Vm)
        ensures
            vm.wf(),
            vm.num_objects == 0,
            vm.max_objects == INITIAL_GC_THRESHOLD,
            vm.heap@.len() == 0,
            vm.objects@.len() == 0,
            vm.stack@.len() == 0,
    {
        Vm {
            num_objects: 0,
            max_objects: INITIAL_GC_THRESHOLD,
            heap: Vec::new(),
            objects: Vec::new(),
            stack: Vec::new(),
        }
    }

    /// The sweep phase: walk the allocation-order list once, vacate the
    /// slot of every unmarked entry and drop the entry, clear the mark bit
    /// of every survivor and keep its entry, in order.
    #[verifier::loop_isolation(false)]
    #[verifier::rlimit(100)]
    fn sweep(&mut self)
        requires
            old(self).num_objects == old(self).objects@.len(),
            forall|k: int| 0 <= k < old(self).objects@.len()
                ==> live(old(self).heap@, (#[trigger] old(self).objects@[k]).0 as int),
            forall|k1: int, k2: int|
                0 <= k1 < old(self).objects@.len() && 0 <= k2 < old(self).objects@.len()
                && k1 != k2
                ==> (#[trigger] old(self).objects@[k1]).0
                    != (#[trigger] old(self).objects@[k2]).0,
            forall|i: int| #[trigger] live(old(self).heap@, i)
                ==> list_has(old(self).objects@, i),
        ensures
            final(self).heap@.len() == old(self).heap@.len(),
            forall|i: int| live(final(self).heap@, i) <==> is_marked(old(self).heap@, i),
            forall|i: int| live(final(self).heap@, i)
                ==> obj_at(final(self).heap@, i).obj_type == obj_at(old(self).heap@, i).obj_type
                    && !obj_at(final(self).heap@, i).marked,
            final(self).num_objects == final(self).objects@.len(),
            final(self).num_objects <= old(self).num_objects,
            forall|k: int| 0 <= k < final(self).objects@.len()
                ==> live(final(self).heap@, (#[trigger] final(self).objects@[k]).0 as int),
            forall|k1: int, k2: int|
                0 <= k1 < final(self).objects@.len() && 0 <= k2 < final(self).objects@.len()
                && k1 != k2
                ==> (#[trigger] final(self).objects@[k1]).0
                    != (#[trigger] final(self).objects@[k2]).0,
            forall|i: int| #[trigger] live(final(self).heap@, i)
                ==> list_has(final(self).objects@, i),
            final(self).stack == old(self).stack,
            final(self).max_objects == old(self).max_objects,
    {
        let ghost hpre = self.heap@;
        let ghost opre = self.objects@;
        let mut kept: Vec<GcPtr> = Vec::new();
        let ghost mut srcs = Seq::<int>::empty();
        let mut k: usize = 0;
        while k < self.objects.len()
            invariant
                k <= opre.len(),
                self.objects@ == opre,
                self.heap@.len() == hpre.len(),
                kept@.len() <= k,
                self.num_objects == opre.len() - k + kept@.len(),
                // Slots the walk has not reached, and slots the list never
                // names, are untouched.
                forall|q: int| k <= q < opre.len()
                    ==> self.heap@[(#[trigger] opre[q]).0 as int] == hpre[opre[q].0 as int],
                forall|i: int| 0 <= i < hpre.len() && !list_has(opre, i)
                    ==> self.heap@[i] == hpre[i],
                // Processed entries: survivors cleared, the rest vacated.
                forall|q: int| 0 <= q < k && is_marked(hpre, (#[trigger] opre[q]).0 as int)
                    ==> live(self.heap@, opre[q].0 as int)
                        && obj_at(self.heap@, opre[q].0 as int).obj_type
                            == obj_at(hpre, opre[q].0 as int).obj_type
                        && !obj_at(self.heap@, opre[q].0 as int).marked,
                forall|q: int| 0 <= q < k && !is_marked(hpre, (#[trigger] opre[q]).0 as int)
                    ==> !live(self.heap@, opre[q].0 as int),
                // The kept list holds the marked prefix entries in order;
                // `srcs` records where each came from.
                srcs.len() == kept@.len(),
                forall|m: int| 0 <= m < srcs.len()
                    ==> 0 <= #[trigger] srcs[m] < k
                        && opre[srcs[m]] == kept@[m]
                        && is_marked(hpre, opre[srcs[m]].0 as int),
                forall|m1: int, m2: int| 0 <= m1 < m2 < srcs.len()
                    ==> #[trigger] srcs[m1] < #[trigger] srcs[m2],
                forall|q: int| 0 <= q < k && is_marked(hpre, (#[trigger] opre[q]).0 as int)
                    ==> exists|m: int| 0 <= m < kept@.len() && (#[trigger] kept@[m]) == opre[q],
                self.stack == old(self).stack,
                self.max_objects == old(self).max_objects,
            decreases opre.len() - k,
        {
            let p = self.objects[k];
            let ghost hloop = self.heap@;
            proof {
                assert(live(hpre, p.0 as int));
                assert(self.heap@[p.0 as int] == hpre[p.0 as int]);
            }
            let slot = self.heap[p.0];
            match slot {
                Some(obj) => {
                    if obj.marked {
                        let ghost kpre = kept@;
                        self.heap[p.0] = Some(Object { marked: false, obj_type: obj.obj_type });
                        kept.push(p);
                        proof {
                            srcs = srcs.push(k as int);
                            let hnew = self.heap@;
                            assert(hnew == hloop.update(p.0 as int,
                                Some((Object { marked: false, obj_type: obj.obj_type }))));
                            assert(is_marked(hpre, p.0 as int));
                            assert(kept@ == kpre.push(p));
                            assert forall|q: int| k + 1 <= q < opre.len()
                                implies hnew[(#[trigger] opre[q]).0 as int]
                                    == hpre[opre[q].0 as int] by {
                                assert(opre[q].0 != opre[k as int].0);
                            }
                            assert forall|i: int| 0 <= i < hpre.len() && !list_has(opre, i)
                                implies hnew[i] == hpre[i] by {
                                assert(opre[k as int].0 != i);
                            }
                            assert forall|q: int| 0 <= q < k + 1
                                && is_marked(hpre, (#[trigger] opre[q]).0 as int)
                                implies exists|m: int| 0 <= m < kept@.len()
                                    && (#[trigger] kept@[m]) == opre[q] by {
                                if q < k as int {
                                    let m = choose|m: int| 0 <= m < kpre.len()
                                        && (#[trigger] kpre[m]) == opre[q];
                                    assert(kept@[m] == opre[q]);
                                } else {
                                    assert(kept@[kept@.len() - 1] == opre[q]);
                                }
                            }
                        }
                    } else {
                        self.heap[p.0] = None;
                        self.num_objects = self.num_objects - 1;
                        proof {
                            let hnew = self.heap@;
                            assert(hnew == hloop.update(p.0 as int, None));
                            assert(!is_marked(hpre, p.0 as int));
                            assert forall|q: int| k + 1 <= q < opre.len()
                                implies hnew[(#[trigger] opre[q]).0 as int]
                                    == hpre[opre[q].0 as int] by {
                                assert(opre[q].0 != opre[k as int].0);
                            }
                            assert forall|i: int| 0 <= i < hpre.len() && !list_has(opre, i)
                                implies hnew[i] == hpre[i] by {
                                assert(opre[k as int].0 != i);
                            }
                        }
                    }
                }
                None => {
                    proof {
                        assert(false);
                    }
                }
            }
            k = k + 1;
        }
        self.objects = kept;
        proof {
            let hfin = self.heap@;
            assert forall|i: int| live(hfin, i) implies is_marked(hpre, i) by {
                if !list_has(opre, i) {
                    assert(hfin[i] == hpre[i]);
                    assert(live(hpre, i));
                    assert(list_has(opre, i));
                } else {
                    let q = choose|q: int| 0 <= q < opre.len() && (#[trigger] opre[q]).0 == i;
                    assert(is_marked(hpre, opre[q].0 as int));
                }
            }
            assert forall|i: int| is_marked(hpre, i) implies live(hfin, i) by {
                assert(live(hpre, i));
                assert(list_has(opre, i));
                let q = choose|q: int| 0 <= q < opre.len() && (#[trigger] opre[q]).0 == i;
                assert(live(hfin, opre[q].0 as int));
            }
            // The rebuilt list names exactly the surviving slots, each once.
            assert forall|m: int| 0 <= m < self.objects@.len()
                implies live(hfin, (#[trigger] self.objects@[m]).0 as int) by {
                assert(opre[srcs[m]] == kept@[m]);
                assert(is_marked(hpre, opre[srcs[m]].0 as int));
            }
            assert forall|m1: int, m2: int|
                0 <= m1 < self.objects@.len() && 0 <= m2 < self.objects@.len() && m1 != m2
                implies (#[trigger] self.objects@[m1]).0 != (#[trigger] self.objects@[m2]).0 by {
                assert(opre[srcs[m1]] == kept@[m1]);
                assert(opre[srcs[m2]] == kept@[m2]);
                assert(srcs[m1] != srcs[m2]);
            }
            assert forall|i: int| #[trigger] live(hfin, i)
                implies list_has(self.objects@, i) by {
                assert(is_marked(hpre, i));
                assert(list_has(opre, i));
                let q = choose|q: int| 0 <= q < opre.len() && (#[trigger] opre[q]).0 == i;
                assert(is_marked(hpre, opre[q].0 as int));
                let m = choose|m: int| 0 <= m < kept@.len() && (#[trigger] kept@[m]) == opre[q];
                assert(self.objects@[m].0 == i);
            }
        }
    }

    /// Force a collection cycle now: mark everything reachable from the
    /// operand stack, then sweep, then recompute the threshold from the
    /// post-sweep live count.
    pub fn gc(&mut self)
        requires
            old(self).wf(),
            old(self).num_objects <= usize::MAX / 2,
        ensures
            final(self).wf(),
            final(self).stack == old(self).stack,
            final(self).heap@.len() == old(self).heap@.len(),
            collected(old(self).heap@, old(self).stack@, final(self).heap@),
            collected(final(self).heap@, final(self).stack@, final(self).heap@),
            final(self).num_objects <= old(self).num_objects,
            final(self).num_objects == final(self).objects@.len(),
            final(self).max_objects == grow_threshold(final(self).num_objects as nat),
    {
        let ghost h0 = self.heap@;
        let ghost roots = self.stack@;
        mark_roots(&mut self.heap, &self.stack);
        let ghost hm = self.heap@;
        proof {
            assert forall|k: int| 0 <= k < self.objects@.len()
                implies live(hm, (#[trigger] self.objects@[k]).0 as int) by {
                assert(live(h0, self.objects@[k].0 as int));
            }
            assert forall|i: int| #[trigger] live(hm, i)
                implies list_has(self.objects@, i) by {
                assert(live(h0, i));
            }
        }
        self.sweep();
        let ghost hsw = self.heap@;
        proof {
            assert forall|i: int| live(hsw, i)
                implies obj_at(hsw, i).obj_type == obj_at(h0, i).obj_type
                    && !obj_at(hsw, i).marked by {
                assert(is_marked(hm, i));
            }
            assert(collected(h0, roots, hsw));

            assert forall|i: int, j: int| edge(hsw, i, j) implies live(hsw, j) by {
                assert(is_marked(hm, i));
                assert(edge(h0, i, j));
                assert(live(h0, j));
                lemma_root_reach_step(h0, roots, i, j);
            }

            assert forall|r: int| 0 <= r < roots.len()
                implies live(hsw, (#[trigger] roots[r]).0 as int) by {
                assert(live(h0, roots[r].0 as int));
                assert(reach_n(h0, roots[r].0 as int, roots[r].0 as int, 0));
                assert(reach(h0, roots[r].0 as int, roots[r].0 as int));
                assert(root_reach(h0, roots, roots[r].0 as int));
            }

            lemma_collection_idempotent(h0, roots, hsw);
        }
        let live_now = self.num_objects;
        self.max_objects = if live_now == 0 { 1 } else { 2 * live_now };
    }

    /// Store one fresh unmarked object in a slot appended at the end of the
    /// table, and append its reference to the allocation-order list.
    fn alloc_slot(&mut self, obj_type: ObjectType) -> (r: GcPtr)
        requires
            old(self).wf(),
            old(self).num_objects < usize::MAX,
            match obj_type {
                ObjectType::Pair(p) => live(old(self).heap@, p.head.0 as int)
                    && live(old(self).heap@, p.tail.0 as int),
                ObjectType::Int(_) => true,
            },
        ensures
            final(self).wf(),
            allocates(old(self).heap@, final(self).heap@, r, obj_type),
            live(final(self).heap@, r.0 as int),
            obj_at(final(self).heap@, r.0 as int) == (Object { marked: false, obj_type }),
            final(self).num_objects == old(self).num_objects + 1,
            final(self).max_objects == old(self).max_objects,
            final(self).stack == old(self).stack,
    {
        let ghost h0 = self.heap@;
        let idx = self.heap.len();
        self.heap.push(Some(Object { marked: false, obj_type }));
        self.objects.push(GcPtr(idx));
        self.num_objects = self.num_objects + 1;
        let r = GcPtr(idx);
        proof {
            let hnew = self.heap@;
            assert forall|i: int| live(h0, i) implies live(hnew, i) by {}
            assert forall|i: int, j: int| edge(hnew, i, j) implies live(hnew, j) by {
                if i != idx as int {
                    assert(edge(h0, i, j));
                    assert(live(h0, j));
                }
            }
            assert forall|i: int| !is_marked(hnew, i) by {
                if i != idx as int {
                    assert(!is_marked(h0, i));
                }
            }
            assert forall|i: int| #[trigger] live(hnew, i)
                implies list_has(self.objects@, i) by {
                if i == idx as int {
                    assert(self.objects@.last().0 == i);
                } else {
                    assert(live(h0, i));
                    let q = choose|q: int| 0 <= q < old(self).objects@.len()
                        && (#[trigger] old(self).objects@[q]).0 == i;
                    assert(self.objects@[q].0 == i);
                }
            }
            assert forall|q: int| 0 <= q < self.stack@.len()
                implies live(hnew, (#[trigger] self.stack@[q]).0 as int) by {
                assert(live(h0, self.stack@[q].0 as int));
            }
        }
        r
    }

    /// Allocate a new object, running a collection first when the live
    /// count has reached the threshold. The payload's references must be
    /// root-reachable so that such a collection cannot reclaim them.
    fn new_object(&mut self, obj_type: ObjectType) -> (r: GcPtr)
        requires
            old(self).wf(),
            old(self).num_objects <= usize::MAX / 2,
            match obj_type {
                ObjectType::Pair(p) => root_reach(old(self).heap@, old(self).stack@, p.head.0 as int)
                    && root_reach(old(self).heap@, old(self).stack@, p.tail.0 as int),
                ObjectType::Int(_) => true,
            },
        ensures
            final(self).wf(),
            final(self).stack == old(self).stack,
            live(final(self).heap@, r.0 as int),
            obj_at(final(self).heap@, r.0 as int) == (Object { marked: false, obj_type }),
            forall|i: int| root_reach(old(self).heap@, old(self).stack@, i)
                ==> live(final(self).heap@, i)
                    && obj_at(final(self).heap@, i).obj_type == obj_at(old(self).heap@, i).obj_type,
            old(self).num_objects != old(self).max_objects ==> (
                final(self).num_objects == old(self).num_objects + 1
                && final(self).max_objects == old(self).max_objects
                && allocates(old(self).heap@, final(self).heap@, r, obj_type)
            ),
            old(self).num_objects == old(self).max_objects ==> (
                (exists|mid: Seq<Option<Object>>|
                    #[trigger] collected(old(self).heap@, old(self).stack@, mid)
                    && allocates(mid, final(self).heap@, r, obj_type))
                && final(self).num_objects >= 1
                && final(self).max_objects
                    == grow_threshold((final(self).num_objects - 1) as nat)
            ),
    {
        let ghost h0 = self.heap@;
        let ghost roots = self.stack@;
        let ghost ran_gc = self.num_objects == self.max_objects;
        if self.num_objects == self.max_objects {
            self.gc();
        }
        let ghost hmid = self.heap@;
        proof {
            match obj_type {
                ObjectType::Pair(p) => {
                    assert(live(hmid, p.head.0 as int) && live(hmid, p.tail.0 as int)) by {
                        if ran_gc {
                            assert(collected(h0, roots, hmid));
                        } else {
                            let rr = choose|rr: int| 0 <= rr < roots.len()
                                && #[trigger] reach(h0, roots[rr].0 as int, p.head.0 as int);
                            let n = choose|n: nat| reach_n(h0, roots[rr].0 as int, p.head.0 as int, n);
                            lemma_reach_n_live(h0, roots[rr].0 as int, p.head.0 as int, n);
                            let rt = choose|rt: int| 0 <= rt < roots.len()
                                && #[trigger] reach(h0, roots[rt].0 as int, p.tail.0 as int);
                            let m = choose|m: nat| reach_n(h0, roots[rt].0 as int, p.tail.0 as int, m);
                            lemma_reach_n_live(h0, roots[rt].0 as int, p.tail.0 as int, m);
                        }
                    }
                }
                ObjectType::Int(_) => {}
            }
        }
        let r = self.alloc_slot(obj_type);
        proof {
            assert forall|i: int| root_reach(h0, roots, i)
                implies live(self.heap@, i)
                    && obj_at(self.heap@, i).obj_type == obj_at(h0, i).obj_type by {
                if ran_gc {
                    assert(collected(h0, roots, hmid));
                    assert(live(hmid, i));
                    assert(obj_at(hmid, i).obj_type == obj_at(h0, i).obj_type);
                } else {
                    let rr = choose|rr: int| 0 <= rr < roots.len()
                        && #[trigger] reach(h0, roots[rr].0 as int, i);
                    let n = choose|n: nat| reach_n(h0, roots[rr].0 as int, i, n);
                    lemma_reach_n_live(h0, roots[rr].0 as int, i, n);
                    assert(live(hmid, i) && obj_at(hmid, i).obj_type == obj_at(h0, i).obj_type);
                }
                assert(allocates(hmid, self.heap@, r, obj_type));
                assert(i != r.0 as int);
                assert(self.heap@[i] == hmid[i]);
            }
        }
        r
    }

    /// Push a new integer object onto the operand stack.
    pub fn push_int(&mut self, val: i64)
        requires
            old(self).wf(),
            old(self).num_objects <= usize::MAX / 2,
        ensures
            final(self).wf(),
            final(self).stack@ == old(self).stack@.push(final(self).stack@.last()),
            live(final(self).heap@, final(self).stack@.last().0 as int),
            obj_at(final(self).heap@, final(self).stack@.last().0 as int)
                == (Object { marked: false, obj_type: ObjectType::Int(val) }),
            forall|i: int| root_reach(old(self).heap@, old(self).stack@, i)
                ==> live(final(self).heap@, i)
                    && obj_at(final(self).heap@, i).obj_type == obj_at(old(self).heap@, i).obj_type,
            old(self).num_objects != old(self).max_objects ==> (
                final(self).num_objects == old(self).num_objects + 1
                && final(self).max_objects == old(self).max_objects
                && allocates(old(self).heap@, final(self).heap@, final(self).stack@.last(),
                    ObjectType::Int(val))
            ),
            old(self).num_objects == old(self).max_objects ==> (
                (exists|mid: Seq<Option<Object>>|
                    #[trigger] collected(old(self).heap@, old(self).stack@, mid)
                    && allocates(mid, final(self).heap@, final(self).stack@.last(),
                        ObjectType::Int(val)))
                && final(self).num_objects >= 1
                && final(self).max_objects
                    == grow_threshold((final(self).num_objects - 1) as nat)
            ),
    {
        let obj = self.new_object(ObjectType::Int(val));
        self.stack.push(obj);
    }

    /// Pop two references, allocate a pair of them, and push the result.
    /// The collector may run before the allocation; the operands are still
    /// on the stack at that point, so it cannot reclaim them.
    pub fn push_pair(&mut self)
        requires
            old(self).wf(),
            old(self).stack@.len() >= 2,
            old(self).num_objects <= usize::MAX / 2,
        ensures
            final(self).wf(),
            final(self).stack@ == old(self).stack@
                .subrange(0, old(self).stack@.len() - 2)
                .push(final(self).stack@.last()),
            live(final(self).heap@, final(self).stack@.last().0 as int),
            obj_at(final(self).heap@, final(self).stack@.last().0 as int)
                == (Object {
                    marked: false,
                    obj_type: ObjectType::Pair((Pair {
                        head: old(self).stack@[old(self).stack@.len() - 2],
                        tail: old(self).stack@[old(self).stack@.len() - 1],
                    })),
                }),
            forall|i: int| root_reach(old(self).heap@, old(self).stack@, i)
                ==> live(final(self).heap@, i)
                    && obj_at(final(self).heap@, i).obj_type == obj_at(old(self).heap@, i).obj_type,
            old(self).num_objects != old(self).max_objects ==> (
                final(self).num_objects == old(self).num_objects + 1
                && final(self).max_objects == old(self).max_objects
                && allocates(old(self).heap@, final(self).heap@, final(self).stack@.last(),
                    ObjectType::Pair((Pair {
                        head: old(self).stack@[old(self).stack@.len() - 2],
                        tail: old(self).stack@[old(self).stack@.len() - 1],
                    })))
            ),
            old(self).num_objects == old(self).max_objects ==> (
                (exists|mid: Seq<Option<Object>>|
                    #[trigger] collected(old(self).heap@, old(self).stack@, mid)
                    && allocates(mid, final(self).heap@, final(self).stack@.last(),
                        ObjectType::Pair((Pair {
                            head: old(self).stack@[old(self).stack@.len() - 2],
                            tail: old(self).stack@[old(self).stack@.len() - 1],
                        }))))
                && final(self).num_objects >= 1
                && final(self).max_objects
                    == grow_threshold((final(self).num_objects - 1) as nat)
            ),
    {
        let tail = self.stack[self.stack.len() - 1];
        let head = self.stack[self.stack.len() - 2];
        proof {
            let roots = self.stack@;
            let h0 = self.heap@;
            assert(live(h0, head.0 as int) && live(h0, tail.0 as int));
            assert(reach_n(h0, head.0 as int, head.0 as int, 0));
            assert(reach(h0, head.0 as int, head.0 as int));
            assert(root_reach(h0, roots, head.0 as int));
            assert(reach_n(h0, tail.0 as int, tail.0 as int, 0));
            assert(reach(h0, tail.0 as int, tail.0 as int));
            assert(root_reach(h0, roots, tail.0 as int));
        }
        let obj = self.new_object(ObjectType::Pair(Pair { head, tail }));
        self.stack.pop();
        self.stack.pop();
        self.stack.push(obj);
        proof {
            assert(self.stack@ =~= old(self).stack@
                .subrange(0, old(self).stack@.len() - 2)
                .push(obj));
        }
    }

    /// Pop the top of the operand stack. Popping an empty stack is a caller
    /// error, excluded by the precondition.
    pub fn pop(&mut self) -> (r: GcPtr)
        requires
            old(self).wf(),
            old(self).stack@.len() > 0,
        ensures
            final(self).wf(),
            r == old(self).stack@.last(),
            final(self).stack@ == old(self).stack@.drop_last(),
            final(self).heap == old(self).heap,
            final(self).objects == old(self).objects,
            final(self).num_objects == old(self).num_objects,
            final(self).max_objects == old(self).max_objects,
    {
        let r = self.stack.pop().unwrap();
        proof {
            assert(self.stack@ =~= old(self).stack@.drop_last());
        }
        r
    }
}

} // verus!
