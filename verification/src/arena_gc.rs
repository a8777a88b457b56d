//! The arena heap-store strategy: objects live in a growable, densely
//! indexed slot table, and a LIFO free list of vacated slots is consulted by
//! allocation before the table grows. Sweep makes a single pass over the
//! table in index order.

use vstd::prelude::*;
use crate::object::{GcPtr, Object, ObjectType, Pair};
use crate::heap_model::{
    live, obj_at, is_marked, edge, heap_wf, reach, reach_n, root_reach,
    live_count, collected, allocates, grow_threshold, INITIAL_GC_THRESHOLD,
    lemma_live_count_update, lemma_live_count_push, lemma_live_count_pos,
    lemma_live_count_pointwise_le, lemma_live_count_pointwise_eq,
    lemma_root_reach_step, lemma_reach_n_live,
    lemma_collection_idempotent,
};
use crate::mark_phase::mark_roots;

verus! {

/// How many slots the table reserves up front.
pub const DEFAULT_HEAP_SIZE: usize = 1 << 16;

/// The free list holds exactly the empty slots of the table, each once.
pub open spec fn free_wf(h: Seq<Option<Object>>, fl: Seq<GcPtr>) -> bool {
    &&& forall|k: int| 0 <= k < fl.len()
        ==> (#[trigger] fl[k]).0 < h.len() && h[fl[k].0 as int] is None
    &&& forall|k1: int, k2: int| 0 <= k1 < fl.len() && 0 <= k2 < fl.len() && k1 != k2
        ==> (#[trigger] fl[k1]).0 != (#[trigger] fl[k2]).0
    &&& forall|i: int| 0 <= i < h.len() && h[i] is None
        ==> exists|k: int| 0 <= k < fl.len() && (#[trigger] fl[k]).0 == i
}

/// The virtual machine over the arena heap store: its operand stack is the
/// collector's root set.
pub struct Vm {
    pub num_objects: usize,
    pub max_objects: usize,
    pub heap: Vec<Option<Object>>,
    pub free_list: Vec<GcPtr>,
    pub stack: Vec<GcPtr>,
}

impl Vm {
    /// The resting invariant: stored references resolve to live objects, the
    /// live count is exact, the free list mirrors the empty slots, every
    /// root is live, and no mark bit is set between cycles.
    pub open spec fn wf(self) -> bool {
        &&& heap_wf(self.heap@)
        &&& self.num_objects == live_count(self.heap@)
        &&& free_wf(self.heap@, self.free_list@)
        &&& forall|r: int| 0 <= r < self.stack@.len()
            ==> live(self.heap@, (#[trigger] self.stack@[r]).0 as int)
        &&& forall|i: int| !is_marked(self.heap@, i)
    }

    pub fn new() -> (vm: Vm)
        ensures
            vm.wf(),
            vm.num_objects == 0,
            vm.max_objects == INITIAL_GC_THRESHOLD,
            vm.heap@.len() == 0,
            vm.stack@.len() == 0,
    {
        Vm {
            num_objects: 0,
            max_objects: INITIAL_GC_THRESHOLD,
            heap: Vec::with_capacity(DEFAULT_HEAP_SIZE),
            free_list: Vec::new(),
            stack: Vec::new(),
        }
    }

    pub fn with_capacity(size: usize) -> (vm: Vm)
        ensures
            vm.wf(),
            vm.num_objects == 0,
            vm.max_objects == INITIAL_GC_THRESHOLD,
            vm.heap@.len() == 0,
            vm.stack@.len() == 0,
    {
        Vm {
            num_objects: 0,
            max_objects: INITIAL_GC_THRESHOLD,
            heap: Vec::with_capacity(size),
            free_list: Vec::new(),
            stack: Vec::new(),
        }
    }

    /// The sweep phase: reclaim every unmarked object, vacating its slot
    /// onto the free list, and clear the mark bit of every survivor.
    #[verifier::loop_isolation(false)]
    fn sweep(&mut self)
        requires
            old(self).num_objects == live_count(old(self).heap@),
            free_wf(old(self).heap@, old(self).free_list@),
        ensures
            final(self).heap@.len() == old(self).heap@.len(),
            forall|i: int| live(final(self).heap@, i) <==> is_marked(old(self).heap@, i),
            forall|i: int| live(final(self).heap@, i)
                ==> obj_at(final(self).heap@, i).obj_type == obj_at(old(self).heap@, i).obj_type
                    && !obj_at(final(self).heap@, i).marked,
            final(self).num_objects == live_count(final(self).heap@),
            free_wf(final(self).heap@, final(self).free_list@),
            final(self).stack == old(self).stack,
            final(self).max_objects == old(self).max_objects,
    {
        let ghost hpre = self.heap@;
        let n = self.heap.len();
        let mut i: usize = 0;
        while i < n
            invariant
                i <= n,
                self.heap@.len() == n,
                forall|j: int| i <= j < n ==> self.heap@[j] == hpre[j],
                forall|j: int| 0 <= j < i ==> (live(self.heap@, j) <==> is_marked(hpre, j)),
                forall|j: int| 0 <= j < i && live(self.heap@, j)
                    ==> obj_at(self.heap@, j).obj_type == obj_at(hpre, j).obj_type
                        && !obj_at(self.heap@, j).marked,
                self.num_objects == live_count(self.heap@),
                free_wf(self.heap@, self.free_list@),
                self.stack == old(self).stack,
                self.max_objects == old(self).max_objects,
            decreases n - i,
        {
            let ghost hloop = self.heap@;
            let ghost flloop = self.free_list@;
            let slot = self.heap[i];
            match slot {
                Some(obj) => {
                    if !obj.marked {
                        proof {
                            lemma_live_count_pos(hloop, i as int);
                            lemma_live_count_update(hloop, i as int, None);
                        }
                        self.heap[i] = None;
                        self.free_list.push(GcPtr(i));
                        self.num_objects = self.num_objects - 1;
                        proof {
                            let hnew = self.heap@;
                            let flnew = self.free_list@;
                            assert(hnew == hloop.update(i as int, None));
                            assert(flnew == flloop.push(GcPtr(i)));
                            assert(hloop[i as int] == hpre[i as int]);
                            assert(!is_marked(hpre, i as int));
                            assert(!live(hnew, i as int));
                            assert forall|j: int| 0 <= j <= i && live(hnew, j)
                                implies obj_at(hnew, j).obj_type == obj_at(hpre, j).obj_type
                                    && !obj_at(hnew, j).marked by {
                                if j < i as int {
                                    assert(live(hloop, j));
                                    assert(obj_at(hloop, j).obj_type == obj_at(hpre, j).obj_type);
                                    assert(!obj_at(hloop, j).marked);
                                }
                            }
                            assert forall|z: int| 0 <= z < hnew.len() && hnew[z] is None
                                implies exists|k: int| 0 <= k < flnew.len()
                                    && (#[trigger] flnew[k]).0 == z by {
                                if z == i as int {
                                    assert(flnew[flnew.len() - 1].0 == z);
                                } else {
                                    let k = choose|k: int| 0 <= k < flloop.len()
                                        && (#[trigger] flloop[k]).0 == z;
                                    assert(flnew[k].0 == z);
                                }
                            }
                        }
                    } else {
                        proof {
                            lemma_live_count_update(
                                hloop,
                                i as int,
                                Some((Object { marked: false, obj_type: obj.obj_type })),
                            );
                        }
                        self.heap[i] = Some(Object { marked: false, obj_type: obj.obj_type });
                        proof {
                            let hnew = self.heap@;
                            assert(hnew == hloop.update(i as int,
                                Some((Object { marked: false, obj_type: obj.obj_type }))));
                            assert(hloop[i as int] == hpre[i as int]);
                            assert(is_marked(hpre, i as int));
                            assert(obj_at(hnew, i as int).obj_type == obj_at(hpre, i as int).obj_type);
                            assert(!obj_at(hnew, i as int).marked);
                            assert forall|j: int| 0 <= j <= i && live(hnew, j)
                                implies obj_at(hnew, j).obj_type == obj_at(hpre, j).obj_type
                                    && !obj_at(hnew, j).marked by {
                                if j < i as int {
                                    assert(live(hloop, j));
                                    assert(obj_at(hloop, j).obj_type == obj_at(hpre, j).obj_type);
                                    assert(!obj_at(hloop, j).marked);
                                }
                            }
                            assert forall|z: int| 0 <= z < hnew.len() && hnew[z] is None
                                implies exists|k: int| 0 <= k < flloop.len()
                                    && (#[trigger] flloop[k]).0 == z by {
                                assert(hloop[z] is None);
                            }
                        }
                    }
                }
                None => {
                    proof {
                        assert(self.heap@[i as int] == hpre[i as int]);
                        assert(!is_marked(hpre, i as int));
                    }
                }
            }
            i = i + 1;
        }
    }

    /// Force a collection cycle now: mark everything reachable from the
    /// operand stack, then sweep, then recompute the threshold from the
    /// post-sweep live count.
    pub fn gc(&mut self)
        requires
            old(self).wf(),
            old(self).num_objects <= usize::MAX / 2,
        ensures
            final(self).wf(),
            final(self).stack == old(self).stack,
            final(self).heap@.len() == old(self).heap@.len(),
            collected(old(self).heap@, old(self).stack@, final(self).heap@),
            collected(final(self).heap@, final(self).stack@, final(self).heap@),
            final(self).num_objects <= old(self).num_objects,
            final(self).num_objects == live_count(final(self).heap@),
            final(self).max_objects == grow_threshold(final(self).num_objects as nat),
    {
        let ghost h0 = self.heap@;
        let ghost roots = self.stack@;
        mark_roots(&mut self.heap, &self.stack);
        let ghost hm = self.heap@;
        proof {
            assert forall|i: int| live(hm, i) <==> live(h0, i) by {}
            lemma_live_count_pointwise_eq(h0, hm);
            assert forall|z: int| 0 <= z < hm.len() && hm[z] is None
                implies exists|k: int| 0 <= k < self.free_list@.len()
                    && (#[trigger] self.free_list@[k]).0 == z by {
                assert(0 <= z < h0.len());
                assert(h0[z] is Some <==> hm[z] is Some);
                assert(h0[z] is None);
                let k = choose|k: int| 0 <= k < self.free_list@.len()
                    && (#[trigger] self.free_list@[k]).0 == z;
                assert(self.free_list@[k].0 == z);
            }
            assert forall|k: int| 0 <= k < self.free_list@.len()
                implies (#[trigger] self.free_list@[k]).0 < hm.len()
                    && hm[self.free_list@[k].0 as int] is None by {
                assert(h0[self.free_list@[k].0 as int] is None);
            }
            assert(free_wf(hm, self.free_list@));
        }
        self.sweep();
        let ghost hsw = self.heap@;
        proof {
            // The sweep's survivors are exactly the marked slots, which are
            // exactly the root-reachable ones; payloads survive untouched.
            assert forall|i: int| live(hsw, i)
                implies obj_at(hsw, i).obj_type == obj_at(h0, i).obj_type
                    && !obj_at(hsw, i).marked by {
                assert(is_marked(hm, i));
            }
            assert(collected(h0, roots, hsw));

            // The safety invariant holds again: a survivor's references
            // point at root-reachable, hence surviving, objects.
            assert forall|i: int, j: int| edge(hsw, i, j) implies live(hsw, j) by {
                assert(is_marked(hm, i));
                assert(edge(h0, i, j));
                assert(live(h0, j));
                lemma_root_reach_step(h0, roots, i, j);
            }

            // Every root survives: it reaches itself.
            assert forall|r: int| 0 <= r < roots.len()
                implies live(hsw, (#[trigger] roots[r]).0 as int) by {
                assert(live(h0, roots[r].0 as int));
                assert(reach_n(h0, roots[r].0 as int, roots[r].0 as int, 0));
                assert(reach(h0, roots[r].0 as int, roots[r].0 as int));
                assert(root_reach(h0, roots, roots[r].0 as int));
            }

            lemma_collection_idempotent(h0, roots, hsw);

            assert forall|i: int| live(hsw, i) implies live(h0, i) by {}
            lemma_live_count_pointwise_le(hsw, h0);
        }
        let live_now = self.num_objects;
        self.max_objects = if live_now == 0 { 1 } else { 2 * live_now };
    }

    /// Store one fresh unmarked object, reusing a vacated slot when the free
    /// list has one and growing the table otherwise.
    fn alloc_slot(&mut self, obj_type: ObjectType) -> (r: GcPtr)
        requires
            old(self).wf(),
            old(self).num_objects < usize::MAX,
            match obj_type {
                ObjectType::Pair(p) => live(old(self).heap@, p.head.0 as int)
                    && live(old(self).heap@, p.tail.0 as int),
                ObjectType::Int(_) => true,
            },
        ensures
            final(self).wf(),
            allocates(old(self).heap@, final(self).heap@, r, obj_type),
            live(final(self).heap@, r.0 as int),
            obj_at(final(self).heap@, r.0 as int) == (Object { marked: false, obj_type }),
            final(self).num_objects == old(self).num_objects + 1,
            final(self).max_objects == old(self).max_objects,
            final(self).stack == old(self).stack,
    {
        let ghost h0 = self.heap@;
        let ghost fl0 = self.free_list@;
        self.num_objects = self.num_objects + 1;
        let obj = Object { marked: false, obj_type };
        let r = match self.free_list.pop() {
            Some(p) => {
                proof {
                    assert(fl0[fl0.len() - 1] == p);
                    lemma_live_count_update(h0, p.0 as int, Some(obj));
                }
                self.heap[p.0] = Some(obj);
                proof {
                    let hnew = self.heap@;
                    let flnew = self.free_list@;
                    assert(hnew == h0.update(p.0 as int, Some(obj)));
                    assert(flnew == fl0.subrange(0, fl0.len() - 1));
                    assert forall|k: int| 0 <= k < flnew.len()
                        implies (#[trigger] flnew[k]).0 < hnew.len()
                            && hnew[flnew[k].0 as int] is None by {
                        assert(flnew[k] == fl0[k]);
                        assert(fl0[k].0 != fl0[fl0.len() - 1].0);
                    }
                    assert forall|z: int| 0 <= z < hnew.len() && hnew[z] is None
                        implies exists|k: int| 0 <= k < flnew.len()
                            && (#[trigger] flnew[k]).0 == z by {
                        assert(h0[z] is None);
                        let k = choose|k: int| 0 <= k < fl0.len() && (#[trigger] fl0[k]).0 == z;
                        assert(k != fl0.len() - 1);
                        assert(flnew[k].0 == z);
                    }
                }
                p
            }
            None => {
                let idx = self.heap.len();
                self.heap.push(Some(obj));
                proof {
                    lemma_live_count_push(h0, Some(obj));
                    let hnew = self.heap@;
                    assert forall|z: int| 0 <= z < hnew.len() && hnew[z] is None
                        implies exists|k: int| 0 <= k < self.free_list@.len()
                            && (#[trigger] self.free_list@[k]).0 == z by {
                        assert(0 <= z < h0.len() && h0[z] is None);
                    }
                }
                GcPtr(idx)
            }
        };
        proof {
            let hnew = self.heap@;
            assert(allocates(h0, hnew, r, obj_type));
            assert forall|i: int| live(h0, i) implies live(hnew, i) by {}
            // Old objects kept their payloads, so their references still
            // resolve; the new object's references were required live.
            assert forall|i: int, j: int| edge(hnew, i, j) implies live(hnew, j) by {
                if i != r.0 as int {
                    assert(edge(h0, i, j));
                    assert(live(h0, j));
                }
            }
            assert forall|i: int| !is_marked(hnew, i) by {
                if i != r.0 as int {
                    assert(!is_marked(h0, i));
                }
            }
            assert forall|q: int| 0 <= q < self.stack@.len()
                implies live(hnew, (#[trigger] self.stack@[q]).0 as int) by {
                assert(live(h0, self.stack@[q].0 as int));
            }
            assert(self.num_objects == live_count(hnew));
        }
        r
    }

    /// Allocate a new object, running a collection first when the live
    /// count has reached the threshold. The payload's references must be
    /// root-reachable so that such a collection cannot reclaim them.
    fn new_object(&mut self, obj_type: ObjectType) -> (r: GcPtr)
        requires
            old(self).wf(),
            old(self).num_objects <= usize::MAX / 2,
            match obj_type {
                ObjectType::Pair(p) => root_reach(old(self).heap@, old(self).stack@, p.head.0 as int)
                    && root_reach(old(self).heap@, old(self).stack@, p.tail.0 as int),
                ObjectType::Int(_) => true,
            },
        ensures
            final(self).wf(),
            final(self).stack == old(self).stack,
            live(final(self).heap@, r.0 as int),
            obj_at(final(self).heap@, r.0 as int) == (Object { marked: false, obj_type }),
            forall|i: int| root_reach(old(self).heap@, old(self).stack@, i)
                ==> live(final(self).heap@, i)
                    && obj_at(final(self).heap@, i).obj_type == obj_at(old(self).heap@, i).obj_type,
            old(self).num_objects != old(self).max_objects ==> (
                final(self).num_objects == old(self).num_objects + 1
                && final(self).max_objects == old(self).max_objects
                && allocates(old(self).heap@, final(self).heap@, r, obj_type)
            ),
            old(self).num_objects == old(self).max_objects ==> (
                (exists|mid: Seq<Option<Object>>|
                    #[trigger] collected(old(self).heap@, old(self).stack@, mid)
                    && allocates(mid, final(self).heap@, r, obj_type))
                && final(self).num_objects >= 1
                && final(self).max_objects
                    == grow_threshold((final(self).num_objects - 1) as nat)
            ),
    {
        let ghost h0 = self.heap@;
        let ghost roots = self.stack@;
        let ghost ran_gc = self.num_objects == self.max_objects;
        if self.num_objects == self.max_objects {
            self.gc();
        }
        let ghost hmid = self.heap@;
        proof {
            match obj_type {
                ObjectType::Pair(p) => {
                    assert(live(hmid, p.head.0 as int) && live(hmid, p.tail.0 as int)) by {
                        if ran_gc {
                            assert(collected(h0, roots, hmid));
                        } else {
                            let rr = choose|rr: int| 0 <= rr < roots.len()
                                && #[trigger] reach(h0, roots[rr].0 as int, p.head.0 as int);
                            let n = choose|n: nat| reach_n(h0, roots[rr].0 as int, p.head.0 as int, n);
                            lemma_reach_n_live(h0, roots[rr].0 as int, p.head.0 as int, n);
                            let rt = choose|rt: int| 0 <= rt < roots.len()
                                && #[trigger] reach(h0, roots[rt].0 as int, p.tail.0 as int);
                            let m = choose|m: nat| reach_n(h0, roots[rt].0 as int, p.tail.0 as int, m);
                            lemma_reach_n_live(h0, roots[rt].0 as int, p.tail.0 as int, m);
                        }
                    }
                }
                ObjectType::Int(_) => {}
            }
        }
        let r = self.alloc_slot(obj_type);
        proof {
            assert forall|i: int| root_reach(h0, roots, i)
                implies live(self.heap@, i)
                    && obj_at(self.heap@, i).obj_type == obj_at(h0, i).obj_type by {
                if ran_gc {
                    assert(collected(h0, roots, hmid));
                    assert(live(hmid, i));
                    assert(obj_at(hmid, i).obj_type == obj_at(h0, i).obj_type);
                } else {
                    let rr = choose|rr: int| 0 <= rr < roots.len()
                        && #[trigger] reach(h0, roots[rr].0 as int, i);
                    let n = choose|n: nat| reach_n(h0, roots[rr].0 as int, i, n);
                    lemma_reach_n_live(h0, roots[rr].0 as int, i, n);
                    assert(live(hmid, i) && obj_at(hmid, i).obj_type == obj_at(h0, i).obj_type);
                }
                assert(allocates(hmid, self.heap@, r, obj_type));
                assert(i != r.0 as int);
                assert(self.heap@[i] == hmid[i]);
            }
        }
        r
    }

    /// Push a new integer object onto the operand stack.
    pub fn push_int(&mut self, val: i64)
        requires
            old(self).wf(),
            old(self).num_objects <= usize::MAX / 2,
        ensures
            final(self).wf(),
            final(self).stack@ == old(self).stack@.push(final(self).stack@.last()),
            live(final(self).heap@, final(self).stack@.last().0 as int),
            obj_at(final(self).heap@, final(self).stack@.last().0 as int)
                == (Object { marked: false, obj_type: ObjectType::Int(val) }),
            forall|i: int| root_reach(old(self).heap@, old(self).stack@, i)
                ==> live(final(self).heap@, i)
                    && obj_at(final(self).heap@, i).obj_type == obj_at(old(self).heap@, i).obj_type,
            old(self).num_objects != old(self).max_objects ==> (
                final(self).num_objects == old(self).num_objects + 1
                && final(self).max_objects == old(self).max_objects
                && allocates(old(self).heap@, final(self).heap@, final(self).stack@.last(),
                    ObjectType::Int(val))
            ),
            old(self).num_objects == old(self).max_objects ==> (
                (exists|mid: Seq<Option<Object>>|
                    #[trigger] collected(old(self).heap@, old(self).stack@, mid)
                    && allocates(mid, final(self).heap@, final(self).stack@.last(),
                        ObjectType::Int(val)))
                && final(self).num_objects >= 1
                && final(self).max_objects
                    == grow_threshold((final(self).num_objects - 1) as nat)
            ),
    {
        let obj = self.new_object(ObjectType::Int(val));
        self.stack.push(obj);
    }

    /// Pop two references, allocate a pair of them, and push the result.
    /// The collector may run before the allocation; the operands are still
    /// on the stack at that point, so it cannot reclaim them.
    pub fn push_pair(&mut self)
        requires
            old(self).wf(),
            old(self).stack@.len() >= 2,
            old(self).num_objects <= usize::MAX / 2,
        ensures
            final(self).wf(),
            final(self).stack@ == old(self).stack@
                .subrange(0, old(self).stack@.len() - 2)
                .push(final(self).stack@.last()),
            live(final(self).heap@, final(self).stack@.last().0 as int),
            obj_at(final(self).heap@, final(self).stack@.last().0 as int)
                == (Object {
                    marked: false,
                    obj_type: ObjectType::Pair((Pair {
                        head: old(self).stack@[old(self).stack@.len() - 2],
                        tail: old(self).stack@[old(self).stack@.len() - 1],
                    })),
                }),
            forall|i: int| root_reach(old(self).heap@, old(self).stack@, i)
                ==> live(final(self).heap@, i)
                    && obj_at(final(self).heap@, i).obj_type == obj_at(old(self).heap@, i).obj_type,
            old(self).num_objects != old(self).max_objects ==> (
                final(self).num_objects == old(self).num_objects + 1
                && final(self).max_objects == old(self).max_objects
                && allocates(old(self).heap@, final(self).heap@, final(self).stack@.last(),
                    ObjectType::Pair((Pair {
                        head: old(self).stack@[old(self).stack@.len() - 2],
                        tail: old(self).stack@[old(self).stack@.len() - 1],
                    })))
            ),
            old(self).num_objects == old(self).max_objects ==> (
                (exists|mid: Seq<Option<Object>>|
                    #[trigger] collected(old(self).heap@, old(self).stack@, mid)
                    && allocates(mid, final(self).heap@, final(self).stack@.last(),
                        ObjectType::Pair((Pair {
                            head: old(self).stack@[old(self).stack@.len() - 2],
                            tail: old(self).stack@[old(self).stack@.len() - 1],
                        }))))
                && final(self).num_objects >= 1
                && final(self).max_objects
                    == grow_threshold((final(self).num_objects - 1) as nat)
            ),
    {
        let tail = self.stack[self.stack.len() - 1];
        let head = self.stack[self.stack.len() - 2];
        proof {
            let roots = self.stack@;
            let h0 = self.heap@;
            assert(live(h0, head.0 as int) && live(h0, tail.0 as int));
            assert(reach_n(h0, head.0 as int, head.0 as int, 0));
            assert(reach(h0, head.0 as int, head.0 as int));
            assert(root_reach(h0, roots, head.0 as int));
            assert(reach_n(h0, tail.0 as int, tail.0 as int, 0));
            assert(reach(h0, tail.0 as int, tail.0 as int));
            assert(root_reach(h0, roots, tail.0 as int));
        }
        let obj = self.new_object(ObjectType::Pair(Pair { head, tail }));
        self.stack.pop();
        self.stack.pop();
        self.stack.push(obj);
        proof {
            assert(self.stack@ =~= old(self).stack@
                .subrange(0, old(self).stack@.len() - 2)
                .push(obj));
        }
    }

    /// Discard the top of the operand stack, if any.
    pub fn drop(&mut self)
        requires
            old(self).wf(),
        ensures
            final(self).wf(),
            final(self).heap == old(self).heap,
            final(self).num_objects == old(self).num_objects,
            final(self).max_objects == old(self).max_objects,
            old(self).stack@.len() > 0 ==> final(self).stack@ == old(self).stack@.drop_last(),
            old(self).stack@.len() == 0 ==> final(self).stack@ == old(self).stack@,
    {
        self.stack.pop();
    }
}

} // verus!
