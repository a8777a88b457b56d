use mark_sweep::arena_gc::Vm;

#[test]
fn test_safe_gc() {
    let mut vm = Vm::new();

    for i in 0..64 {
        vm.push_int(i);
    }
    for _ in 0..63 {
        vm.push_pair();
    }

    assert_eq!(vm.stack.len(), 1);
    assert_ne!(vm.num_objects, 0);
    assert_ne!(vm.heap.len(), 0);

    vm.stack.pop();

    vm.gc();

    assert_eq!(vm.num_objects, 0);
    assert!(vm.heap.iter().all(|e| e.is_none()))
}

#[test]
fn arena_deep_chain_is_fully_live() {
    // 64 integers folded into 63 nested pairs: one root referencing a
    // structure of 127 objects, none of which a collection may reclaim.
    let mut vm = Vm::new();
    for i in 0..64 {
        vm.push_int(i);
    }
    for _ in 0..63 {
        vm.push_pair();
    }
    assert_eq!(vm.stack.len(), 1);
    assert_eq!(vm.num_objects, 127);
    vm.gc();
    assert_eq!(vm.num_objects, 127);
}

#[test]
fn arena_popping_last_root_empties_heap() {
    let mut vm = Vm::new();
    for i in 0..64 {
        vm.push_int(i);
    }
    for _ in 0..63 {
        vm.push_pair();
    }
    vm.drop();
    vm.gc();
    assert_eq!(vm.num_objects, 0);
    assert_eq!(vm.stack.len(), 0);
    assert!(vm.heap.iter().all(|e| e.is_none()));
}

#[test]
fn arena_nested_pairs_share_structure() {
    // Two integers pair up; a third integer pairs with that pair. Marking
    // must reach both levels without double-counting or missing the inner
    // pair.
    let mut vm = Vm::new();
    vm.push_int(1);
    vm.push_int(2);
    vm.push_pair();
    vm.push_int(3);
    vm.push_pair();
    assert_eq!(vm.stack.len(), 1);
    assert_eq!(vm.num_objects, 5);
    vm.gc();
    assert_eq!(vm.num_objects, 5);
    vm.gc();
    assert_eq!(vm.num_objects, 5);
}

#[test]
fn arena_threshold_triggers_one_collection() {
    // Exactly the initial threshold of objects, all rooted: the next
    // allocation runs one collection, reclaims nothing, and doubles the
    // threshold.
    let mut vm = Vm::new();
    for i in 0..32 {
        vm.push_int(i);
    }
    assert_eq!(vm.num_objects, 32);
    assert_eq!(vm.max_objects, 32);
    vm.push_int(32);
    assert_eq!(vm.num_objects, 33);
    assert_eq!(vm.max_objects, 64);
    for i in 33..64 {
        vm.push_int(i);
    }
    assert_eq!(vm.num_objects, 64);
    assert_eq!(vm.max_objects, 64);
    vm.push_int(64);
    assert_eq!(vm.num_objects, 65);
    assert_eq!(vm.max_objects, 128);
}

#[test]
fn arena_gc_is_idempotent() {
    let mut vm = Vm::new();
    for i in 0..10 {
        vm.push_int(i);
    }
    vm.drop();
    vm.drop();
    vm.gc();
    let live = vm.num_objects;
    assert_eq!(live, 8);
    vm.gc();
    assert_eq!(vm.num_objects, live);
}

#[test]
fn arena_unreachable_objects_are_reclaimed() {
    let mut vm = Vm::new();
    vm.push_int(10);
    vm.push_int(20);
    vm.push_int(30);
    vm.drop();
    vm.gc();
    assert_eq!(vm.num_objects, 2);
    assert_eq!(vm.max_objects, 4);
}

#[test]
fn arena_free_list_reuses_slots() {
    let mut vm = Vm::new();
    vm.push_int(1);
    vm.push_int(2);
    assert_eq!(vm.heap.len(), 2);
    vm.drop();
    vm.gc();
    assert_eq!(vm.num_objects, 1);
    vm.push_int(3);
    // The vacated slot is reused: the table does not grow.
    assert_eq!(vm.heap.len(), 2);
    assert_eq!(vm.num_objects, 2);
}

#[test]
fn arena_empty_collection_floors_threshold() {
    let mut vm = Vm::new();
    vm.gc();
    assert_eq!(vm.num_objects, 0);
    assert_eq!(vm.max_objects, 1);
    vm.push_int(5);
    assert_eq!(vm.num_objects, 1);
    vm.push_int(6);
    assert_eq!(vm.num_objects, 2);
    assert_eq!(vm.max_objects, 2);
}

#[test]
fn arena_drop_on_empty_stack_is_a_no_op() {
    let mut vm = Vm::new();
    vm.drop();
    assert_eq!(vm.stack.len(), 0);
    assert_eq!(vm.num_objects, 0);
}

#[test]
fn arena_with_capacity_starts_empty() {
    let mut vm = Vm::with_capacity(128);
    assert_eq!(vm.num_objects, 0);
    assert_eq!(vm.max_objects, 32);
    assert_eq!(vm.heap.len(), 0);
    vm.push_int(-7);
    assert_eq!(vm.num_objects, 1);
    assert_eq!(vm.stack.len(), 1);
}

#[test]
fn arena_mixed_sequence_counts() {
    let mut vm = Vm::new();
    for i in 0..5 {
        vm.push_int(i);
    }
    vm.push_pair();
    assert_eq!(vm.num_objects, 6);
    assert_eq!(vm.stack.len(), 4);
    vm.drop();
    vm.gc();
    // The dropped pair and its two integers are garbage.
    assert_eq!(vm.num_objects, 3);
    assert_eq!(vm.max_objects, 6);
    vm.push_pair();
    assert_eq!(vm.num_objects, 4);
    vm.gc();
    assert_eq!(vm.num_objects, 4);
    assert_eq!(vm.max_objects, 8);
    vm.drop();
    vm.gc();
    assert_eq!(vm.num_objects, 1);
    assert_eq!(vm.max_objects, 2);
}
