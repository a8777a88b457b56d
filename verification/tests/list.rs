use mark_sweep::list_gc::Vm;

#[test]
fn test_unsafe_gc() {
    let mut vm = Vm::new();

    for i in 0..64 {
        vm.push_int(i);
    }
    for _ in 0..63 {
        vm.push_pair();
    }

    assert_eq!(vm.stack.len(), 1);
    assert_ne!(vm.num_objects, 0);
    assert_ne!(vm.objects.len(), 0);

    vm.pop();

    vm.gc();

    assert_eq!(vm.num_objects, 0);
    assert_eq!(vm.objects.len(), 0);
}

#[test]
fn test_c_gc() {
    let mut vm = Vm::new();

    for i in 0..64 {
        vm.push_int(i);
    }
    for _ in 0..63 {
        vm.push_pair();
    }

    assert_ne!(vm.num_objects, 0);
    assert!(!vm.objects.is_empty());

    vm.pop();

    vm.gc();

    assert_eq!(vm.num_objects, 0);
    assert!(vm.objects.is_empty());
}

#[test]
fn list_deep_chain_is_fully_live() {
    // 64 integers folded into 63 nested pairs: one root referencing a
    // structure of 127 objects, none of which a collection may reclaim.
    let mut vm = Vm::new();
    for i in 0..64 {
        vm.push_int(i);
    }
    for _ in 0..63 {
        vm.push_pair();
    }
    assert_eq!(vm.stack.len(), 1);
    assert_eq!(vm.num_objects, 127);
    vm.gc();
    assert_eq!(vm.num_objects, 127);
}

#[test]
fn list_nested_pairs_share_structure() {
    let mut vm = Vm::new();
    vm.push_int(1);
    vm.push_int(2);
    vm.push_pair();
    vm.push_int(3);
    vm.push_pair();
    assert_eq!(vm.stack.len(), 1);
    assert_eq!(vm.num_objects, 5);
    vm.gc();
    assert_eq!(vm.num_objects, 5);
    vm.gc();
    assert_eq!(vm.num_objects, 5);
}

#[test]
fn list_threshold_triggers_one_collection() {
    let mut vm = Vm::new();
    for i in 0..32 {
        vm.push_int(i);
    }
    assert_eq!(vm.num_objects, 32);
    assert_eq!(vm.max_objects, 32);
    vm.push_int(32);
    assert_eq!(vm.num_objects, 33);
    assert_eq!(vm.max_objects, 64);
}

#[test]
fn list_gc_is_idempotent() {
    let mut vm = Vm::new();
    for i in 0..10 {
        vm.push_int(i);
    }
    vm.pop();
    vm.pop();
    vm.gc();
    let live = vm.num_objects;
    assert_eq!(live, 8);
    vm.gc();
    assert_eq!(vm.num_objects, live);
}

#[test]
fn list_unreachable_objects_are_reclaimed() {
    let mut vm = Vm::new();
    vm.push_int(10);
    vm.push_int(20);
    vm.push_int(30);
    vm.pop();
    vm.gc();
    assert_eq!(vm.num_objects, 2);
    assert_eq!(vm.max_objects, 4);
    assert_eq!(vm.objects.len(), 2);
}

#[test]
fn list_vacated_slots_are_not_reused() {
    let mut vm = Vm::new();
    vm.push_int(1);
    vm.push_int(2);
    assert_eq!(vm.heap.len(), 2);
    vm.pop();
    vm.gc();
    assert_eq!(vm.num_objects, 1);
    vm.push_int(3);
    // A fresh slot is appended: the table keeps growing.
    assert_eq!(vm.heap.len(), 3);
    assert_eq!(vm.num_objects, 2);
    assert_eq!(vm.objects.len(), 2);
}

#[test]
fn list_empty_collection_floors_threshold() {
    let mut vm = Vm::new();
    vm.gc();
    assert_eq!(vm.num_objects, 0);
    assert_eq!(vm.max_objects, 1);
    vm.push_int(5);
    vm.push_int(6);
    assert_eq!(vm.num_objects, 2);
    assert_eq!(vm.max_objects, 2);
}

#[test]
fn list_mixed_sequence_counts() {
    let mut vm = Vm::new();
    for i in 0..5 {
        vm.push_int(i);
    }
    vm.push_pair();
    assert_eq!(vm.num_objects, 6);
    assert_eq!(vm.stack.len(), 4);
    vm.pop();
    vm.gc();
    // The popped pair and its two integers are garbage.
    assert_eq!(vm.num_objects, 3);
    assert_eq!(vm.max_objects, 6);
    vm.push_pair();
    assert_eq!(vm.num_objects, 4);
    vm.gc();
    assert_eq!(vm.num_objects, 4);
    assert_eq!(vm.max_objects, 8);
    vm.pop();
    vm.gc();
    assert_eq!(vm.num_objects, 1);
    assert_eq!(vm.max_objects, 2);
}
