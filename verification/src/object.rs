//! The object model: a tagged value (integer or pair) with a mark bit, and
//! the reference type used to address objects in a heap store.

use vstd::prelude::*;

verus! {

/// A reference to a heap object: an index into the heap store's slot table.
///
/// A reference is valid only while the slot it names holds an object; the
/// collector and the root set never retain a reference past a sweep that
/// reclaims its slot.
#[derive(Clone, Copy, Debug)]
pub struct GcPtr(pub usize);

/// Two references owned by a pair object. Once a pair is stored, both must
/// resolve to live objects for as long as the pair itself is live.
#[derive(Clone, Copy, Debug)]
pub struct Pair {
    pub head: GcPtr,
    pub tail: GcPtr,
}

/// The immutable payload of a heap object.
#[derive(Clone, Copy, Debug)]
pub enum ObjectType {
    Int(i64),
    Pair(Pair),
}

/// A heap object: a payload plus the mark bit used during a collection
/// cycle. Between cycles every mark bit is clear.
#[derive(Clone, Copy, Debug)]
pub struct Object {
    pub marked: bool,
    pub obj_type: ObjectType,
}

} // verus!
