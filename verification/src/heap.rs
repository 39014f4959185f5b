//! The heap: two independent ID-keyed stores of objects and arrays, with
//! monotonic ID counters and reference counting.
//!
//! IDs start at one and are handed out in increasing order; an ID is never
//! reused within the manager's lifetime.  An entry is born with reference
//! count one and dies when a release drives the count to zero.

use crate::error::VmError;
use crate::namemap::NameMap;
use crate::profiler::{MemoryProfiler, MemoryStats};
use crate::value::Value;
use vstd::prelude::*;

verus! {

/// An object: a class name and a field map, reference counted.
#[derive(Debug)]
pub struct Object {
    /// The object's ID, equal to its key in the store.
    pub id: u64,
    /// The class name given to the allocating instruction.
    pub class_name: String,
    /// Field values; starts empty, grown by field stores.
    pub fields: NameMap<Value>,
    /// Reference count.
    pub ref_count: u32,
}

/// An array: an element type label and an element sequence, reference
/// counted.
#[derive(Debug)]
pub struct Array {
    /// The array's ID, equal to its key in the store.
    pub id: u64,
    /// The element type label (informational).
    pub element_type: String,
    /// The elements.
    pub elements: Vec<Value>,
    /// Reference count.
    pub ref_count: u32,
}

/// The memory manager: the object store, the array store and a profiler.
///
/// The stores are dense: the entry for ID `i` lives at position `i - 1`,
/// and a released entry leaves a hole, so IDs stay monotonic and are never
/// reassigned.
pub struct MemoryManager {
    objects: Vec<Option<Object>>,
    arrays: Vec<Option<Array>>,
    profiler: MemoryProfiler,
}

impl MemoryManager {
    /// The object store, as a map from ID to entry.
    pub closed spec fn objects_map(&self) -> Map<u64, Object> {
        Map::new(
            |id: u64| 1 <= id <= self.objects@.len() && self.objects@[id - 1] is Some,
            |id: u64| self.objects@[id - 1]->Some_0,
        )
    }

    /// The array store, as a map from ID to entry.
    pub closed spec fn arrays_map(&self) -> Map<u64, Array> {
        Map::new(
            |id: u64| 1 <= id <= self.arrays@.len() && self.arrays@[id - 1] is Some,
            |id: u64| self.arrays@[id - 1]->Some_0,
        )
    }

    /// The ID the next object allocation will return.
    pub closed spec fn next_object_id(&self) -> int {
        self.objects@.len() as int + 1
    }

    /// The ID the next array allocation will return.
    pub closed spec fn next_array_id(&self) -> int {
        self.arrays@.len() as int + 1
    }

    /// The number of object IDs handed out so far.
    pub fn object_count(&self) -> (r: usize)
        ensures
            r + 1 == self.next_object_id(),
    {
        self.objects.len()
    }

    /// The number of array IDs handed out so far.
    pub fn array_count(&self) -> (r: usize)
        ensures
            r + 1 == self.next_array_id(),
    {
        self.arrays.len()
    }

    /// The profiler's view of the heap.
    pub closed spec fn stats_model(&self) -> MemoryStats {
        self.profiler.stats_model()
    }

    /// Well-formedness: every present entry carries its own ID, a positive
    /// reference count and a well-formed field map.
    pub closed spec fn wf(&self) -> bool {
        &&& forall|i: int|
            0 <= i < self.objects@.len() && self.objects@[i] is Some ==> {
                &&& (#[trigger] self.objects@[i])->Some_0.id == i + 1
                &&& self.objects@[i]->Some_0.ref_count >= 1
                &&& self.objects@[i]->Some_0.fields.wf()
            }
        &&& forall|i: int|
            0 <= i < self.arrays@.len() && self.arrays@[i] is Some ==> {
                &&& (#[trigger] self.arrays@[i])->Some_0.id == i + 1
                &&& self.arrays@[i]->Some_0.ref_count >= 1
            }
        &&& self.profiler.wf()
        &&& self.profiler.is_enabled()
    }

    /// A fresh manager: both stores empty, IDs starting at one.
    pub fn new() -> (r: Self)
        ensures
            r.wf(),
            r.objects_map() == Map::<u64, Object>::empty(),
            r.arrays_map() == Map::<u64, Array>::empty(),
            r.next_object_id() == 1,
            r.next_array_id() == 1,
    {
        let r = MemoryManager {
            objects: Vec::new(),
            arrays: Vec::new(),
            profiler: MemoryProfiler::new(),
        };
        proof {
            assert(r.objects_map() =~= Map::<u64, Object>::empty());
            assert(r.arrays_map() =~= Map::<u64, Array>::empty());
        }
        r
    }

    /// Allocates an object of the given class: fresh ID, empty field map,
    /// reference count one.  IDs are handed out in strictly increasing
    /// order and never reused.
    pub fn allocate_object(&mut self, class_name: String) -> (id: u64)
        requires
            old(self).wf(),
            old(self).next_object_id() <= u64::MAX,
        ensures
            final(self).wf(),
            id == old(self).next_object_id(),
            final(self).next_object_id() == id + 1,
            !old(self).objects_map().contains_key(id),
            final(self).objects_map().contains_key(id),
            final(self).objects_map()[id].id == id,
            final(self).objects_map()[id].class_name == class_name,
            final(self).objects_map()[id].fields@ == Map::<Seq<char>, Value>::empty(),
            final(self).objects_map()[id].ref_count == 1,
            final(self).objects_map() == old(self).objects_map().insert(
                id,
                final(self).objects_map()[id],
            ),
            final(self).arrays_map() == old(self).arrays_map(),
            final(self).next_array_id() == old(self).next_array_id(),
    {
        let id = (self.objects.len() as u64) + 1;
        let object = Object { id, class_name, fields: NameMap::new(), ref_count: 1 };
        self.objects.push(Some(object));
        self.profiler.record_allocation(id, "object");
        proof {
            assert(!old(self).objects_map().contains_key(id));
            assert(final(self).objects_map() =~= old(self).objects_map().insert(
                id,
                final(self).objects_map()[id],
            ));
            assert(final(self).arrays_map() =~= old(self).arrays_map());
        }
        id
    }

    /// Allocates an array of the given size: fresh ID, every element
    /// `Null`, reference count one.  IDs are handed out in strictly
    /// increasing order and never reused.
    pub fn allocate_array(&mut self, element_type: String, size: usize) -> (id: u64)
        requires
            old(self).wf(),
            old(self).next_array_id() <= u64::MAX,
        ensures
            final(self).wf(),
            id == old(self).next_array_id(),
            final(self).next_array_id() == id + 1,
            !old(self).arrays_map().contains_key(id),
            final(self).arrays_map().contains_key(id),
            final(self).arrays_map()[id].id == id,
            final(self).arrays_map()[id].element_type == element_type,
            final(self).arrays_map()[id].elements@.len() == size,
            forall|k: int|
                0 <= k < size ==> final(self).arrays_map()[id].elements@[k] is Null,
            final(self).arrays_map()[id].ref_count == 1,
            final(self).arrays_map() == old(self).arrays_map().insert(
                id,
                final(self).arrays_map()[id],
            ),
            final(self).objects_map() == old(self).objects_map(),
            final(self).next_object_id() == old(self).next_object_id(),
    {
        let id = (self.arrays.len() as u64) + 1;
        let mut elements: Vec<Value> = Vec::new();
        let mut k: usize = 0;
        while k < size
            invariant
                k <= size,
                elements@.len() == k,
                forall|j: int| 0 <= j < k ==> elements@[j] is Null,
            decreases size - k,
        {
            elements.push(Value::Null);
            k = k + 1;
        }
        let array = Array { id, element_type, elements, ref_count: 1 };
        self.arrays.push(Some(array));
        self.profiler.record_allocation(id, "array");
        proof {
            assert(!old(self).arrays_map().contains_key(id));
            assert(final(self).arrays_map() =~= old(self).arrays_map().insert(
                id,
                final(self).arrays_map()[id],
            ));
            assert(final(self).objects_map() =~= old(self).objects_map());
        }
        id
    }

    /// Looks an object up; present exactly when the ID is in the store.
    pub fn get_object(&self, id: u64) -> (r: Option<&Object>)
        requires
            self.wf(),
        ensures
            match r {
                Some(object) => self.objects_map().contains_key(id) && *object
                    == self.objects_map()[id] && object.fields.wf() && object.ref_count >= 1
                    && object.id == id,
                None => !self.objects_map().contains_key(id),
            },
    {
        if id >= 1 && id <= self.objects.len() as u64 {
            match &self.objects[(id - 1) as usize] {
                Some(object) => Some(object),
                None => None,
            }
        } else {
            None
        }
    }

    /// Looks an array up; present exactly when the ID is in the store.
    pub fn get_array(&self, id: u64) -> (r: Option<&Array>)
        requires
            self.wf(),
        ensures
            match r {
                Some(array) => self.arrays_map().contains_key(id) && *array
                    == self.arrays_map()[id] && array.ref_count >= 1 && array.id == id,
                None => !self.arrays_map().contains_key(id),
            },
    {
        if id >= 1 && id <= self.arrays.len() as u64 {
            match &self.arrays[(id - 1) as usize] {
                Some(array) => Some(array),
                None => None,
            }
        } else {
            None
        }
    }

    /// Replaces the entry with the given object's ID by the given
    /// snapshot; fails when the ID is absent.
    pub fn update_object(&mut self, object: Object) -> (r: Result<(), VmError>)
        requires
            old(self).wf(),
            object.ref_count >= 1,
            object.fields.wf(),
        ensures
            final(self).wf(),
            match r {
                Ok(()) => old(self).objects_map().contains_key(object.id) && final(self).objects_map() == old(self).objects_map().insert(object.id, object),
                Err(e) => !old(self).objects_map().contains_key(object.id) && (e is Runtime)
                    && final(self).objects_map() == old(self).objects_map(),
            },
            final(self).arrays_map() == old(self).arrays_map(),
            final(self).next_object_id() == old(self).next_object_id(),
            final(self).next_array_id() == old(self).next_array_id(),
    {
        let id = object.id;
        if id >= 1 && id <= self.objects.len() as u64 && self.objects[(id - 1) as usize].is_some() {
            self.objects.set((id - 1) as usize, Some(object));
            proof {
                assert(final(self).objects_map() =~= old(self).objects_map().insert(
                    id,
                    final(self).objects_map()[id],
                ));
                assert(final(self).arrays_map() =~= old(self).arrays_map());
            }
            Ok(())
        } else {
            Err(VmError::Runtime("Object not found".to_owned()))
        }
    }

    /// Replaces the entry with the given array's ID by the given snapshot;
    /// fails when the ID is absent.
    pub fn update_array(&mut self, array: Array) -> (r: Result<(), VmError>)
        requires
            old(self).wf(),
            array.ref_count >= 1,
        ensures
            final(self).wf(),
            match r {
                Ok(()) => old(self).arrays_map().contains_key(array.id) && final(self).arrays_map() == old(self).arrays_map().insert(array.id, array),
                Err(e) => !old(self).arrays_map().contains_key(array.id) && (e is Runtime)
                    && final(self).arrays_map() == old(self).arrays_map(),
            },
            final(self).objects_map() == old(self).objects_map(),
            final(self).next_object_id() == old(self).next_object_id(),
            final(self).next_array_id() == old(self).next_array_id(),
    {
        let id = array.id;
        if id >= 1 && id <= self.arrays.len() as u64 && self.arrays[(id - 1) as usize].is_some() {
            self.arrays.set((id - 1) as usize, Some(array));
            proof {
                assert(final(self).arrays_map() =~= old(self).arrays_map().insert(
                    id,
                    final(self).arrays_map()[id],
                ));
                assert(final(self).objects_map() =~= old(self).objects_map());
            }
            Ok(())
        } else {
            Err(VmError::Runtime("Array not found".to_owned()))
        }
    }

    /// Writes one field of an object; fails when the ID is absent or does
    /// not name an object.
    pub fn set_object_field(&mut self, id: u64, field_name: &str, value: Value) -> (r: Result<
        (),
        VmError,
    >)
        requires
            old(self).wf(),
        ensures
            final(self).wf(),
            match r {
                Ok(()) => {
                    &&& old(self).objects_map().contains_key(id)
                    &&& final(self).objects_map().contains_key(id)
                    &&& final(self).objects_map()[id].fields@ == old(self).objects_map()[id].fields@.insert(field_name@, value)
                    &&& final(self).objects_map()[id].id == old(self).objects_map()[id].id
                    &&& final(self).objects_map()[id].class_name == old(self).objects_map()[id].class_name
                    &&& final(self).objects_map()[id].ref_count == old(self).objects_map()[id].ref_count
                    &&& final(self).objects_map().dom() == old(self).objects_map().dom()
                    &&& forall|other: u64|
                        other != id && old(self).objects_map().contains_key(other)
                            ==> final(self).objects_map()[other] == old(self).objects_map()[other]
                },
                Err(e) => !old(self).objects_map().contains_key(id) && (e is Runtime) && final(self).objects_map() == old(self).objects_map(),
            },
            final(self).arrays_map() == old(self).arrays_map(),
            final(self).next_object_id() == old(self).next_object_id(),
            final(self).next_array_id() == old(self).next_array_id(),
    {
        if id >= 1 && id <= self.objects.len() as u64 {
            let slot = (id - 1) as usize;
            match &mut self.objects[slot] {
                Some(object) => {
                    object.fields.insert(field_name.to_owned(), value);
                    proof {
                        assert(final(self).objects_map().dom() =~= old(self).objects_map().dom());
                        assert(final(self).arrays_map() =~= old(self).arrays_map());
                    }
                    Ok(())
                },
                None => {
                    proof {
                        assert(final(self).objects_map() =~= old(self).objects_map());
                        assert(final(self).arrays_map() =~= old(self).arrays_map());
                    }
                    Err(VmError::Runtime("Object not found".to_owned()))
                },
            }
        } else {
            Err(VmError::Runtime("Object not found".to_owned()))
        }
    }

    /// Writes one element of an array; fails when the ID is absent or the
    /// index is out of bounds.
    pub fn set_array_element(&mut self, id: u64, index: usize, value: Value) -> (r: Result<
        (),
        VmError,
    >)
        requires
            old(self).wf(),
        ensures
            final(self).wf(),
            match r {
                Ok(()) => {
                    &&& old(self).arrays_map().contains_key(id)
                    &&& index < old(self).arrays_map()[id].elements@.len()
                    &&& final(self).arrays_map().contains_key(id)
                    &&& final(self).arrays_map()[id].elements@ == old(self).arrays_map()[id].elements@.update(index as int, value)
                    &&& final(self).arrays_map()[id].id == old(self).arrays_map()[id].id
                    &&& final(self).arrays_map()[id].element_type == old(self).arrays_map()[id].element_type
                    &&& final(self).arrays_map()[id].ref_count == old(self).arrays_map()[id].ref_count
                    &&& final(self).arrays_map().dom() == old(self).arrays_map().dom()
                    &&& forall|other: u64|
                        other != id && old(self).arrays_map().contains_key(other)
                            ==> final(self).arrays_map()[other] == old(self).arrays_map()[other]
                },
                Err(e) => (e is Runtime) && final(self).arrays_map() == old(self).arrays_map()
                    && (!old(self).arrays_map().contains_key(id) || index >= old(self).arrays_map()[id].elements@.len()),
            },
            final(self).objects_map() == old(self).objects_map(),
            final(self).next_object_id() == old(self).next_object_id(),
            final(self).next_array_id() == old(self).next_array_id(),
    {
        if id >= 1 && id <= self.arrays.len() as u64 {
            let slot = (id - 1) as usize;
            match &mut self.arrays[slot] {
                Some(array) => {
                    if index < array.elements.len() {
                        array.elements.set(index, value);
                        proof {
                            assert(final(self).arrays_map().dom() =~= old(self).arrays_map().dom());
                            assert(final(self).objects_map() =~= old(self).objects_map());
                        }
                        Ok(())
                    } else {
                        proof {
                            assert(final(self).arrays_map() =~= old(self).arrays_map());
                            assert(final(self).objects_map() =~= old(self).objects_map());
                        }
                        Err(VmError::Runtime("Invalid array access".to_owned()))
                    }
                },
                None => {
                    proof {
                        assert(final(self).arrays_map() =~= old(self).arrays_map());
                        assert(final(self).objects_map() =~= old(self).objects_map());
                    }
                    Err(VmError::Runtime("Invalid array access".to_owned()))
                },
            }
        } else {
            Err(VmError::Runtime("Invalid array access".to_owned()))
        }
    }

    /// Increments the reference count of the entry a reference value
    /// points at (saturating); a no-op for non-reference values and for
    /// dangling references.
    pub fn increment_ref(&mut self, value: &Value) -> (r: Result<(), VmError>)
        requires
            old(self).wf(),
        ensures
            final(self).wf(),
            r is Ok,
            final(self).objects_map().dom() == old(self).objects_map().dom(),
            final(self).arrays_map().dom() == old(self).arrays_map().dom(),
            final(self).next_object_id() == old(self).next_object_id(),
            final(self).next_array_id() == old(self).next_array_id(),
            match *value {
                Value::Object(id) => {
                    &&& old(self).objects_map().contains_key(id) ==> {
                        &&& final(self).objects_map()[id].ref_count == sat_add32(
                            old(self).objects_map()[id].ref_count,
                            1,
                        )
                        &&& final(self).objects_map()[id].id == old(self).objects_map()[id].id
                        &&& final(self).objects_map()[id].class_name == old(self).objects_map()[id].class_name
                        &&& final(self).objects_map()[id].fields@ == old(self).objects_map()[id].fields@
                    }
                    &&& forall|other: u64|
                        other != id && old(self).objects_map().contains_key(other)
                            ==> final(self).objects_map()[other] == old(self).objects_map()[other]
                    &&& final(self).arrays_map() == old(self).arrays_map()
                },
                Value::Array(id) => {
                    &&& old(self).arrays_map().contains_key(id) ==> {
                        &&& final(self).arrays_map()[id].ref_count == sat_add32(
                            old(self).arrays_map()[id].ref_count,
                            1,
                        )
                        &&& final(self).arrays_map()[id].id == old(self).arrays_map()[id].id
                        &&& final(self).arrays_map()[id].element_type == old(self).arrays_map()[id].element_type
                        &&& final(self).arrays_map()[id].elements@ == old(self).arrays_map()[id].elements@
                    }
                    &&& forall|other: u64|
                        other != id && old(self).arrays_map().contains_key(other)
                            ==> final(self).arrays_map()[other] == old(self).arrays_map()[other]
                    &&& final(self).objects_map() == old(self).objects_map()
                },
                _ => final(self).objects_map() == old(self).objects_map() && final(self).arrays_map() == old(self).arrays_map(),
            },
    {
        match value {
            Value::Object(id) => {
                let id = *id;
                if id >= 1 && id <= self.objects.len() as u64 {
                    let slot = (id - 1) as usize;
                    match &mut self.objects[slot] {
                        Some(object) => {
                            object.ref_count = sat_add32_exec(object.ref_count, 1);
                        },
                        None => {},
                    }
                }
                proof {
                    assert(final(self).objects_map().dom() =~= old(self).objects_map().dom());
                    assert(final(self).arrays_map() =~= old(self).arrays_map());
                }
                Ok(())
            },
            Value::Array(id) => {
                let id = *id;
                if id >= 1 && id <= self.arrays.len() as u64 {
                    let slot = (id - 1) as usize;
                    match &mut self.arrays[slot] {
                        Some(array) => {
                            array.ref_count = sat_add32_exec(array.ref_count, 1);
                        },
                        None => {},
                    }
                }
                proof {
                    assert(final(self).arrays_map().dom() =~= old(self).arrays_map().dom());
                    assert(final(self).objects_map() =~= old(self).objects_map());
                }
                Ok(())
            },
            _ => Ok(()),
        }
    }

    /// Decrements the reference count of the entry a reference value
    /// points at; a count that reaches zero removes the entry.  A no-op
    /// for non-reference values and for dangling references.
    pub fn decrement_ref(&mut self, value: &Value) -> (r: Result<(), VmError>)
        requires
            old(self).wf(),
        ensures
            final(self).wf(),
            r is Ok,
            final(self).next_object_id() == old(self).next_object_id(),
            final(self).next_array_id() == old(self).next_array_id(),
            match *value {
                Value::Object(id) => {
                    &&& old(self).objects_map().contains_key(id) && old(self).objects_map()[id].ref_count == 1 ==> final(self).objects_map() == old(self).objects_map().remove(id)
                    &&& old(self).objects_map().contains_key(id) && old(self).objects_map()[id].ref_count > 1 ==> {
                        &&& final(self).objects_map().dom() == old(self).objects_map().dom()
                        &&& final(self).objects_map()[id].ref_count == old(self).objects_map()[id].ref_count - 1
                        &&& final(self).objects_map()[id].id == old(self).objects_map()[id].id
                        &&& final(self).objects_map()[id].class_name == old(self).objects_map()[id].class_name
                        &&& final(self).objects_map()[id].fields@ == old(self).objects_map()[id].fields@
                    }
                    &&& !old(self).objects_map().contains_key(id) ==> final(self).objects_map()
                        == old(self).objects_map()
                    &&& forall|other: u64|
                        other != id && old(self).objects_map().contains_key(other)
                            ==> final(self).objects_map().contains_key(other) && final(self).objects_map()[other] == old(self).objects_map()[other]
                    &&& final(self).arrays_map() == old(self).arrays_map()
                },
                Value::Array(id) => {
                    &&& old(self).arrays_map().contains_key(id) && old(self).arrays_map()[id].ref_count == 1 ==> final(self).arrays_map() == old(self).arrays_map().remove(id)
                    &&& old(self).arrays_map().contains_key(id) && old(self).arrays_map()[id].ref_count > 1 ==> {
                        &&& final(self).arrays_map().dom() == old(self).arrays_map().dom()
                        &&& final(self).arrays_map()[id].ref_count == old(self).arrays_map()[id].ref_count - 1
                        &&& final(self).arrays_map()[id].id == old(self).arrays_map()[id].id
                        &&& final(self).arrays_map()[id].element_type == old(self).arrays_map()[id].element_type
                        &&& final(self).arrays_map()[id].elements@ == old(self).arrays_map()[id].elements@
                    }
                    &&& !old(self).arrays_map().contains_key(id) ==> final(self).arrays_map()
                        == old(self).arrays_map()
                    &&& forall|other: u64|
                        other != id && old(self).arrays_map().contains_key(other)
                            ==> final(self).arrays_map().contains_key(other) && final(self).arrays_map()[other] == old(self).arrays_map()[other]
                    &&& final(self).objects_map() == old(self).objects_map()
                },
                _ => final(self).objects_map() == old(self).objects_map() && final(self).arrays_map() == old(self).arrays_map(),
            },
    {
        match value {
            Value::Object(id) => {
                let id = *id;
                if id >= 1 && id <= self.objects.len() as u64 {
                    let slot = (id - 1) as usize;
                    let remove = match &mut self.objects[slot] {
                        Some(object) => {
                            if object.ref_count == 1 {
                                true
                            } else {
                                object.ref_count = object.ref_count - 1;
                                false
                            }
                        },
                        None => false,
                    };
                    if remove {
                        self.objects.set(slot, None);
                        self.profiler.record_deallocation(id, "object");
                    }
                }
                proof {
                    if old(self).objects_map().contains_key(id) && old(self).objects_map()[id].ref_count == 1 {
                        assert(final(self).objects_map() =~= old(self).objects_map().remove(id));
                    }
                    if old(self).objects_map().contains_key(id) && old(self).objects_map()[id].ref_count > 1 {
                        assert(final(self).objects_map().dom() =~= old(self).objects_map().dom());
                    }
                    assert(final(self).arrays_map() =~= old(self).arrays_map());
                }
                Ok(())
            },
            Value::Array(id) => {
                let id = *id;
                if id >= 1 && id <= self.arrays.len() as u64 {
                    let slot = (id - 1) as usize;
                    let remove = match &mut self.arrays[slot] {
                        Some(array) => {
                            if array.ref_count == 1 {
                                true
                            } else {
                                array.ref_count = array.ref_count - 1;
                                false
                            }
                        },
                        None => false,
                    };
                    if remove {
                        self.arrays.set(slot, None);
                        self.profiler.record_deallocation(id, "array");
                    }
                }
                proof {
                    if old(self).arrays_map().contains_key(id) && old(self).arrays_map()[id].ref_count == 1 {
                        assert(final(self).arrays_map() =~= old(self).arrays_map().remove(id));
                    }
                    if old(self).arrays_map().contains_key(id) && old(self).arrays_map()[id].ref_count > 1 {
                        assert(final(self).arrays_map().dom() =~= old(self).arrays_map().dom());
                    }
                    assert(final(self).objects_map() =~= old(self).objects_map());
                }
                Ok(())
            },
            _ => Ok(()),
        }
    }

    /// The profiler's statistics.
    pub fn get_stats(&self) -> (r: MemoryStats)
        ensures
            r == self.stats_model(),
    {
        self.profiler.get_stats()
    }

    /// Records a garbage collection pass.  Reference counting reclaims
    /// entries eagerly, so the pass itself has nothing to collect; cyclic
    /// garbage is a documented leak.
    pub fn gc(&mut self) -> (r: Result<(), VmError>)
        requires
            old(self).wf(),
        ensures
            final(self).wf(),
            r is Ok,
            final(self).objects_map() == old(self).objects_map(),
            final(self).arrays_map() == old(self).arrays_map(),
            final(self).stats_model().gc_count == crate::profiler::sat_add64(
                old(self).stats_model().gc_count,
                1,
            ),
    {
        self.profiler.record_gc();
        proof {
            assert(final(self).objects_map() =~= old(self).objects_map());
            assert(final(self).arrays_map() =~= old(self).arrays_map());
        }
        Ok(())
    }
}

/// Saturating addition on `u32`.
pub open spec fn sat_add32(a: u32, b: u32) -> u32 {
    if a + b > u32::MAX {
        u32::MAX
    } else {
        (a + b) as u32
    }
}

/// Saturating addition on `u32` (which std spells `saturating_add`).
fn sat_add32_exec(a: u32, b: u32) -> (r: u32)
    ensures
        r == sat_add32(a, b),
{
    if a <= u32::MAX - b {
        a + b
    } else {
        u32::MAX
    }
}

/// Any ID at or past the next counter is absent from the store: together
/// with the allocator's contract (each allocation returns the counter's
/// value and advances it), IDs are strictly monotonic and never reused
/// within a manager's lifetime.
pub proof fn lemma_fresh_ids_absent(m: MemoryManager, id: u64)
    requires
        id >= m.next_object_id(),
    ensures
        !m.objects_map().contains_key(id),
{
}

/// The array-store counterpart of [`lemma_fresh_ids_absent`].
pub proof fn lemma_fresh_array_ids_absent(m: MemoryManager, id: u64)
    requires
        id >= m.next_array_id(),
    ensures
        !m.arrays_map().contains_key(id),
{
}

} // verus!
