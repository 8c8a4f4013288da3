//! Objects: immutable logical identities with replaceable physical locations.

use vstd::prelude::*;

use crate::ids::{ObjectId, ResourceId, TaskId};
use crate::text::same_optional_text;

verus! {

#[derive(Debug, PartialEq)]
pub struct ObjectMetadata {
    pub id: ObjectId,
    pub size_bytes: u64,
    pub digest: Option<String>,
    pub encoding: Option<String>,
    pub locations: Vec<ResourceId>,
    pub producer: Option<TaskId>,
}

pub struct ObjectModel {
    pub id: ObjectId,
    pub size_bytes: u64,
    pub digest: Option<Seq<char>>,
    pub encoding: Option<Seq<char>>,
    pub locations: Seq<ResourceId>,
    pub producer: Option<TaskId>,
}

impl View for ObjectMetadata {
    type V = ObjectModel;

    open spec fn view(&self) -> ObjectModel {
        ObjectModel {
            id: self.id,
            size_bytes: self.size_bytes,
            digest: crate::text::view_of(self.digest),
            encoding: crate::text::view_of(self.encoding),
            locations: self.locations@,
            producer: self.producer,
        }
    }
}

impl Clone for ObjectMetadata {
    fn clone(&self) -> (r: ObjectMetadata)
        ensures
            r@ == self@,
    {
        ObjectMetadata {
            id: self.id,
            size_bytes: self.size_bytes,
            digest: self.digest.clone(),
            encoding: self.encoding.clone(),
            locations: self.locations.clone(),
            producer: self.producer,
        }
    }
}

impl ObjectModel {
    /// Everything but the locations.
    pub open spec fn same_identity(self, other: ObjectModel) -> bool {
        &&& self.id == other.id
        &&& self.size_bytes == other.size_bytes
        &&& self.digest == other.digest
        &&& self.encoding == other.encoding
        &&& self.producer == other.producer
    }
}

impl ObjectMetadata {
    pub fn is_local_to(&self, resource: ResourceId) -> (r: bool)
        ensures
            r == self@.locations.contains(resource),
    {
        holds_resource(&self.locations, resource)
    }
}

/// Whether `list` holds `resource`.
pub fn holds_resource(list: &Vec<ResourceId>, resource: ResourceId) -> (r: bool)
    ensures
        r == list@.contains(resource),
{
    let mut i: usize = 0;
    while i < list.len()
        invariant
            i <= list@.len(),
            forall|j: int| 0 <= j < i ==> list@[j] != resource,
        decreases list@.len() - i,
    {
        if list[i] == resource {
            return true;
        }
        i = i + 1;
    }
    false
}

/// Whether two records describe the same published object.
pub fn same_object_identity(left: &ObjectMetadata, right: &ObjectMetadata) -> (r: bool)
    ensures
        r == left@.same_identity(right@),
{
    left.id == right.id && left.size_bytes == right.size_bytes && same_optional_text(
        &left.digest,
        &right.digest,
    ) && same_optional_text(&left.encoding, &right.encoding) && same_producer(
        left.producer,
        right.producer,
    )
}

fn same_producer(left: Option<TaskId>, right: Option<TaskId>) -> (r: bool)
    ensures
        r == (left == right),
{
    match (left, right) {
        (Some(a), Some(b)) => a == b,
        (None, None) => true,
        _ => false,
    }
}

}
