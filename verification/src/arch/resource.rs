//! Intrinsic or shared resources that operations occupy.
use vstd::prelude::*;

use super::axis::{clone_axes, Axis};

verus! {

/// An intrinsic or shared resource, optionally indexed like its processor.
#[derive(Debug, PartialEq, Eq)]
pub struct Resource {
    pub name: String,
    pub indices: Vec<Axis>,
    /// `None` models an exclusive resource; `Some(n)` models capacity `n`.
    pub capacity: Option<u64>,
}

impl Clone for Resource {
    fn clone(&self) -> (r: Self)
        ensures
            r.name == self.name,
            r.indices@ == self.indices@,
            r.capacity == self.capacity,
    {
        Resource { name: self.name.clone(), indices: clone_axes(self.indices.as_slice()), capacity: self.capacity }
    }
}

/// What `Resource::validate` reports, if anything.
pub open spec fn resource_problem(r: Resource) -> Option<Seq<char>> {
    if r.name@.len() == 0 {
        Some("resource name cannot be empty"@)
    } else if r.capacity == Some(0u64) {
        Some("resource '"@ + r.name@ + "' capacity must be positive"@)
    } else {
        None
    }
}

impl Resource {
    pub fn name(&self) -> (r: &str)
        ensures
            r@ == self.name@,
    {
        self.name.as_str()
    }

    pub fn axes(&self) -> (r: &[Axis])
        ensures
            r@ == self.indices@,
    {
        self.indices.as_slice()
    }

    pub fn capacity(&self) -> (r: Option<u64>)
        ensures
            r == self.capacity,
    {
        self.capacity
    }

    /// A resource that one user holds at a time.
    pub fn exclusive(name: &str) -> (r: Resource)
        ensures
            r.name@ == name@,
            r.indices@.len() == 0,
            r.capacity is None,
    {
        Resource { name: crate::text::owned(name), indices: Vec::new(), capacity: None }
    }

    /// A resource with `capacity` units.
    pub fn quantitative(name: &str, capacity: u64) -> (r: Resource)
        ensures
            r.name@ == name@,
            r.indices@.len() == 0,
            r.capacity == Some(capacity),
    {
        Resource { name: crate::text::owned(name), indices: Vec::new(), capacity: Some(capacity) }
    }

    /// The same resource replicated over `indices`.
    pub fn indexed(self, indices: Vec<Axis>) -> (r: Resource)
        ensures
            r.name == self.name,
            r.indices == indices,
            r.capacity == self.capacity,
    {
        Resource { name: self.name, indices, capacity: self.capacity }
    }

    /// A resource has a name and, if quantitative, a positive capacity.
    pub fn validate(&self) -> (r: Result<(), String>)
        ensures
            match r {
                Ok(()) => resource_problem(*self) is None,
                Err(m) => resource_problem(*self) == Some(m@),
            },
    {
        if crate::text::is_empty(self.name.as_str()) {
            return Err(crate::text::owned("resource name cannot be empty"));
        }
        if self.capacity == Some(0u64) {
            let mut m = crate::text::owned("resource '");
            crate::text::push_str(&mut m, self.name.as_str());
            crate::text::push_str(&mut m, "' capacity must be positive");
            return Err(m);
        }
        Ok(())
    }
}

} // verus!
