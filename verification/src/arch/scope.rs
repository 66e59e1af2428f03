//! Named ownership levels of the otherwise flat architecture.
use vstd::prelude::*;

use crate::text::{str_texts, strings_of, texts};

verus! {

/// Explicit ownership level in the otherwise flat canonical architecture.
#[derive(Debug, PartialEq, Eq)]
pub struct Scope {
    pub name: String,
    pub parent: Option<String>,
    pub axes: Vec<String>,
    pub memories: Vec<String>,
    pub processors: Vec<String>,
    pub networks: Vec<String>,
    pub resources: Vec<String>,
}

impl Scope {
    /// A scope with the given axes and nothing in it.
    pub fn new(name: &str, axes: &[&str]) -> (r: Scope)
        ensures
            r.name@ == name@,
            r.parent is None,
            texts(r.axes@) == str_texts(axes@),
            r.memories@.len() == 0,
            r.processors@.len() == 0,
            r.networks@.len() == 0,
            r.resources@.len() == 0,
    {
        Scope {
            name: crate::text::owned(name),
            parent: None,
            axes: strings_of(axes),
            memories: Vec::new(),
            processors: Vec::new(),
            networks: Vec::new(),
            resources: Vec::new(),
        }
    }

    pub fn name(&self) -> (r: &str)
        ensures
            r@ == self.name@,
    {
        self.name.as_str()
    }

    pub fn parent(&self) -> (r: Option<&str>)
        ensures
            match r {
                Some(p) => self.parent matches Some(q) && p@ == q@,
                None => self.parent is None,
            },
    {
        match &self.parent {
            Some(p) => Some(p.as_str()),
            None => None,
        }
    }

    pub fn axes(&self) -> (r: &[String])
        ensures
            r@ == self.axes@,
    {
        self.axes.as_slice()
    }

    pub fn memories(&self) -> (r: &[String])
        ensures
            r@ == self.memories@,
    {
        self.memories.as_slice()
    }

    pub fn processors(&self) -> (r: &[String])
        ensures
            r@ == self.processors@,
    {
        self.processors.as_slice()
    }

    pub fn networks(&self) -> (r: &[String])
        ensures
            r@ == self.networks@,
    {
        self.networks.as_slice()
    }

    pub fn resources(&self) -> (r: &[String])
        ensures
            r@ == self.resources@,
    {
        self.resources.as_slice()
    }

    pub fn with_parent(self, parent: &str) -> (r: Scope)
        ensures
            r.parent matches Some(p) && p@ == parent@,
            r.name == self.name,
            r.axes == self.axes,
            r.memories == self.memories,
            r.processors == self.processors,
            r.networks == self.networks,
            r.resources == self.resources,
    {
        let mut s = self;
        s.parent = Some(crate::text::owned(parent));
        s
    }

    pub fn with_memories(self, names: &[&str]) -> (r: Scope)
        ensures
            texts(r.memories@) == str_texts(names@),
            r.name == self.name,
            r.parent == self.parent,
            r.axes == self.axes,
            r.processors == self.processors,
            r.networks == self.networks,
            r.resources == self.resources,
    {
        let mut s = self;
        s.memories = strings_of(names);
        s
    }

    pub fn with_processors(self, names: &[&str]) -> (r: Scope)
        ensures
            texts(r.processors@) == str_texts(names@),
            r.name == self.name,
            r.parent == self.parent,
            r.axes == self.axes,
            r.memories == self.memories,
            r.networks == self.networks,
            r.resources == self.resources,
    {
        let mut s = self;
        s.processors = strings_of(names);
        s
    }

    pub fn with_networks(self, names: &[&str]) -> (r: Scope)
        ensures
            texts(r.networks@) == str_texts(names@),
            r.name == self.name,
            r.parent == self.parent,
            r.axes == self.axes,
            r.memories == self.memories,
            r.processors == self.processors,
            r.resources == self.resources,
    {
        let mut s = self;
        s.networks = strings_of(names);
        s
    }

    pub fn with_resources(self, names: &[&str]) -> (r: Scope)
        ensures
            texts(r.resources@) == str_texts(names@),
            r.name == self.name,
            r.parent == self.parent,
            r.axes == self.axes,
            r.memories == self.memories,
            r.processors == self.processors,
            r.networks == self.networks,
    {
        let mut s = self;
        s.resources = strings_of(names);
        s
    }
}

} // verus!
