//! The part of a Kubernetes object's metadata that the operator reads.

use crate::string_map::StringMap;
use vstd::prelude::*;

verus! {

/// The character sequence of an optional string.
pub open spec fn opt_view(o: Option<String>) -> Option<Seq<char>> {
    match o {
        Some(s) => Some(s@),
        None => None,
    }
}

/// Name, generated name, namespace and annotations of an object.
#[derive(Debug, Clone)]
pub struct ResourceMeta {
    pub name: Option<String>,
    pub generate_name: Option<String>,
    pub namespace: Option<String>,
    pub annotations: Option<StringMap>,
}

impl ResourceMeta {
    /// The object's name, else its generated name, else the empty string.
    pub open spec fn spec_name_any(&self) -> Seq<char> {
        match self.name {
            Some(n) => n@,
            None => match self.generate_name {
                Some(g) => g@,
                None => Seq::empty(),
            },
        }
    }

    /// The value of annotation `key`, if the object has one.
    pub open spec fn spec_annotation(&self, key: Seq<char>) -> Option<Seq<char>> {
        match self.annotations {
            Some(m) => m.spec_get(key),
            None => None,
        }
    }

    /// The object's name, else its generated name, else the empty string.
    pub fn name_any(&self) -> (r: String)
        ensures
            r@ == self.spec_name_any(),
    {
        match &self.name {
            Some(n) => n.clone(),
            None => match &self.generate_name {
                Some(g) => g.clone(),
                None => String::new(),
            },
        }
    }

    /// The value of annotation `key`, if the object has one.
    pub fn annotation(&self, key: &str) -> (r: Option<&String>)
        ensures
            match r {
                Some(v) => self.spec_annotation(key@) == Some(v@),
                None => self.spec_annotation(key@) is None,
            },
    {
        match &self.annotations {
            Some(m) => m.get(key),
            None => None,
        }
    }
}

} // verus!
