//! Namespaced identifiers for registered values.

use vstd::prelude::*;

verus! {

/// Value used to identify a value stored in a registry
#[derive(Clone, Debug, PartialEq, Eq, Hash)]
pub struct Identifier {
    namespace: String,
    path: String,
}

impl Identifier {
    /// Creates a new identifier
    pub fn new(namespace: String, path: String) -> (r: Self)
        ensures
            r.spec_namespace() == namespace@,
            r.spec_path() == path@,
    {
        Identifier { namespace, path }
    }

    /// The namespace of an identifier value.
    pub closed spec fn spec_namespace(&self) -> Seq<char> {
        self.namespace@
    }

    /// The path of an identifier value.
    pub closed spec fn spec_path(&self) -> Seq<char> {
        self.path@
    }

    /// Returns a reference to the identifier's namespace
    pub fn namespace(&self) -> (r: &String)
        ensures
            r@ == self.spec_namespace(),
    {
        &self.namespace
    }

    /// Returns a reference to the identifier's path
    pub fn path(&self) -> (r: &String)
        ensures
            r@ == self.spec_path(),
    {
        &self.path
    }
}

} // verus!
