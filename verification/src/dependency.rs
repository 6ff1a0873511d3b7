//! A dependency of an executable program: a library's name and the version
//! that is asked of it.

use vstd::prelude::*;
use crate::pairs::{split_key_value, split_pair};

verus! {

/// The mathematical content of a [`DependencySpec`].
pub struct DependencySpecView {
    pub name: Seq<char>,
    pub version_requirement: Seq<char>,
}

/// The dependency that `text` describes: `name=version` with a name that is
/// not empty. Other text describes none.
pub open spec fn parse_dependency(text: Seq<char>) -> Option<DependencySpecView> {
    match split_pair(text) {
        Some((name, version_requirement)) => if name.len() > 0 {
            Some(DependencySpecView { name, version_requirement })
        } else {
            None
        },
        None => None,
    }
}

/// A library that an executed program may import. The version requirement
/// is not interpreted here: it is handed to the build as it stands.
#[derive(Debug, Clone, PartialEq, Eq)]
pub struct DependencySpec {
    name: String,
    version_requirement: String,
}

impl View for DependencySpec {
    type V = DependencySpecView;

    closed spec fn view(&self) -> DependencySpecView {
        DependencySpecView { name: self.name@, version_requirement: self.version_requirement@ }
    }
}

impl DependencySpec {
    /// A dependency on `name`, which must not be empty.
    pub fn new(name: String, version_requirement: String) -> (r: Option<DependencySpec>)
        ensures
            name@.len() > 0 ==> (r matches Some(d) && d@ == (DependencySpecView {
                name: name@,
                version_requirement: version_requirement@,
            })),
            name@.len() == 0 ==> r is None,
    {
        if name.as_str().is_empty() {
            None
        } else {
            Some(DependencySpec { name, version_requirement })
        }
    }

    /// Reads a dependency written as `name=version`. The text is split at
    /// its first `=`.
    pub fn parse(text: &str) -> (r: Option<DependencySpec>)
        ensures
            match r {
                Some(d) => parse_dependency(text@) == Some(d@),
                None => parse_dependency(text@) is None,
            },
    {
        match split_key_value(text) {
            Some((name, version_requirement)) => DependencySpec::new(name, version_requirement),
            None => None,
        }
    }

    /// The library's name.
    pub fn name(&self) -> (r: &str)
        ensures
            r@ == self@.name,
    {
        self.name.as_str()
    }

    /// The version that is asked of the library.
    pub fn version_requirement(&self) -> (r: &str)
        ensures
            r@ == self@.version_requirement,
    {
        self.version_requirement.as_str()
    }
}

} // verus!
