//! Lazily shortens a type name to remove all module paths.

use vstd::prelude::*;

use crate::model::shorten_spec;
use crate::scan::shorten;

verus! {

/// A fully qualified type name together with the shortening operation.
///
/// The short name of a type is its full name as produced by the reflection
/// facility, but with the module prefix of every path removed.  For example,
/// the short name of `alloc::vec::Vec<core::option::Option<u32>>` is
/// `Vec<Option<u32>>`.  The name is borrowed; nothing is computed until
/// [`ShortName::shortened`] is called.
#[derive(Clone, Copy)]
pub struct ShortName<'a>(pub &'a str);

impl<'a> ShortName<'a> {
    /// Gets the original name before shortening.
    pub fn original(&self) -> (r: &'a str)
        ensures
            r == self.0,
    {
        self.0
    }

    /// Renders the short form: the original name with every module prefix
    /// collapsed and all structure preserved.
    pub fn shortened(&self) -> (r: String)
        ensures
            r@ == shorten_spec(self.0@),
    {
        shorten(self.0)
    }
}

impl<'a> From<&'a str> for ShortName<'a> {
    fn from(value: &'a str) -> (r: Self) {
        ShortName(value)
    }
}

impl<'a> vstd::std_specs::convert::FromSpecImpl<&'a str> for ShortName<'a> {
    open spec fn obeys_from_spec() -> bool {
        true
    }

    open spec fn from_spec(value: &'a str) -> Self {
        ShortName(value)
    }
}

/// Wrapper around a borrowed string that is rendered in the shortened form,
/// for pipelines that only need "format as short name" without an explicit
/// [`ShortName`] construction.
pub struct DisplayShortName<'a>(pub &'a str);

impl<'a> DisplayShortName<'a> {
    /// Renders the wrapped text in the shortened form.
    pub fn shortened(&self) -> (r: String)
        ensures
            r@ == shorten_spec(self.0@),
    {
        shorten(self.0)
    }
}

} // verus!
