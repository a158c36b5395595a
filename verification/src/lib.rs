//! Shortening of fully qualified type-path strings.
//!
//! A reflection facility produces names such as
//! `alloc::vec::Vec<core::option::Option<u32>>`; the short form keeps the
//! structure (generics, tuples, arrays, punctuation) and drops the module
//! prefix of every identifier, giving `Vec<Option<u32>>`.

pub mod collapse;
pub mod laws;
pub mod model;
pub mod scan;
pub mod short_name;

pub use collapse::collapse_type_name;
pub use model::collapse_spec;
pub use model::shorten_spec;
pub use scan::shorten;
pub use short_name::DisplayShortName;
pub use short_name::ShortName;
