//! Small abstractions over the collections the engine hands around, kept
//! for callers that work generically over "something with a length" or
//! "something with a representative path".

use vstd::prelude::*;
use crate::fingerprint::FileMetaData;

verus! {

/// A collection that knows how many members it holds.
pub trait ExactSize {
    /// The number of members, as a mathematical value.
    spec fn size_spec(&self) -> nat;

    /// The number of members.
    fn len(&self) -> (r: usize)
        ensures
            r as nat == self.size_spec(),
    ;
}

impl ExactSize for Vec<String> {
    open spec fn size_spec(&self) -> nat {
        self@.len()
    }

    fn len(&self) -> (r: usize)
        ensures
            r as nat == self.size_spec(),
    {
        Vec::len(self)
    }
}

/// A collection of paths with a representative member: its first.
pub trait Paths {
    /// The representative path, as a mathematical value.
    spec fn first_path_spec(&self) -> Seq<char>;

    /// Whether a representative exists.
    spec fn has_path(&self) -> bool;

    /// The representative path.
    fn get_path(&self) -> (r: String)
        requires
            self.has_path(),
        ensures
            r@ == self.first_path_spec(),
    ;
}

impl Paths for Vec<String> {
    open spec fn first_path_spec(&self) -> Seq<char> {
        self@[0]@
    }

    open spec fn has_path(&self) -> bool {
        self@.len() > 0
    }

    fn get_path(&self) -> (r: String)
        ensures
            r@ == self.first_path_spec(),
    {
        self[0].clone()
    }
}

/// A value that carries a last-modified time, counted in nanoseconds since
/// the epoch, or carries none.
pub trait Times {
    /// The modified time, as a mathematical value.
    spec fn modified_spec(&self) -> Option<u64>;

    /// The modified time.
    fn get_modified(&self) -> (r: Option<u64>)
        ensures
            r == self.modified_spec(),
    ;
}

impl Times for FileMetaData {
    open spec fn modified_spec(&self) -> Option<u64> {
        Option::Some(self.modified_date)
    }

    fn get_modified(&self) -> (r: Option<u64>)
        ensures
            r == self.modified_spec(),
    {
        Some(self.modified_date)
    }
}

/// A value with a textual form for the report.
pub trait Displayer {
    /// The textual form, as a mathematical value.
    spec fn display_spec(&self) -> Seq<char>;

    /// The textual form.
    fn to_string(&self) -> (r: String)
        ensures
            r@ == self.display_spec(),
    ;
}

impl Displayer for FileMetaData {
    open spec fn display_spec(&self) -> Seq<char> {
        self.file_name@
    }

    fn to_string(&self) -> (r: String)
        ensures
            r@ == self.display_spec(),
    {
        self.file_name.clone()
    }
}

} // verus!
