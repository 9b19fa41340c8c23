//! The last component of a path, as the standard library takes it.

use vstd::prelude::*;
use crate::text::text_of;

verus! {

/// The last component of a path, where it has one: the name of the file or
/// directory that the path leads to.
pub uninterp spec fn file_name_of(path: Seq<char>) -> Option<Seq<char>>;

/// `std::path::Path::file_name` on the path that `path` spells. Nothing is
/// proved of it: which part of a path is its last component is left to the
/// standard library, and depends on the path alone.
#[verifier::external_body]
pub(crate) fn file_name(path: &str) -> (name: Option<String>)
    ensures
        text_of(name) == file_name_of(path@),
{
    std::path::Path::new(path).file_name().map(|name| name.to_string_lossy().into_owned())
}

} // verus!
