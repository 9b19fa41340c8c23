//! The text of a buffer, held in a rope of the `ropey` crate.
//!
//! Nothing here is proved: these contracts say what `ropey` is taken to do.

use vstd::prelude::*;
use ropey::Rope;

verus! {

/// `ropey::Rope`, a text that is cheap to copy and to edit in the middle.
#[verifier::external_type_specification]
#[verifier::external_body]
pub struct ExRope(ropey::Rope);

/// The characters that a rope holds, in order.
pub uninterp spec fn rope_text(rope: Rope) -> Seq<char>;

/// `Rope::from_str`: a rope that holds the characters of `text`.
#[verifier::external_body]
pub(crate) fn rope_from_str(text: &str) -> (rope: Rope)
    ensures
        rope_text(rope) == text@,
{
    Rope::from_str(text)
}

/// `Rope`'s `to_string`, which writes out its chunks one after the other: a
/// string of the characters that the rope holds.
#[verifier::external_body]
pub(crate) fn rope_to_string(rope: &Rope) -> (text: String)
    ensures
        text@ == rope_text(*rope),
{
    rope.to_string()
}

/// `Rope::clone`: a second rope with the same characters, sharing the first one's storage.
#[verifier::external_body]
pub(crate) fn rope_clone(rope: &Rope) -> (copy: Rope)
    ensures
        rope_text(copy) == rope_text(*rope),
{
    rope.clone()
}

} // verus!
