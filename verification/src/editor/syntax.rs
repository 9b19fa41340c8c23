//! Which syntax a file is written in, looked up in the definitions that the
//! `syntect` crate bundles.

use vstd::prelude::*;
use syntect::parsing::SyntaxSet;
use crate::text::text_of;

verus! {

/// `syntect::parsing::SyntaxSet`, a list of syntax definitions.
#[verifier::external_type_specification]
#[verifier::external_body]
pub struct ExSyntaxSet(syntect::parsing::SyntaxSet);

/// What a lookup reads of one syntax definition: its name, the file
/// extensions it is used for, and the pattern for a first line, if it has one.
pub struct SyntaxEntry {
    pub name: Seq<char>,
    pub extensions: Seq<Seq<char>>,
    pub first_line_pattern: Option<Seq<char>>,
}

/// The definitions that a set holds, in the order in which they were loaded.
pub uninterp spec fn syntax_entries(set: SyntaxSet) -> Seq<SyntaxEntry>;

/// The name of the definition that claims `line` as the first line of a file:
/// one of those in `entries` whose pattern for first lines, a regular
/// expression, is found in the line.
pub uninterp spec fn syntax_for_first_line(entries: Seq<SyntaxEntry>, line: Seq<char>) -> Option<
    Seq<char>,
>;

/// An ASCII capital letter as the small one; any other character as it is.
pub open spec fn ascii_lower(c: char) -> char {
    if 'A' <= c <= 'Z' {
        ((c as u8) + 32) as char
    } else {
        c
    }
}

/// `a` and `b` are the same but for the case of ASCII letters.
pub open spec fn same_ignoring_ascii_case(a: Seq<char>, b: Seq<char>) -> bool {
    &&& a.len() == b.len()
    &&& forall|i: int| 0 <= i < a.len() ==> ascii_lower(a[i]) == ascii_lower(b[i])
}

/// The definition lists `extension` among its own, in whatever case.
pub open spec fn claims_extension(entry: SyntaxEntry, extension: Seq<char>) -> bool {
    exists|k: int|
        0 <= k < entry.extensions.len() && same_ignoring_ascii_case(
            #[trigger] entry.extensions[k],
            extension,
        )
}

/// The name of the last definition that claims `extension`.
pub open spec fn syntax_for_extension(entries: Seq<SyntaxEntry>, extension: Seq<char>) -> Option<
    Seq<char>,
>
    decreases entries.len(),
{
    if entries.len() == 0 {
        None
    } else if claims_extension(entries.last(), extension) {
        Some(entries.last().name)
    } else {
        syntax_for_extension(entries.drop_last(), extension)
    }
}

/// The syntax definitions that lookups go through. A catalog holds the
/// definitions that `syntect` bundles; there is no other way to make one.
pub struct SyntaxCatalog {
    set: SyntaxSet,
}

/// `SyntaxSet::load_defaults_newlines`: the definitions that `syntect` bundles.
#[verifier::external_body]
fn load_default_syntaxes() -> SyntaxSet {
    SyntaxSet::load_defaults_newlines()
}

/// `SyntaxSet::find_syntax_by_extension`, which walks the definitions from the
/// last to the first and stops at one that lists the extension, compared
/// without regard to ASCII case. What comes back is that definition's name.
#[verifier::external_body]
fn find_by_extension(catalog: &SyntaxCatalog, extension: &str) -> (name: Option<String>)
    ensures
        text_of(name) == syntax_for_extension(syntax_entries(catalog.set), extension@),
{
    catalog.set.find_syntax_by_extension(extension).map(|syntax| syntax.name.clone())
}

/// `SyntaxSet::find_syntax_by_first_line`, which tries the first-line patterns
/// of the definitions on the line and gives the name of the one it stops at.
/// The result depends on the definitions and on the line alone. The patterns
/// of a catalog are those of the bundled definitions, which all compile.
#[verifier::external_body]
fn find_by_first_line(catalog: &SyntaxCatalog, line: &str) -> (name: Option<String>)
    ensures
        text_of(name) == syntax_for_first_line(syntax_entries(catalog.set), line@),
{
    catalog.set.find_syntax_by_first_line(line).map(|syntax| syntax.name.clone())
}

impl SyntaxCatalog {
    /// The definitions of the catalog, in the order in which they were loaded.
    pub closed spec fn entries(&self) -> Seq<SyntaxEntry> {
        syntax_entries(self.set)
    }

    /// The catalog of the bundled definitions.
    pub fn load_defaults() -> (catalog: Self) {
        SyntaxCatalog { set: load_default_syntaxes() }
    }

    /// The name of the syntax for files with this extension, if there is one.
    pub fn by_extension(&self, extension: &str) -> (name: Option<String>)
        ensures
            text_of(name) == syntax_for_extension(self.entries(), extension@),
    {
        find_by_extension(self, extension)
    }

    /// The name of the syntax for files that begin with this line, if there is one.
    pub fn by_first_line(&self, line: &str) -> (name: Option<String>)
        ensures
            text_of(name) == syntax_for_first_line(self.entries(), line@),
    {
        find_by_first_line(self, line)
    }
}

} // verus!
