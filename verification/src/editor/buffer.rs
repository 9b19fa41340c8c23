//! One open file: its text, and whether the text has been changed since it
//! was loaded or saved.
//!
//! The text can be edited: what a caller shows is the text of the buffer, and
//! what comes back from the screen replaces it where it differs.

use vstd::prelude::*;
use ropey::Rope;
use crate::editor::rope::{rope_clone, rope_from_str, rope_text, rope_to_string};
use crate::editor::syntax::{syntax_for_extension, syntax_for_first_line, SyntaxCatalog, SyntaxEntry};
use crate::error::Error;
use crate::text::{first_line, first_line_of, text_of};

verus! {

/// One open file.
pub struct Buffer {
    content: Rope,
    path: String,
    syntax: Option<String>,
    modified: bool,
}

/// A [`Buffer`] as a plain value.
pub struct BufferView {
    /// The text as it stands in memory.
    pub content: Seq<char>,
    /// The path of the file that the text was loaded from.
    pub path: Seq<char>,
    /// The name of the syntax that the file is taken to be written in.
    pub syntax: Option<Seq<char>>,
    /// Whether the text differs from what was last loaded or saved.
    pub modified: bool,
}

impl BufferView {
    /// The buffer after the screen has shown its text and handed back `shown`:
    /// unchanged where `shown` is the text, else holding `shown` and modified.
    pub open spec fn edited(self, shown: Seq<char>) -> BufferView {
        if shown == self.content {
            self
        } else {
            BufferView { content: shown, modified: true, ..self }
        }
    }

    /// The buffer after its text has been written to its file.
    pub open spec fn saved(self) -> BufferView {
        BufferView { modified: false, ..self }
    }
}

/// The syntax of a file: by its extension where it has one, else by its first line.
pub open spec fn syntax_hint(
    entries: Seq<SyntaxEntry>,
    extension: Seq<char>,
    content: Seq<char>,
) -> Option<Seq<char>> {
    if extension.len() > 0 {
        syntax_for_extension(entries, extension)
    } else {
        syntax_for_first_line(entries, first_line(content))
    }
}

impl View for Buffer {
    type V = BufferView;

    closed spec fn view(&self) -> BufferView {
        BufferView {
            content: rope_text(self.content),
            path: self.path@,
            syntax: text_of(self.syntax),
            modified: self.modified,
        }
    }
}

impl Buffer {
    /// A buffer that holds `content` as loaded from `path`, with the syntax
    /// that a lookup gave.
    pub fn with_syntax(content: &str, path: &str, syntax: Option<String>) -> (buffer: Buffer)
        ensures
            buffer@ == (BufferView {
                content: content@,
                path: path@,
                syntax: text_of(syntax),
                modified: false,
            }),
    {
        Buffer { content: rope_from_str(content), path: path.to_owned(), syntax, modified: false }
    }

    /// A buffer that holds `content` as loaded from `path`. The syntax is
    /// looked up by `extension` where that is not empty, else by the first
    /// line of `content`; a lookup that finds nothing leaves it unset.
    pub fn new(content: String, path: &str, extension: &str, catalog: &SyntaxCatalog) -> (buffer:
        Buffer)
        ensures
            buffer@ == (BufferView {
                content: content@,
                path: path@,
                syntax: syntax_hint(catalog.entries(), extension@, content@),
                modified: false,
            }),
    {
        let syntax = if !extension.is_empty() {
            catalog.by_extension(extension)
        } else {
            catalog.by_first_line(first_line_of(content.as_str()))
        };
        Buffer::with_syntax(content.as_str(), path, syntax)
    }

    /// The text as it stands in memory.
    pub fn text(&self) -> (text: String)
        ensures
            text@ == self@.content,
    {
        rope_to_string(&self.content)
    }

    /// The path of the file that the text was loaded from.
    pub fn path(&self) -> (path: &String)
        ensures
            path@ == self@.path,
    {
        &self.path
    }

    /// The name of the syntax that the file is taken to be written in.
    pub fn syntax(&self) -> (syntax: &Option<String>)
        ensures
            text_of(*syntax) == self@.syntax,
    {
        &self.syntax
    }

    /// Whether the text differs from what was last loaded or saved.
    pub fn is_modified(&self) -> (modified: bool)
        ensures
            modified == self@.modified,
    {
        self.modified
    }

    /// Takes the text that the screen hands back after showing this buffer.
    /// Where it differs from the buffer's text it replaces it, and the buffer
    /// counts as modified.
    pub fn apply_edit(&mut self, shown: &str)
        ensures
            final(self)@ == old(self)@.edited(shown@),
    {
        let current = rope_to_string(&self.content);
        if !crate::text::same_text(shown, current.as_str()) {
            self.content = rope_from_str(shown);
            self.modified = true;
        }
    }

    /// Takes the outcome of writing the buffer's text to its file. After a
    /// write that succeeded the buffer counts as unmodified. A write that
    /// failed is handed back as the error, and the buffer stays as it was.
    pub fn save(&mut self, written: Result<(), Error>) -> (r: Result<(), Error>)
        ensures
            r == written,
            final(self)@ == match written {
                Ok(_) => old(self)@.saved(),
                Err(_) => old(self)@,
            },
    {
        if written.is_ok() {
            self.modified = false;
        }
        written
    }

    /// A second buffer with the same text, path, syntax and flag.
    pub fn duplicate(&self) -> (copy: Buffer)
        ensures
            copy@ == self@,
    {
        Buffer {
            content: rope_clone(&self.content),
            path: self.path.clone(),
            syntax: match &self.syntax {
                Some(name) => Some(name.clone()),
                None => None,
            },
            modified: self.modified,
        }
    }
}

} // verus!
