//! The files that are open in tabs.
//!
//! An [`EditorState`] holds one [`Buffer`] for each open file, the order of
//! the tabs, and which tab is in front. It reads no file itself: the caller
//! reads, and hands over what the read gave.

use vstd::prelude::*;
use vstd::hash_map::StringHashMap;
use crate::editor::buffer::{syntax_hint, Buffer, BufferView};
use crate::editor::paths::{file_name, file_name_of};
use crate::editor::syntax::{SyntaxCatalog, SyntaxEntry};
use crate::error::Error;
use crate::text::{extension, extension_of, same_text, text_of};

pub mod buffer;
pub mod paths;
pub mod rope;
pub mod syntax;

verus! {

/// The open files of an editor as a plain value.
pub struct EditorView {
    /// The buffer of each open file, by the file's path.
    pub buffers: Map<Seq<char>, BufferView>,
    /// The paths of the open files in the order of their tabs.
    pub tab_order: Seq<Seq<char>>,
    /// The path of the file whose tab is in front, if any is.
    pub active: Option<Seq<char>>,
}

/// The test that a tab is not that of `path`.
pub open spec fn other_than(path: Seq<char>) -> spec_fn(Seq<char>) -> bool {
    |tab: Seq<char>| tab != path
}

/// `tabs` without `path`.
pub open spec fn without(tabs: Seq<Seq<char>>, path: Seq<char>) -> Seq<Seq<char>> {
    tabs.filter(other_than(path))
}

impl EditorView {
    /// Each open file has one tab and one buffer, which knows the file's
    /// path, and the tab in front is that of an open file.
    pub open spec fn wf(self) -> bool {
        &&& self.tab_order.no_duplicates()
        &&& forall|path: Seq<char>| self.buffers.contains_key(path) <==> self.tab_order.contains(path)
        &&& forall|path: Seq<char>|
            self.buffers.contains_key(path) ==> (#[trigger] self.buffers[path]).path == path
        &&& self.active matches Some(path) ==> self.buffers.contains_key(path)
    }

    /// Whether the file at `path` is open.
    pub open spec fn is_open(self, path: Seq<char>) -> bool {
        self.buffers.contains_key(path)
    }

    /// The editor after `path` was opened, `loaded` being the buffer made of
    /// what the file holds. A file that is open already keeps its buffer and
    /// its tab; a new one gets the last tab. Either way its tab comes to the
    /// front.
    pub open spec fn opened(self, path: Seq<char>, loaded: BufferView) -> EditorView {
        if self.is_open(path) {
            EditorView { active: Some(path), ..self }
        } else {
            EditorView {
                buffers: self.buffers.insert(path, loaded),
                tab_order: self.tab_order.push(path),
                active: Some(path),
            }
        }
    }

    /// The editor after `path` was closed: its buffer and its tab are gone.
    /// Where its tab was in front, the last of the tabs that are left comes to
    /// the front, or none where none is left.
    pub open spec fn closed(self, path: Seq<char>) -> EditorView {
        let rest = without(self.tab_order, path);
        EditorView {
            buffers: self.buffers.remove(path),
            tab_order: rest,
            active: if self.active == Some(path) {
                if rest.len() > 0 {
                    Some(rest.last())
                } else {
                    None
                }
            } else {
                self.active
            },
        }
    }

    /// The editor after the tab of `path` was picked: it is in front where the
    /// file is open, and nothing changes where it is not.
    pub open spec fn selected(self, path: Seq<char>) -> EditorView {
        if self.is_open(path) {
            EditorView { active: Some(path), ..self }
        } else {
            self
        }
    }

    /// The editor after the screen has shown the buffer in front and handed
    /// back `shown`.
    pub open spec fn edited(self, shown: Seq<char>) -> EditorView {
        match self.active {
            Some(path) => if self.is_open(path) {
                EditorView {
                    buffers: self.buffers.insert(path, self.buffers[path].edited(shown)),
                    ..self
                }
            } else {
                self
            },
            None => self,
        }
    }
}

/// The characters of each path of a list.
pub open spec fn paths_of(paths: Seq<String>) -> Seq<Seq<char>> {
    paths.map_values(|path: String| path@)
}

/// The extension by which the syntax of the file at `path` is looked up:
/// that of its file name, or nothing where the path has no file name.
pub open spec fn extension_hint(path: Seq<char>) -> Seq<char> {
    match file_name_of(path) {
        Some(name) => extension_of(name),
        None => Seq::empty(),
    }
}

/// The buffer that opening `path` makes of the text `content`.
pub open spec fn loaded_buffer(
    entries: Seq<SyntaxEntry>,
    path: Seq<char>,
    content: Seq<char>,
) -> BufferView {
    BufferView {
        content,
        path,
        syntax: syntax_hint(entries, extension_hint(path), content),
        modified: false,
    }
}

/// The label of the tab of `path`: the file name, or "Untitled" where the path has none.
pub open spec fn tab_label(path: Seq<char>) -> Seq<char> {
    label_of(file_name_of(path))
}

/// The label of a tab whose path has the file name `file_name`.
pub open spec fn label_of(file_name: Option<Seq<char>>) -> Seq<char> {
    match file_name {
        Some(name) => name,
        None => "Untitled"@,
    }
}

/// One tab as the screen shows it.
pub struct Tab {
    /// The path of the file.
    pub path: String,
    /// What the tab is labelled with.
    pub label: String,
    /// Whether the tab is in front.
    pub is_active: bool,
}

impl Tab {
    /// The tab of `path` in an editor whose tab in front is `active`.
    pub open spec fn shows(self, path: Seq<char>, active: Option<Seq<char>>) -> bool {
        &&& self.path@ == path
        &&& self.label@ == tab_label(path)
        &&& self.is_active == (active == Some(path))
    }
}

/// The label of a tab whose path has the file name `file_name`.
pub fn label_for(file_name: Option<String>) -> (label: String)
    ensures
        label@ == label_of(text_of(file_name)),
{
    match file_name {
        Some(name) => name,
        None => "Untitled".to_owned(),
    }
}

/// The extension of a file name that may be missing, empty where there is none.
pub fn extension_for(file_name: &Option<String>) -> (hint: String)
    ensures
        hint@ == match text_of(*file_name) {
            Some(name) => extension_of(name),
            None => Seq::empty(),
        },
{
    match file_name {
        Some(name) => extension(name.as_str()).to_owned(),
        None => String::new(),
    }
}

/// The files that are open in tabs.
pub struct EditorState {
    buffers: StringHashMap<Buffer>,
    tab_order: Vec<String>,
    active: Option<String>,
    syntaxes: SyntaxCatalog,
}

impl View for EditorState {
    type V = EditorView;

    closed spec fn view(&self) -> EditorView {
        EditorView {
            buffers: self.buffers@.map_values(|buffer: Buffer| buffer@),
            tab_order: paths_of(self.tab_order@),
            active: text_of(self.active),
        }
    }
}

impl EditorState {
    /// The syntax definitions that the editor looks files up in.
    pub closed spec fn syntax_entries(&self) -> Seq<SyntaxEntry> {
        self.syntaxes.entries()
    }

    /// The editor is in a state that its own operations lead to.
    pub open spec fn wf(&self) -> bool {
        self@.wf()
    }

    /// An editor with no file open, which looks syntaxes up in `syntaxes`.
    pub fn with_syntaxes(syntaxes: SyntaxCatalog) -> (editor: Self)
        ensures
            editor.wf(),
            editor@.buffers == Map::<Seq<char>, BufferView>::empty(),
            editor@.tab_order == Seq::<Seq<char>>::empty(),
            editor@.active is None,
            editor.syntax_entries() == syntaxes.entries(),
    {
        let editor = EditorState {
            buffers: StringHashMap::new(),
            tab_order: Vec::new(),
            active: None,
            syntaxes,
        };
        proof {
            assert(editor@.buffers =~= Map::<Seq<char>, BufferView>::empty());
            assert(editor@.tab_order =~= Seq::<Seq<char>>::empty());
        }
        editor
    }

    /// An editor with no file open, which looks syntaxes up in the bundled definitions.
    pub fn new() -> (editor: Self)
        ensures
            editor.wf(),
            editor@.buffers == Map::<Seq<char>, BufferView>::empty(),
            editor@.tab_order == Seq::<Seq<char>>::empty(),
            editor@.active is None,
    {
        EditorState::with_syntaxes(SyntaxCatalog::load_defaults())
    }

    /// Whether the file at `path` is open.
    pub fn is_file_open(&self, path: &str) -> (open: bool)
        ensures
            open == self@.is_open(path@),
    {
        self.buffers.contains_key(path)
    }

    /// Opens the file at `path`. `read` is what reading the file gave; it is
    /// looked at only where the file is not open yet. A file that is open
    /// keeps its buffer, edits and all. A new file gets a buffer of the text
    /// read and the last tab. Either way its tab comes to the front. Where the
    /// read failed for a file that is not open, the error comes back and
    /// nothing changes.
    pub fn open_file(&mut self, path: String, read: Result<String, Error>) -> (r: Result<
        (),
        Error,
    >)
        requires
            old(self).wf(),
        ensures
            final(self).wf(),
            final(self).syntax_entries() == old(self).syntax_entries(),
            match read {
                Ok(content) => r is Ok && final(self)@ == old(self)@.opened(
                    path@,
                    loaded_buffer(old(self).syntax_entries(), path@, content@),
                ),
                Err(e) => if old(self)@.is_open(path@) {
                    r is Ok && final(self)@ == (EditorView { active: Some(path@), ..old(self)@ })
                } else {
                    r == Err::<(), Error>(e) && final(self)@ == old(self)@
                },
            },
    {
        if !self.buffers.contains_key(path.as_str()) {
            match read {
                Ok(content) => {
                    let name = file_name(path.as_str());
                    let hint = extension_for(&name);
                    let buffer = Buffer::new(
                        content,
                        path.as_str(),
                        hint.as_str(),
                        &self.syntaxes,
                    );
                    let ghost before = self@;
                    self.buffers.insert(path.clone(), buffer);
                    self.tab_order.push(path.clone());
                    self.active = Some(path);
                    proof {
                        let after = before.opened(path@, buffer@);
                        assert(self@.buffers =~= after.buffers);
                        assert(self@.tab_order =~= after.tab_order);
                        lemma_opened_wf(before, path@, buffer@);
                    }
                    Ok(())
                },
                Err(e) => Err(e),
            }
        } else {
            self.active = Some(path);
            Ok(())
        }
    }

    /// Closes the file at `path`: its buffer is dropped, edits and all, and
    /// its tab goes. Where that tab was in front, the last tab that is left
    /// comes to the front.
    pub fn close_file(&mut self, path: &str)
        requires
            old(self).wf(),
        ensures
            final(self).wf(),
            final(self).syntax_entries() == old(self).syntax_entries(),
            final(self)@ == old(self)@.closed(path@),
    {
        let ghost before = self@;
        self.buffers.remove(path);
        let mut kept: Vec<String> = Vec::new();
        let mut i: usize = 0;
        proof {
            assert(self.tab_order@.take(0) =~= Seq::<String>::empty());
            assert(paths_of(Seq::<String>::empty()) =~= Seq::<Seq<char>>::empty());
            lemma_without_empty(path@);
        }
        while i < self.tab_order.len()
            invariant
                i <= self.tab_order.len(),
                paths_of(kept@) == without(paths_of(self.tab_order@.take(i as int)), path@),
            decreases self.tab_order.len() - i,
        {
            let tab = &self.tab_order[i];
            proof {
                let seen = self.tab_order@.take(i as int);
                assert(self.tab_order@.take(i + 1) =~= seen.push(*tab));
                assert(paths_of(seen.push(*tab)) =~= paths_of(seen).push(tab@));
                lemma_without_push(paths_of(seen), tab@, path@);
                assert(paths_of(kept@.push(*tab)) =~= paths_of(kept@).push(tab@));
            }
            if !same_text(tab.as_str(), path) {
                kept.push(tab.clone());
            }
            i = i + 1;
        }
        proof {
            assert(self.tab_order@.take(i as int) =~= self.tab_order@);
        }
        self.tab_order = kept;
        let was_active = match &self.active {
            Some(active) => same_text(active.as_str(), path),
            None => false,
        };
        if was_active {
            let left = self.tab_order.len();
            if left > 0 {
                self.active = Some(self.tab_order[left - 1].clone());
            } else {
                self.active = None;
            }
        }
        proof {
            let after = before.closed(path@);
            assert(self@.buffers =~= after.buffers);
            assert(self@.tab_order == after.tab_order);
            lemma_closed_wf(before, path@);
        }
    }

    /// Brings the tab of `path` to the front where the file is open, and
    /// changes nothing where it is not. Says whether the file is open.
    pub fn select_tab(&mut self, path: &str) -> (open: bool)
        requires
            old(self).wf(),
        ensures
            final(self).wf(),
            final(self).syntax_entries() == old(self).syntax_entries(),
            final(self)@ == old(self)@.selected(path@),
            open == old(self)@.is_open(path@),
    {
        if self.buffers.contains_key(path) {
            self.active = Some(path.to_owned());
            true
        } else {
            false
        }
    }

    /// The tabs in their order, each with its label and whether it is in front.
    pub fn tabs(&self) -> (tabs: Vec<Tab>)
        ensures
            tabs.len() == self@.tab_order.len(),
            forall|i: int|
                0 <= i < tabs.len() ==> (#[trigger] tabs[i]).shows(
                    self@.tab_order[i],
                    self@.active,
                ),
    {
        let mut tabs: Vec<Tab> = Vec::new();
        let mut i: usize = 0;
        while i < self.tab_order.len()
            invariant
                i <= self.tab_order.len(),
                tabs.len() == i,
                forall|j: int|
                    0 <= j < i ==> (#[trigger] tabs[j]).shows(
                        self.tab_order@[j]@,
                        text_of(self.active),
                    ),
            decreases self.tab_order.len() - i,
        {
            let path = &self.tab_order[i];
            let is_active = match &self.active {
                Some(active) => same_text(active.as_str(), path.as_str()),
                None => false,
            };
            let label = label_for(file_name(path.as_str()));
            tabs.push(Tab { path: path.clone(), label, is_active });
            i = i + 1;
        }
        tabs
    }

    /// The path of the file whose tab is in front.
    pub fn active_path(&self) -> (path: Option<&String>)
        ensures
            match path {
                Some(path) => self@.active == Some(path@),
                None => self@.active is None,
            },
    {
        self.active.as_ref()
    }

    /// The buffer of the file whose tab is in front.
    pub fn active_buffer(&self) -> (buffer: Option<&Buffer>)
        requires
            self.wf(),
        ensures
            match buffer {
                Some(buffer) => self@.active matches Some(path) && self@.buffers[path]
                    == buffer@,
                None => self@.active is None,
            },
    {
        match &self.active {
            Some(path) => self.buffers.get(path.as_str()),
            None => None,
        }
    }

    /// The buffer of the file at `path`, where it is open.
    pub fn buffer(&self, path: &str) -> (buffer: Option<&Buffer>)
        ensures
            match buffer {
                Some(buffer) => self@.is_open(path@) && self@.buffers[path@] == buffer@,
                None => !self@.is_open(path@),
            },
    {
        self.buffers.get(path)
    }

    /// Takes the text that the screen hands back after showing the buffer in
    /// front. Where it differs from that buffer's text it replaces it, and
    /// the buffer counts as modified.
    pub fn edit_active(&mut self, shown: &str)
        requires
            old(self).wf(),
        ensures
            final(self).wf(),
            final(self).syntax_entries() == old(self).syntax_entries(),
            final(self)@ == old(self)@.edited(shown@),
    {
        let ghost before = self@;
        let edited = match &self.active {
            Some(path) => match self.buffers.get(path.as_str()) {
                Some(buffer) => {
                    let mut copy = buffer.duplicate();
                    copy.apply_edit(shown);
                    Some((path.clone(), copy))
                },
                None => None,
            },
            None => None,
        };
        match edited {
            Some((path, buffer)) => {
                self.buffers.insert(path, buffer);
                proof {
                    assert(self@.buffers =~= before.edited(shown@).buffers);
                    lemma_edited_wf(before, shown@);
                }
            },
            None => {},
        }
    }
}

/// Nothing is left of no tabs.
pub proof fn lemma_without_empty(path: Seq<char>)
    ensures
        without(Seq::empty(), path) == Seq::<Seq<char>>::empty(),
{
    reveal(Seq::filter);
}

/// Taking `path` out of tabs that end in `last` keeps `last` unless it is `path`.
pub proof fn lemma_without_push(tabs: Seq<Seq<char>>, last: Seq<char>, path: Seq<char>)
    ensures
        without(tabs.push(last), path) == if last != path {
            without(tabs, path).push(last)
        } else {
            without(tabs, path)
        },
{
    tabs.lemma_filter_push(last, other_than(path));
}

/// What is left of the tabs without `path`: the other tabs, none of them twice
/// where none was there twice before.
pub proof fn lemma_without(tabs: Seq<Seq<char>>, path: Seq<char>)
    ensures
        forall|tab: Seq<char>|
            #[trigger] without(tabs, path).contains(tab) <==> (tabs.contains(tab) && tab != path),
        tabs.no_duplicates() ==> without(tabs, path).no_duplicates(),
        !tabs.contains(path) ==> without(tabs, path) == tabs,
    decreases tabs.len(),
{
    let rest = without(tabs, path);
    assert forall|tab: Seq<char>| #[trigger] rest.contains(tab) <==> (tabs.contains(tab) && tab
        != path) by {
        if rest.contains(tab) {
            tabs.lemma_filter_contains_rev(other_than(path), tab);
            let k = choose|k: int| 0 <= k < rest.len() && rest[k] == tab;
            tabs.lemma_filter_pred(other_than(path), k);
        }
        if tabs.contains(tab) && tab != path {
            let i = choose|i: int| 0 <= i < tabs.len() && tabs[i] == tab;
            tabs.lemma_filter_contains(other_than(path), i);
        }
    }
    if tabs.len() == 0 {
        lemma_without_empty(path);
        assert(tabs =~= Seq::empty());
    } else {
        let front = tabs.drop_last();
        let last = tabs.last();
        assert(tabs =~= front.push(last));
        lemma_without(front, path);
        lemma_without_push(front, last, path);
        let before = without(front, path);
        if tabs.no_duplicates() && last != path {
            assert(rest == before.push(last));
            assert forall|a: int, b: int| 0 <= a < rest.len() && 0 <= b < rest.len() && a
                != b implies rest[a] != rest[b] by {
                let (low, high) = if a < b {
                    (a, b)
                } else {
                    (b, a)
                };
                if high == before.len() {
                    if before[low] == last {
                        assert(before.contains(last));
                        assert(front.contains(last));
                        let j = choose|j: int| 0 <= j < front.len() && front[j] == last;
                        assert(tabs[j] == tabs[tabs.len() - 1]);
                    }
                } else {
                    assert(before[low] != before[high]);
                }
            }
        }
        if !tabs.contains(path) {
            assert(tabs[tabs.len() - 1] != path);
            if front.contains(path) {
                let j = choose|j: int| 0 <= j < front.len() && front[j] == path;
                assert(tabs[j] == path);
            }
            assert(rest =~= tabs);
        }
    }
}

/// Opening a file leads from one good state to another.
pub proof fn lemma_opened_wf(editor: EditorView, path: Seq<char>, loaded: BufferView)
    requires
        editor.wf(),
        loaded.path == path,
    ensures
        editor.opened(path, loaded).wf(),
{
    let after = editor.opened(path, loaded);
    if !editor.is_open(path) {
        let tabs = editor.tab_order;
        let grown = after.tab_order;
        assert(grown == tabs.push(path));
        assert forall|p: Seq<char>| after.buffers.contains_key(p) <==> grown.contains(p) by {
            if grown.contains(p) {
                let k = choose|k: int| 0 <= k < grown.len() && grown[k] == p;
                if k < tabs.len() {
                    assert(tabs[k] == p);
                    assert(tabs.contains(p));
                }
            }
            if after.buffers.contains_key(p) {
                if p == path {
                    assert(grown[grown.len() - 1] == p);
                } else {
                    assert(tabs.contains(p));
                    let k = choose|k: int| 0 <= k < tabs.len() && tabs[k] == p;
                    assert(grown[k] == p);
                }
            }
        }
        assert forall|a: int, b: int| 0 <= a < grown.len() && 0 <= b < grown.len() && a
            != b implies grown[a] != grown[b] by {
            if a == tabs.len() {
                assert(tabs[b] == grown[b]);
                assert(tabs.contains(tabs[b]));
            } else if b == tabs.len() {
                assert(tabs[a] == grown[a]);
                assert(tabs.contains(tabs[a]));
            } else {
                assert(tabs[a] != tabs[b]);
            }
        }
    }
}

/// Closing a file leads from one good state to another.
pub proof fn lemma_closed_wf(editor: EditorView, path: Seq<char>)
    requires
        editor.wf(),
    ensures
        editor.closed(path).wf(),
{
    let after = editor.closed(path);
    let rest = after.tab_order;
    lemma_without(editor.tab_order, path);
    assert forall|p: Seq<char>| after.buffers.contains_key(p) <==> rest.contains(p) by {
        assert(rest.contains(p) <==> (editor.tab_order.contains(p) && p != path));
    }
    if editor.active == Some(path) && rest.len() > 0 {
        assert(rest.contains(rest[rest.len() - 1]));
    }
}

/// Picking a tab leads from one good state to another.
pub proof fn lemma_selected_wf(editor: EditorView, path: Seq<char>)
    requires
        editor.wf(),
    ensures
        editor.selected(path).wf(),
{
}

/// An edit leads from one good state to another.
pub proof fn lemma_edited_wf(editor: EditorView, shown: Seq<char>)
    requires
        editor.wf(),
    ensures
        editor.edited(shown).wf(),
{
    let after = editor.edited(shown);
    if editor.active matches Some(path) {
        assert forall|p: Seq<char>| after.buffers.contains_key(p) <==> after.tab_order.contains(
            p,
        ) by {
            assert(after.buffers.contains_key(p) <==> editor.buffers.contains_key(p));
        }
    }
}

/// A file that has just been opened is open.
pub proof fn lemma_open_then_is_open(editor: EditorView, path: Seq<char>, loaded: BufferView)
    ensures
        editor.opened(path, loaded).is_open(path),
{
}

/// A file that has just been closed is not open.
pub proof fn lemma_close_then_not_open(editor: EditorView, path: Seq<char>)
    ensures
        !editor.closed(path).is_open(path),
{
}

/// Opening a file that is open already changes nothing but the tab in front:
/// the file keeps its one tab, and every buffer stays as it is, modified or not.
pub proof fn lemma_reopen_keeps_tabs_and_buffers(
    editor: EditorView,
    path: Seq<char>,
    loaded: BufferView,
)
    requires
        editor.is_open(path),
    ensures
        editor.opened(path, loaded).tab_order == editor.tab_order,
        editor.opened(path, loaded).buffers == editor.buffers,
        editor.opened(path, loaded).active == Some(path),
{
}

/// Closing the file whose tab is in front brings the last of the other tabs
/// to the front: the tab before it where it was the last of several, and none
/// where it was the only one.
pub proof fn lemma_close_front_tab(editor: EditorView, path: Seq<char>)
    requires
        editor.wf(),
        editor.active == Some(path),
    ensures
        editor.closed(path).tab_order.len() == editor.tab_order.len() - 1,
        editor.tab_order.len() == 1 ==> editor.closed(path).active is None,
        editor.tab_order.len() >= 2 ==> editor.closed(path).active == Some(
            editor.closed(path).tab_order.last(),
        ),
        editor.tab_order.len() >= 2 && editor.tab_order.last() == path ==> editor.closed(
            path,
        ).active == Some(editor.tab_order[editor.tab_order.len() - 2]),
{
    lemma_close_removes_one_tab(editor.tab_order, path);
}

/// Taking out a path that is among the tabs once leaves one tab less, and
/// leaves the others as they were where the path was the last.
pub proof fn lemma_close_removes_one_tab(tabs: Seq<Seq<char>>, path: Seq<char>)
    requires
        tabs.no_duplicates(),
        tabs.contains(path),
    ensures
        without(tabs, path).len() == tabs.len() - 1,
        tabs.last() == path ==> without(tabs, path) == tabs.drop_last(),
    decreases tabs.len(),
{
    let front = tabs.drop_last();
    let last = tabs.last();
    assert(tabs =~= front.push(last));
    lemma_without_push(front, last, path);
    lemma_without(front, path);
    if last == path {
        if front.contains(path) {
            let j = choose|j: int| 0 <= j < front.len() && front[j] == path;
            assert(tabs[j] == tabs[tabs.len() - 1]);
        }
    } else {
        let i = choose|i: int| 0 <= i < tabs.len() && tabs[i] == path;
        assert(front[i] == path);
        assert(front.no_duplicates());
        lemma_close_removes_one_tab(front, path);
    }
}

} // verus!
