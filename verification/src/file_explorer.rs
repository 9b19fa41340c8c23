//! The tree of files under a workspace folder.
//!
//! A caller scans the folder into an [`FsEntry`] and hands it over. The tree
//! leaves out what is hidden, and holds the rest sorted: under each directory
//! the directories first, then the files, each group by name.

use vstd::prelude::*;
use crate::error::Error;
use crate::file_explorer::order::{
    is_sorted, lemma_stable_sort_is_sorted, lemma_stable_sort_of_parts, merged, node_le,
    stable_sort, NodeView,
};
use crate::text::{str_le, text_of};

pub mod order;

verus! {

/// What a scan found at one path: a file, or a directory with what it holds, in
/// the order in which the directory listed it. `file_name` is the last
/// component of `path`, where it has one.
pub enum FsEntry {
    File { file_name: Option<String>, path: String },
    Directory { file_name: Option<String>, path: String, entries: Vec<FsEntry> },
}

/// An [`FsEntry`] as a plain value.
pub enum EntryView {
    File { file_name: Option<Seq<char>>, path: Seq<char> },
    Directory { file_name: Option<Seq<char>>, path: Seq<char>, entries: Seq<EntryView> },
}

impl EntryView {
    /// The last component of the path, where it has one.
    pub open spec fn file_name(self) -> Option<Seq<char>> {
        match self {
            EntryView::File { file_name, .. } => file_name,
            EntryView::Directory { file_name, .. } => file_name,
        }
    }

    /// The path that was scanned.
    pub open spec fn path(self) -> Seq<char> {
        match self {
            EntryView::File { path, .. } => path,
            EntryView::Directory { path, .. } => path,
        }
    }
}

/// The entries of a listing as plain values, in the same order.
pub open spec fn entry_views(entries: Seq<FsEntry>) -> Seq<EntryView>
    decreases entries,
{
    if entries.len() == 0 {
        Seq::empty()
    } else {
        entry_views(entries.drop_last()).push(entries.last()@)
    }
}

impl View for FsEntry {
    type V = EntryView;

    open spec fn view(&self) -> EntryView
        decreases self,
    {
        match self {
            FsEntry::File { file_name, path } => EntryView::File {
                file_name: text_of(*file_name),
                path: path@,
            },
            FsEntry::Directory { file_name, path, entries } => EntryView::Directory {
                file_name: text_of(*file_name),
                path: path@,
                entries: entry_views(entries@),
            },
        }
    }
}

/// An entry is hidden where it has a file name and that name begins with a dot.
pub open spec fn is_hidden(file_name: Option<Seq<char>>) -> bool {
    file_name matches Some(name) && name.len() > 0 && name[0] == '.'
}

/// The name under which an entry is shown: its file name, or the whole path
/// where it has none.
pub open spec fn display_name(file_name: Option<Seq<char>>, path: Seq<char>) -> Seq<char> {
    match file_name {
        Some(name) => name,
        None => path,
    }
}

/// The tree that stands for a scanned entry. A directory's children are the
/// trees of its entries that are not hidden, sorted, and it starts collapsed.
pub open spec fn tree_of(entry: EntryView) -> NodeView
    decreases entry,
{
    match entry {
        EntryView::File { file_name, path } => NodeView::File {
            name: display_name(file_name, path),
            path,
        },
        EntryView::Directory { file_name, path, entries } => NodeView::Directory {
            name: display_name(file_name, path),
            path,
            children: stable_sort(visible_trees(entries)),
            is_expanded: false,
        },
    }
}

/// The trees of the entries that are not hidden, in the order of the listing.
pub open spec fn visible_trees(entries: Seq<EntryView>) -> Seq<NodeView>
    decreases entries,
{
    if entries.len() == 0 {
        Seq::empty()
    } else if is_hidden(entries.last().file_name()) {
        visible_trees(entries.drop_last())
    } else {
        visible_trees(entries.drop_last()).push(tree_of(entries.last()))
    }
}

/// A file or a directory of the workspace.
pub enum FileNode {
    File { name: String, path: String },
    Directory { name: String, path: String, children: Vec<FileNode>, is_expanded: bool },
}

/// The nodes of a list as plain values, in the same order.
pub open spec fn views_of(nodes: Seq<FileNode>) -> Seq<NodeView>
    decreases nodes,
{
    if nodes.len() == 0 {
        Seq::empty()
    } else {
        views_of(nodes.drop_last()).push(nodes.last()@)
    }
}

impl View for FileNode {
    type V = NodeView;

    open spec fn view(&self) -> NodeView
        decreases self,
    {
        match self {
            FileNode::File { name, path } => NodeView::File { name: name@, path: path@ },
            FileNode::Directory { name, path, children, is_expanded } => NodeView::Directory {
                name: name@,
                path: path@,
                children: views_of(children@),
                is_expanded: *is_expanded,
            },
        }
    }
}

/// `views_of` keeps the length and maps each node to its view.
pub proof fn lemma_views_of(nodes: Seq<FileNode>)
    ensures
        views_of(nodes).len() == nodes.len(),
        forall|i: int| 0 <= i < nodes.len() ==> #[trigger] views_of(nodes)[i] == nodes[i]@,
    decreases nodes.len(),
{
    if nodes.len() > 0 {
        lemma_views_of(nodes.drop_last());
        assert(views_of(nodes) == views_of(nodes.drop_last()).push(nodes.last()@));
    } else {
        assert(views_of(nodes) == Seq::<NodeView>::empty());
    }
}

/// The views of a list with one more node at its end.
pub proof fn lemma_views_of_push(nodes: Seq<FileNode>, node: FileNode)
    ensures
        views_of(nodes.push(node)) == views_of(nodes).push(node@),
{
    assert(nodes.push(node).drop_last() =~= nodes);
}

/// The views of a list in two parts.
pub proof fn lemma_views_of_parts(left: Seq<FileNode>, right: Seq<FileNode>)
    ensures
        views_of(left + right) == views_of(left) + views_of(right),
{
    lemma_views_of(left);
    lemma_views_of(right);
    lemma_views_of(left + right);
    assert(views_of(left + right) =~= views_of(left) + views_of(right));
}

/// `entry_views` keeps the length and maps each entry to its view.
pub proof fn lemma_entry_views(entries: Seq<FsEntry>)
    ensures
        entry_views(entries).len() == entries.len(),
        forall|i: int| 0 <= i < entries.len() ==> #[trigger] entry_views(entries)[i] == entries[i]@,
    decreases entries.len(),
{
    if entries.len() > 0 {
        lemma_entry_views(entries.drop_last());
        assert(entry_views(entries) == entry_views(entries.drop_last()).push(entries.last()@));
    } else {
        assert(entry_views(entries) == Seq::<EntryView>::empty());
    }
}

/// Every directory of the tree, at any depth, holds its children sorted.
pub open spec fn sorted_throughout(node: NodeView) -> bool
    decreases node,
{
    match node {
        NodeView::File { .. } => true,
        NodeView::Directory { children, .. } => {
            &&& is_sorted(children)
            &&& forall|i: int| 0 <= i < children.len() ==> sorted_throughout(#[trigger] children[i])
        },
    }
}

/// The trees of a listing are those of its entries that are not hidden: each
/// such entry gives one, and nothing else does.
pub proof fn lemma_visible_trees(entries: Seq<EntryView>)
    ensures
        forall|i: int|
            0 <= i < visible_trees(entries).len() ==> exists|k: int|
                0 <= k < entries.len() && !is_hidden(entries[k].file_name())
                    && #[trigger] visible_trees(entries)[i] == tree_of(entries[k]),
        forall|k: int|
            0 <= k < entries.len() && !is_hidden(entries[k].file_name())
                ==> visible_trees(entries).contains(#[trigger] tree_of(entries[k])),
    decreases entries.len(),
{
    if entries.len() > 0 {
        let front = entries.drop_last();
        let last = entries.last();
        lemma_visible_trees(front);
        let trees = visible_trees(entries);
        let before = visible_trees(front);
        assert forall|i: int| 0 <= i < trees.len() implies exists|k: int|
            0 <= k < entries.len() && !is_hidden(entries[k].file_name()) && #[trigger] trees[i]
                == tree_of(entries[k]) by {
            if i < before.len() {
                assert(trees[i] == before[i]);
                let k = choose|k: int|
                    0 <= k < front.len() && !is_hidden(front[k].file_name()) && before[i]
                        == tree_of(front[k]);
                assert(entries[k] == front[k]);
            } else {
                assert(trees[i] == tree_of(entries[entries.len() - 1]));
            }
        }
        assert forall|k: int|
            0 <= k < entries.len() && !is_hidden(entries[k].file_name()) implies trees.contains(
            #[trigger] tree_of(entries[k]),
        ) by {
            if k < front.len() {
                assert(entries[k] == front[k]);
                let i = choose|i: int| 0 <= i < before.len() && before[i] == tree_of(front[k]);
                assert(trees[i] == before[i]);
            } else {
                assert(trees[trees.len() - 1] == tree_of(entries[k]));
            }
        }
    }
}

/// The children of a directory, as [`tree_of`] gives them for its listing.
pub open spec fn children_of(entries: Seq<EntryView>) -> Seq<NodeView> {
    stable_sort(visible_trees(entries))
}

/// The children of a directory are the trees of its entries that are not
/// hidden: a hidden entry has no child, every other entry has one.
pub proof fn lemma_hidden_entries_are_left_out(entries: Seq<EntryView>)
    ensures
        forall|i: int|
            0 <= i < children_of(entries).len() ==> exists|k: int|
                0 <= k < entries.len() && !is_hidden(entries[k].file_name())
                    && #[trigger] children_of(entries)[i] == tree_of(entries[k]),
        forall|k: int|
            0 <= k < entries.len() && !is_hidden(entries[k].file_name()) ==> children_of(
                entries,
            ).contains(#[trigger] tree_of(entries[k])),
{
    let trees = visible_trees(entries);
    let children = children_of(entries);
    lemma_visible_trees(entries);
    order::lemma_stable_sort_permutes(trees);
    assert forall|i: int| 0 <= i < children.len() implies exists|k: int|
        0 <= k < entries.len() && !is_hidden(entries[k].file_name()) && #[trigger] children[i]
            == tree_of(entries[k]) by {
        vstd::seq_lib::to_multiset_contains(children, children[i]);
        vstd::seq_lib::to_multiset_contains(trees, children[i]);
        assert(children.contains(children[i]));
        let j = choose|j: int| 0 <= j < trees.len() && trees[j] == children[i];
        let k = choose|k: int|
            0 <= k < entries.len() && !is_hidden(entries[k].file_name()) && trees[j] == tree_of(
                entries[k],
            );
        assert(children[i] == tree_of(entries[k]));
    }
    assert forall|k: int|
        0 <= k < entries.len() && !is_hidden(entries[k].file_name()) implies children.contains(
        #[trigger] tree_of(entries[k]),
    ) by {
        vstd::seq_lib::to_multiset_contains(children, tree_of(entries[k]));
        vstd::seq_lib::to_multiset_contains(trees, tree_of(entries[k]));
    }
}

/// Where every entry of a directory has a file name, no child of the
/// directory has a name that begins with a dot.
pub proof fn lemma_no_child_begins_with_dot(entries: Seq<EntryView>)
    requires
        forall|k: int| 0 <= k < entries.len() ==> (#[trigger] entries[k]).file_name() is Some,
    ensures
        forall|i: int|
            0 <= i < children_of(entries).len() ==> !is_hidden(
                Some((#[trigger] children_of(entries)[i]).name()),
            ),
{
    let children = children_of(entries);
    lemma_hidden_entries_are_left_out(entries);
    assert forall|i: int| 0 <= i < children.len() implies !is_hidden(
        Some((#[trigger] children[i]).name()),
    ) by {
        let k = choose|k: int|
            0 <= k < entries.len() && !is_hidden(entries[k].file_name()) && children[i]
                == tree_of(entries[k]);
        assert(entries[k].file_name() is Some);
    }
}

/// The tree of any entry holds the children of every directory sorted:
/// directories before files, and each kind by name.
pub proof fn lemma_tree_is_sorted(entry: EntryView)
    ensures
        sorted_throughout(tree_of(entry)),
    decreases entry,
{
    match entry {
        EntryView::File { .. } => {},
        EntryView::Directory { file_name, path, entries } => {
            let children = children_of(entries);
            lemma_stable_sort_is_sorted(visible_trees(entries));
            lemma_hidden_entries_are_left_out(entries);
            assert forall|i: int| 0 <= i < children.len() implies sorted_throughout(
                #[trigger] children[i],
            ) by {
                let k = choose|k: int|
                    0 <= k < entries.len() && !is_hidden(entries[k].file_name()) && children[i]
                        == tree_of(entries[k]);
                lemma_tree_is_sorted(entries[k]);
            }
        },
    }
}

/// Whether an entry with this file name is hidden.
pub fn hidden_name(file_name: &Option<String>) -> (r: bool)
    ensures
        r == is_hidden(text_of(*file_name)),
{
    broadcast use vstd::string::group_string_axioms;

    match file_name {
        Some(name) => {
            let mut chars = name.as_str().chars();
            match chars.next() {
                Some(first) => first == '.',
                None => false,
            }
        },
        None => false,
    }
}

impl FileNode {
    /// The name under which the node is shown.
    pub fn name(&self) -> (r: &String)
        ensures
            r@ == self@.name(),
    {
        match self {
            FileNode::File { name, .. } => name,
            FileNode::Directory { name, .. } => name,
        }
    }

    /// The path that the node stands for.
    pub fn path(&self) -> (r: &String)
        ensures
            r@ == self@.path(),
    {
        match self {
            FileNode::File { path, .. } => path,
            FileNode::Directory { path, .. } => path,
        }
    }

    /// Whether the node is a directory.
    pub fn is_directory(&self) -> (r: bool)
        ensures
            r == (self@ is Directory),
    {
        match self {
            FileNode::File { .. } => false,
            FileNode::Directory { .. } => true,
        }
    }

    /// Whether `self` may stand before `other` under one directory.
    pub fn may_precede(&self, other: &FileNode) -> (r: bool)
        ensures
            r == node_le(self@, other@),
    {
        if self.is_directory() == other.is_directory() {
            str_le(self.name().as_str(), other.name().as_str())
        } else {
            self.is_directory()
        }
    }

    /// Builds the tree that stands for a scanned entry.
    pub fn from_entry(entry: &FsEntry) -> (node: FileNode)
        ensures
            node@ == tree_of(entry@),
            sorted_throughout(node@),
        decreases entry,
    {
        proof {
            lemma_tree_is_sorted(entry@);
        }
        match entry {
            FsEntry::File { file_name, path } => FileNode::File {
                name: shown_name(file_name, path),
                path: path.clone(),
            },
            FsEntry::Directory { file_name, path, entries } => FileNode::Directory {
                name: shown_name(file_name, path),
                path: path.clone(),
                children: FileNode::children_of(entries),
                is_expanded: false,
            },
        }
    }

    /// Builds the sorted children of a directory from its listing.
    fn children_of(entries: &Vec<FsEntry>) -> (children: Vec<FileNode>)
        ensures
            views_of(children@) == children_of(entry_views(entries@)),
        decreases entries,
    {
        let mut children: Vec<FileNode> = Vec::new();
        let mut i: usize = 0;
        proof {
            assert(entries@.take(0) =~= Seq::<FsEntry>::empty());
        }
        while i < entries.len()
            invariant
                i <= entries.len(),
                views_of(children@) == visible_trees(entry_views(entries@.take(i as int))),
            decreases entries.len() - i,
        {
            let entry = &entries[i];
            proof {
                let before = entries@.take(i as int);
                let after = entries@.take(i + 1);
                assert(after.drop_last() =~= before);
                assert(after.last() == entries@[i as int]);
                let listed = entry_views(after);
                assert(listed == entry_views(before).push(entry@));
                assert(listed.drop_last() =~= entry_views(before));
                assert(listed.last() == entry@);
            }
            let hidden = match entry {
                FsEntry::File { file_name, .. } => hidden_name(file_name),
                FsEntry::Directory { file_name, .. } => hidden_name(file_name),
            };
            if !hidden {
                let child = FileNode::from_entry(entry);
                proof {
                    lemma_views_of_push(children@, child);
                }
                children.push(child);
            }
            i = i + 1;
        }
        proof {
            assert(entries@.take(i as int) =~= entries@);
        }
        sort_nodes(children)
    }
}

/// Sorts `nodes`, keeping nodes that rank alike in their order.
pub fn sort_nodes(nodes: Vec<FileNode>) -> (sorted: Vec<FileNode>)
    ensures
        views_of(sorted@) == stable_sort(views_of(nodes@)),
    decreases nodes.len(),
{
    let mut left = nodes;
    if left.len() <= 1 {
        proof {
            lemma_views_of(left@);
            let views = views_of(left@);
            if views.len() == 1 {
                assert(stable_sort(views.drop_last()) =~= Seq::<NodeView>::empty());
                assert(stable_sort(views) =~= views);
            }
        }
        return left;
    }
    let half = left.len() / 2;
    let right = left.split_off(half);
    proof {
        lemma_views_of_parts(left@, right@);
        assert(left@ + right@ =~= nodes@);
        lemma_stable_sort_of_parts(views_of(left@), views_of(right@));
    }
    merge_nodes(sort_nodes(left), sort_nodes(right))
}

/// Runs two sorted lists into one, the nodes of `left` before those of `right`
/// that rank like them.
fn merge_nodes(left: Vec<FileNode>, right: Vec<FileNode>) -> (all: Vec<FileNode>)
    ensures
        views_of(all@) == merged(views_of(left@), views_of(right@)),
{
    let ghost goal = merged(views_of(left@), views_of(right@));
    let mut left = left;
    let mut right = right;
    // The end of the result, its last node first.
    let mut tail: Vec<FileNode> = Vec::new();
    proof {
        assert(views_of(tail@).reverse() =~= Seq::<NodeView>::empty());
    }
    while left.len() > 0 && right.len() > 0
        invariant
            goal == merged(views_of(left@), views_of(right@)) + views_of(tail@).reverse(),
        decreases left.len() + right.len(),
    {
        let ghost left_views = views_of(left@);
        let ghost right_views = views_of(right@);
        let ghost tail_views = views_of(tail@);
        proof {
            lemma_views_of(left@);
            lemma_views_of(right@);
        }
        let from_right = left[left.len() - 1].may_precede(&right[right.len() - 1]);
        let taken = if from_right {
            right.pop()
        } else {
            left.pop()
        };
        match taken {
            Some(node) => {
                proof {
                    lemma_views_of(left@);
                    lemma_views_of(right@);
                    lemma_views_of_push(tail@, node);
                    if from_right {
                        assert(views_of(right@) =~= right_views.drop_last());
                        assert(node@ == right_views.last());
                    } else {
                        assert(views_of(left@) =~= left_views.drop_last());
                        assert(node@ == left_views.last());
                    }
                    assert(tail_views.push(node@).reverse() =~= seq![node@] + tail_views.reverse());
                    let rest = merged(views_of(left@), views_of(right@));
                    assert(rest.push(node@) + tail_views.reverse() =~= rest + (seq![node@]
                        + tail_views.reverse()));
                }
                tail.push(node);
            },
            None => {},
        }
    }
    let mut all = if left.len() > 0 {
        left
    } else {
        right
    };
    while tail.len() > 0
        invariant
            goal == views_of(all@) + views_of(tail@).reverse(),
        decreases tail.len(),
    {
        let ghost tail_views = views_of(tail@);
        let ghost all_views = views_of(all@);
        proof {
            lemma_views_of(tail@);
        }
        match tail.pop() {
            Some(node) => {
                proof {
                    lemma_views_of(tail@);
                    lemma_views_of_push(all@, node);
                    assert(views_of(tail@) =~= tail_views.drop_last());
                    assert(tail_views.reverse() =~= seq![node@] + tail_views.drop_last().reverse());
                    assert(all_views.push(node@) + tail_views.drop_last().reverse() =~= all_views
                        + (seq![node@] + tail_views.drop_last().reverse()));
                }
                all.push(node);
            },
            None => {},
        }
    }
    proof {
        lemma_views_of(tail@);
        assert(views_of(tail@).reverse() =~= Seq::<NodeView>::empty());
        assert(views_of(all@) + Seq::<NodeView>::empty() =~= views_of(all@));
    }
    all
}

/// The name under which an entry is shown, as a new string.
fn shown_name(file_name: &Option<String>, path: &String) -> (name: String)
    ensures
        name@ == display_name(text_of(*file_name), path@),
{
    match file_name {
        Some(name) => name.clone(),
        None => path.clone(),
    }
}

/// `node` with the expanded flag flipped on every directory whose path is
/// `target`, at any depth.
pub open spec fn toggled(node: NodeView, target: Seq<char>) -> NodeView
    decreases node,
{
    match node {
        NodeView::File { .. } => node,
        NodeView::Directory { name, path, children, is_expanded } => NodeView::Directory {
            name,
            path,
            children: toggled_each(children, target),
            is_expanded: if path == target {
                !is_expanded
            } else {
                is_expanded
            },
        },
    }
}

/// `toggled` applied to each node of a list.
pub open spec fn toggled_each(nodes: Seq<NodeView>, target: Seq<char>) -> Seq<NodeView>
    decreases nodes,
{
    if nodes.len() == 0 {
        Seq::empty()
    } else {
        toggled_each(nodes.drop_last(), target).push(toggled(nodes.last(), target))
    }
}

impl FileNode {
    /// Flips the expanded flag of every directory whose path is `target`, in
    /// this node and below it.
    pub fn toggle(&mut self, target: &String)
        ensures
            final(self)@ == toggled(old(self)@, target@),
        decreases *old(self),
    {
        match self {
            FileNode::File { .. } => {},
            FileNode::Directory { path, children, is_expanded, .. } => {
                if *path == *target {
                    *is_expanded = !*is_expanded;
                }
                FileNode::toggle_each(children, target);
            },
        }
    }

    /// Applies `toggle` to each node of `nodes`.
    fn toggle_each(nodes: &mut Vec<FileNode>, target: &String)
        ensures
            views_of(final(nodes)@) == toggled_each(views_of(old(nodes)@), target@),
        decreases *old(nodes),
    {
        let mut i: usize = 0;
        while i < nodes.len()
            invariant
                i <= nodes.len(),
                nodes.len() == old(nodes).len(),
                forall|j: int| 0 <= j < i ==> nodes@[j]@ == toggled(old(nodes)@[j]@, target@),
                forall|j: int| i <= j < nodes.len() ==> nodes@[j] == old(nodes)@[j],
            decreases nodes.len() - i,
        {
            nodes[i].toggle(target);
            i = i + 1;
        }
        proof {
            lemma_views_of(nodes@);
            lemma_views_of(old(nodes)@);
            lemma_toggled_each(views_of(old(nodes)@), target@);
            assert(views_of(nodes@) =~= toggled_each(views_of(old(nodes)@), target@));
        }
    }
}

/// `toggled_each` keeps the length and toggles each node where it stands.
pub proof fn lemma_toggled_each(nodes: Seq<NodeView>, target: Seq<char>)
    ensures
        toggled_each(nodes, target).len() == nodes.len(),
        forall|i: int|
            0 <= i < nodes.len() ==> #[trigger] toggled_each(nodes, target)[i] == toggled(
                nodes[i],
                target,
            ),
    decreases nodes.len(),
{
    if nodes.len() > 0 {
        lemma_toggled_each(nodes.drop_last(), target);
        assert(toggled_each(nodes, target) == toggled_each(nodes.drop_last(), target).push(
            toggled(nodes.last(), target),
        ));
    } else {
        assert(toggled_each(nodes, target) == Seq::<NodeView>::empty());
    }
}

/// Flipping expanded flags changes neither a name nor a kind, so the children
/// of every directory stay sorted.
pub proof fn lemma_toggle_keeps_sorted(node: NodeView, target: Seq<char>)
    requires
        sorted_throughout(node),
    ensures
        sorted_throughout(toggled(node, target)),
        toggled(node, target).name() == node.name(),
        toggled(node, target).path() == node.path(),
        toggled(node, target) is Directory == node is Directory,
    decreases node,
{
    match node {
        NodeView::File { .. } => {},
        NodeView::Directory { children, .. } => {
            let after = toggled_each(children, target);
            lemma_toggled_each(children, target);
            assert forall|i: int| 0 <= i < after.len() implies sorted_throughout(
                #[trigger] after[i],
            ) && after[i].name() == children[i].name() && (after[i] is Directory) == (children[i] is Directory) by {
                lemma_toggle_keeps_sorted(children[i], target);
            }
            assert forall|i: int, j: int| 0 <= i < j < after.len() implies node_le(
                after[i],
                after[j],
            ) by {
                assert(node_le(children[i], children[j]));
            }
        },
    }
}

/// The file tree of the workspace that is open, if one is.
pub struct FileExplorer {
    root: Option<FileNode>,
}

impl View for FileExplorer {
    type V = Option<NodeView>;

    closed spec fn view(&self) -> Option<NodeView> {
        match self.root {
            Some(node) => Some(node@),
            None => None,
        }
    }
}

impl FileExplorer {
    /// The tree, where there is one, holds the children of every directory sorted.
    pub open spec fn wf(&self) -> bool {
        self@ matches Some(root) ==> sorted_throughout(root)
    }

    /// An explorer with no workspace open.
    pub fn new() -> (explorer: Self)
        ensures
            explorer@ is None,
            explorer.wf(),
    {
        FileExplorer { root: None }
    }

    /// Takes what a scan of the chosen folder gave. A scanned directory
    /// replaces the tree with its own. A scan that failed, or that found
    /// something other than a directory, is an error and leaves the tree as
    /// it was.
    pub fn set_root(&mut self, scanned: Result<FsEntry, Error>) -> (r: Result<(), Error>)
        requires
            old(self).wf(),
        ensures
            final(self).wf(),
            match scanned {
                Ok(entry) => if entry@ is Directory {
                    r is Ok && final(self)@ == Some(tree_of(entry@))
                } else {
                    r == Err::<(), Error>(Error::NotADirectory) && final(self)@ == old(self)@
                },
                Err(e) => r == Err::<(), Error>(e) && final(self)@ == old(self)@,
            },
    {
        match scanned {
            Ok(entry) => {
                match entry {
                    FsEntry::File { .. } => Err(Error::NotADirectory),
                    FsEntry::Directory { .. } => {
                        let tree = FileNode::from_entry(&entry);
                        self.root = Some(tree);
                        Ok(())
                    },
                }
            },
            Err(e) => Err(e),
        }
    }

    /// The root of the tree.
    pub fn root(&self) -> (r: Option<&FileNode>)
        ensures
            match r {
                Some(node) => self@ == Some(node@),
                None => self@ is None,
            },
    {
        self.root.as_ref()
    }

    /// Flips the expanded flag of every directory of the tree whose path is
    /// `target`.
    pub fn toggle(&mut self, target: &String)
        requires
            old(self).wf(),
        ensures
            final(self).wf(),
            final(self)@ == match old(self)@ {
                Some(node) => Some(toggled(node, target@)),
                None => None,
            },
    {
        match &mut self.root {
            Some(node) => {
                proof {
                    lemma_toggle_keeps_sorted(node@, target@);
                }
                node.toggle(target);
            },
            None => {},
        }
    }
}

} // verus!
