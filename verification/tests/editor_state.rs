use code_reader::editor::syntax::SyntaxCatalog;
use code_reader::editor::{extension_for, label_for, EditorState, Tab};
use code_reader::error::Error;

fn tab_paths(editor: &EditorState) -> Vec<String> {
    editor.tabs().into_iter().map(|t| t.path).collect()
}

fn active(editor: &EditorState) -> Option<String> {
    editor.active_path().cloned()
}

fn open(editor: &mut EditorState, path: &str, text: &str) {
    assert_eq!(editor.open_file(path.to_string(), Ok(text.to_string())), Ok(()));
}

fn strings(names: &[&str]) -> Vec<String> {
    names.iter().map(|n| n.to_string()).collect()
}

#[test]
fn new_editor_has_nothing_open() {
    let editor = EditorState::new();
    assert!(editor.tabs().is_empty());
    assert_eq!(active(&editor), None);
    assert!(editor.active_buffer().is_none());
    assert!(!editor.is_file_open("/proj/README.md"));
}

#[test]
fn open_open_close_scenario() {
    let mut editor = EditorState::new();
    open(&mut editor, "/proj/README.md", "# readme\n");
    open(&mut editor, "/proj/src/main.x", "main\n");
    editor.close_file("/proj/README.md");
    assert_eq!(tab_paths(&editor), strings(&["/proj/src/main.x"]));
    assert_eq!(active(&editor), Some("/proj/src/main.x".to_string()));
}

#[test]
fn an_opened_file_is_open_and_a_closed_file_is_not() {
    let mut editor = EditorState::new();
    assert!(!editor.is_file_open("/a"));
    open(&mut editor, "/a", "");
    assert!(editor.is_file_open("/a"));
    assert!(!editor.is_file_open("/A"));
    editor.close_file("/a");
    assert!(!editor.is_file_open("/a"));
    editor.close_file("/a");
    assert!(!editor.is_file_open("/a"));
    assert!(editor.tabs().is_empty());
}

#[test]
fn closing_the_active_tab_of_three_activates_the_last_one_left() {
    let mut editor = EditorState::new();
    open(&mut editor, "/A", "a");
    open(&mut editor, "/B", "b");
    open(&mut editor, "/C", "c");
    assert_eq!(active(&editor), Some("/C".to_string()));
    editor.close_file("/C");
    assert_eq!(tab_paths(&editor), strings(&["/A", "/B"]));
    assert_eq!(active(&editor), Some("/B".to_string()));
}

#[test]
fn closing_the_active_first_tab_activates_the_last_tab() {
    let mut editor = EditorState::new();
    open(&mut editor, "/A", "a");
    open(&mut editor, "/B", "b");
    open(&mut editor, "/C", "c");
    editor.select_tab("/A");
    editor.close_file("/A");
    assert_eq!(tab_paths(&editor), strings(&["/B", "/C"]));
    assert_eq!(active(&editor), Some("/C".to_string()));
}

#[test]
fn closing_the_only_tab_leaves_none_active() {
    let mut editor = EditorState::new();
    open(&mut editor, "/A", "a");
    editor.close_file("/A");
    assert!(editor.tabs().is_empty());
    assert_eq!(active(&editor), None);
    assert!(editor.active_buffer().is_none());
}

#[test]
fn closing_another_tab_keeps_the_active_one() {
    let mut editor = EditorState::new();
    open(&mut editor, "/A", "a");
    open(&mut editor, "/B", "b");
    open(&mut editor, "/C", "c");
    editor.close_file("/A");
    assert_eq!(active(&editor), Some("/C".to_string()));
    editor.close_file("/nowhere");
    assert_eq!(tab_paths(&editor), strings(&["/B", "/C"]));
    assert_eq!(active(&editor), Some("/C".to_string()));
}

#[test]
fn reopening_keeps_one_tab_and_the_edits() {
    let mut editor = EditorState::new();
    open(&mut editor, "/A", "a");
    open(&mut editor, "/B", "b");
    editor.select_tab("/A");
    editor.edit_active("a, edited");
    assert!(editor.buffer("/A").unwrap().is_modified());
    editor.select_tab("/B");
    open(&mut editor, "/A", "what is on disk now");
    assert_eq!(tab_paths(&editor), strings(&["/A", "/B"]));
    assert_eq!(active(&editor), Some("/A".to_string()));
    let buffer = editor.buffer("/A").unwrap();
    assert!(buffer.is_modified());
    assert_eq!(buffer.text(), "a, edited");
}

#[test]
fn reopening_an_open_file_ignores_a_failed_read() {
    let mut editor = EditorState::new();
    open(&mut editor, "/A", "a");
    open(&mut editor, "/B", "b");
    assert_eq!(editor.open_file("/A".to_string(), Err(Error::Io)), Ok(()));
    assert_eq!(active(&editor), Some("/A".to_string()));
    assert_eq!(tab_paths(&editor), strings(&["/A", "/B"]));
    assert_eq!(editor.buffer("/A").unwrap().text(), "a");
}

#[test]
fn a_failed_open_changes_nothing() {
    let mut editor = EditorState::new();
    assert_eq!(editor.open_file("/A".to_string(), Err(Error::Io)), Err(Error::Io));
    assert!(editor.tabs().is_empty());
    assert_eq!(active(&editor), None);
    open(&mut editor, "/B", "b");
    assert_eq!(editor.open_file("/C".to_string(), Err(Error::Encoding)), Err(Error::Encoding));
    assert_eq!(tab_paths(&editor), strings(&["/B"]));
    assert_eq!(active(&editor), Some("/B".to_string()));
    assert!(!editor.is_file_open("/C"));
}

#[test]
fn open_file_builds_the_buffer_from_what_was_read() {
    let mut editor = EditorState::new();
    open(&mut editor, "/proj/src/main.rs", "fn main() {}\n");
    let buffer = editor.active_buffer().unwrap();
    assert_eq!(buffer.text(), "fn main() {}\n");
    assert_eq!(buffer.path(), "/proj/src/main.rs");
    assert_eq!(buffer.syntax().as_deref(), Some("Rust"));
    assert!(!buffer.is_modified());
    open(&mut editor, "/proj/run", "#!/bin/bash\n");
    assert_eq!(editor.active_buffer().unwrap().syntax().as_deref(), Some("Bourne Again Shell (bash)"));
    open(&mut editor, "/proj/.py", "#!/bin/bash\n");
    assert_eq!(editor.active_buffer().unwrap().syntax().as_deref(), Some("Bourne Again Shell (bash)"));
    open(&mut editor, "/proj/py", "x = 1\n");
    assert_eq!(editor.active_buffer().unwrap().syntax().as_deref(), None);
    open(&mut editor, "/proj.d/tool.PY", "#!/bin/bash\n");
    assert_eq!(editor.active_buffer().unwrap().syntax().as_deref(), Some("Python"));
}

#[test]
fn select_tab_activates_open_files_only() {
    let mut editor = EditorState::new();
    open(&mut editor, "/A", "a");
    open(&mut editor, "/B", "b");
    editor.select_tab("/A");
    assert_eq!(active(&editor), Some("/A".to_string()));
    editor.select_tab("/nowhere");
    assert_eq!(active(&editor), Some("/A".to_string()));
    assert_eq!(tab_paths(&editor), strings(&["/A", "/B"]));
    assert_eq!(editor.active_buffer().unwrap().text(), "a");
}

#[test]
fn tabs_carry_label_and_active_flag() {
    let mut editor = EditorState::new();
    open(&mut editor, "/proj/README.md", "r");
    open(&mut editor, "/", "root");
    open(&mut editor, "/proj/src/..", "up");
    open(&mut editor, "/proj/src/main.x", "m");
    editor.select_tab("/");
    let tabs: Vec<Tab> = editor.tabs();
    let shown: Vec<(String, String, bool)> =
        tabs.into_iter().map(|t| (t.path, t.label, t.is_active)).collect();
    assert_eq!(
        shown,
        vec![
            ("/proj/README.md".to_string(), "README.md".to_string(), false),
            ("/".to_string(), "Untitled".to_string(), true),
            ("/proj/src/..".to_string(), "Untitled".to_string(), false),
            ("/proj/src/main.x".to_string(), "main.x".to_string(), false),
        ]
    );
}

#[test]
fn label_and_extension_from_a_file_name() {
    assert_eq!(label_for(Some("main.rs".to_string())), "main.rs");
    assert_eq!(label_for(None), "Untitled");
    assert_eq!(extension_for(&Some("main.rs".to_string())), "rs");
    assert_eq!(extension_for(&Some(".bashrc".to_string())), "");
    assert_eq!(extension_for(&None), "");
}

#[test]
fn edit_active_changes_the_buffer_in_front_only() {
    let mut editor = EditorState::new();
    editor.edit_active("nothing is open");
    assert!(editor.tabs().is_empty());
    open(&mut editor, "/A", "a");
    open(&mut editor, "/B", "b");
    editor.edit_active("b");
    assert!(!editor.buffer("/B").unwrap().is_modified());
    editor.edit_active("b2");
    assert!(editor.buffer("/B").unwrap().is_modified());
    assert_eq!(editor.buffer("/B").unwrap().text(), "b2");
    assert!(!editor.buffer("/A").unwrap().is_modified());
    assert_eq!(editor.buffer("/A").unwrap().text(), "a");
    assert_eq!(tab_paths(&editor), strings(&["/A", "/B"]));
    assert_eq!(active(&editor), Some("/B".to_string()));
}

#[test]
fn closing_discards_the_edits() {
    let mut editor = EditorState::new();
    open(&mut editor, "/A", "a");
    editor.edit_active("changed");
    editor.close_file("/A");
    assert!(editor.buffer("/A").is_none());
    open(&mut editor, "/A", "a");
    assert_eq!(editor.buffer("/A").unwrap().text(), "a");
    assert!(!editor.buffer("/A").unwrap().is_modified());
}

#[test]
fn with_syntaxes_starts_empty() {
    let editor = EditorState::with_syntaxes(SyntaxCatalog::load_defaults());
    assert!(editor.tabs().is_empty());
    assert_eq!(active(&editor), None);
    assert!(editor.buffer("/A").is_none());
}
