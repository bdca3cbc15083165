use mfte::config::Config;
use mfte::file::File;
use mfte::keybinds::{Command, KeybindTable};
use mfte::state::{common_prefix, completion, shared_prefix, starting_with, EditorState, GotoError, OneLinerState};

fn editor(texts: &[&str]) -> EditorState {
    let files = texts
        .iter()
        .map(|t| File::from_text(String::from("f"), t, Config::config_for(None)).unwrap())
        .collect();
    EditorState::new(KeybindTable::default(), files)
}

fn active_lines(e: &EditorState) -> Vec<String> {
    e.active_file().lines.clone()
}

#[test]
fn paste_into_empty_buffer() {
    let mut e = editor(&[]);
    e.paste((80, 24), "ab\ncd");
    assert_eq!(active_lines(&e), vec!["ab", "cd"]);
    let c = &e.active_file().caret;
    assert_eq!((c.y, c.x), (2, 3));
}

#[test]
fn paste_does_not_carry_indentation() {
    let mut e = editor(&["    x"]);
    e.move_cursor_end((80, 24));
    e.paste((80, 24), "\ny");
    assert_eq!(active_lines(&e), vec!["    x", "y"]);
}

#[test]
fn tab_lifecycle() {
    let mut e = editor(&["a", "b"]);
    e.new_tab();
    assert_eq!(e.files.len(), 3);
    assert_eq!(e.active_file, 1);
    assert_eq!(active_lines(&e), vec![""]);
    let start = e.active_file;
    for _ in 0..e.files.len() {
        e.next_tab();
    }
    assert_eq!(e.active_file, start);
    e.close_tab();
    assert_eq!(e.files.len(), 2);
    assert_eq!(e.one_liners.len(), 2);
    assert_eq!(e.active_file, 1);
    assert_eq!(active_lines(&e), vec!["b"]);
    let mut single = editor(&[]);
    single.close_tab();
    assert_eq!(single.files.len(), 0);
}

#[test]
fn prompt_takes_horizontal_commands_only() {
    let mut e = editor(&["doc\nmore"]);
    e.set_one_liner(OneLinerState::from(Command::Goto));
    assert!(e.one_liner_active());
    e.insert((80, 24), '2');
    e.insert((80, 24), ':');
    e.insert((80, 24), '3');
    e.move_cursor_left((80, 24));
    e.backspace((80, 24));
    e.move_cursor_down((80, 24));
    e.tab((80, 24));
    assert_eq!(active_lines(&e), vec!["doc", "more"]);
    assert_eq!(e.active_file().caret.y, 1);
    assert_eq!(e.cursor((80, 24)), (2 + 19 + 1, 25));
    let (cmd, value) = e.consume_one_liner().unwrap();
    assert_eq!(cmd, Command::Goto);
    assert_eq!(value, "23");
    assert!(!e.one_liner_active());
    assert_eq!(e.goto((80, 24), &value), Ok(()));
    let c = &e.active_file().caret;
    assert_eq!((c.y, c.x), (2, 1));
}

#[test]
fn goto_parses_row_and_column() {
    let mut e = editor(&["abc\ndef\nghi"]);
    assert_eq!(e.goto((80, 24), "2:2"), Ok(()));
    assert_eq!((e.active_file().caret.y, e.active_file().caret.x), (2, 2));
    assert_eq!(e.goto((80, 24), "99"), Ok(()));
    assert_eq!((e.active_file().caret.y, e.active_file().caret.x), (3, 2));
    assert_eq!(e.goto((80, 24), "1:99"), Ok(()));
    assert_eq!((e.active_file().caret.y, e.active_file().caret.x), (1, 4));
    assert_eq!(e.goto((80, 24), "x"), Err(GotoError::NotANumber));
    assert_eq!(e.goto((80, 24), "2:"), Err(GotoError::NotANumber));
    assert_eq!((e.active_file().caret.y, e.active_file().caret.x), (1, 4));
}

#[test]
fn cut_copy_and_paste() {
    let mut e = editor(&["hello world"]);
    assert_eq!(e.copy((80, 24)), None);
    e.select();
    e.move_cursor_end((80, 24));
    assert_eq!(e.copy((80, 24)), Some(String::from("hello world")));
    let cut = e.cut((80, 24));
    assert_eq!(cut, Some(String::from("hello world")));
    assert_eq!(active_lines(&e), vec![""]);
    e.paste((80, 24), "hi");
    assert_eq!(active_lines(&e), vec!["hi"]);
}

#[test]
fn dirty_display_and_saving() {
    let mut e = editor(&["a"]);
    e.insert((80, 24), 'b');
    assert!(e.display_dirty());
    e.clean_display();
    assert!(!e.display_dirty());
    assert_eq!(e.active_file().label(), "*f");
    assert_eq!(e.save_file(), "ba\n");
    assert_eq!(e.active_file().label(), "f");
    let other = File::from_text(String::from("g"), "new", Config::config_for(None)).unwrap();
    e.open_file(other);
    assert_eq!(active_lines(&e), vec!["new"]);
}

#[test]
fn completion_helpers() {
    let names = vec![String::from("src"), String::from("srv"), String::from("target")];
    let m = starting_with(&names, "sr");
    assert_eq!(m, vec!["src", "srv"]);
    assert_eq!(shared_prefix(&m), "sr");
    assert_eq!(shared_prefix(&vec![String::from("only")]), "only");
    assert_eq!(shared_prefix(&Vec::new()), "");
    assert_eq!(common_prefix(&String::from("abc"), &String::from("abd")), "ab");
    let mut p = OneLinerState::from(Command::OpenFile);
    assert_eq!(p.label, "Open file:");
    p.set_value(String::from("src/"));
    assert_eq!(p.value(), "src/");
    assert_eq!(p.file.caret.x, 5);
}

#[test]
fn routed_selection_and_lineno() {
    let mut e = editor(&["abc"]);
    e.select();
    e.move_cursor_right((80, 24));
    assert_eq!(e.copy((80, 24)), Some(String::from("a")));
    e.deselect();
    assert_eq!(e.copy((80, 24)), None);
    assert_eq!(e.lineno_chars(), 1);
    e.refresh((80, 24));
    assert!(e.display_dirty());
    assert_eq!(e.chunked_text((80, 24)).len(), 1);
}

#[test]
fn click_moves_the_caret() {
    let mut e = editor(&["first line\nsecond\nthird line here"]);
    let dim = (40, 10);
    // Gutter is one digit and a space wide, so column 5 on screen is column 3.
    e.move_cursor_to(dim, (5, 3));
    let c = &e.active_file().caret;
    assert_eq!((c.y, c.x), (3, 3));
    e.move_cursor_to(dim, (40, 1));
    let c = &e.active_file().caret;
    assert_eq!((c.y, c.x), (1, 11));
    e.move_cursor_to(dim, (3, 9));
    let c = &e.active_file().caret;
    assert_eq!((c.y, c.x), (3, 1));
    assert_eq!(active_lines(&e), vec!["first line", "second", "third line here"]);
}

#[test]
fn status_line_and_room() {
    let mut e = editor(&["ab\ncd"]);
    e.move_cursor_down((80, 24));
    assert_eq!(
        e.debug((80, 24)),
        "Caret (1, 2, o=0), Top (1, 1, o=0), Cursor (1, 2, o=0) "
    );
    e.select();
    assert!(e.debug((80, 24)).starts_with("Selection (1, 2, o=0) Caret"));
    assert_eq!(e.active_file().room(), mfte::file::MAX_TEXT as usize - 6);
}

#[test]
fn mutable_accessors_reach_the_active_tab() {
    let mut e = editor(&["a", "b"]);
    e.next_tab();
    e.active_file_mut().name = String::from("renamed");
    assert_eq!(e.files[1].name, "renamed");
    *e.one_liner_mut() = Some(OneLinerState::from(Command::Find));
    assert!(e.one_liner_active());
    assert_eq!(e.one_liner().as_ref().unwrap().label, "Find text:");
    e.one_liner_mut().take();
    assert!(!e.one_liner_active());
}

#[test]
fn completion_decides_the_new_value() {
    let names = vec![String::from("src"), String::from("srv"), String::from("target")];
    assert_eq!(completion("sr", &names), Some((String::from("sr"), false)));
    assert_eq!(completion("ta", &names), Some((String::from("target"), true)));
    assert_eq!(completion("x", &names), None);
    let mixed = vec![String::from("alpha"), String::from("beta")];
    assert_eq!(completion("", &mixed), None);
}

#[test]
fn new_tab_is_a_fresh_document() {
    let mut e = editor(&["abc"]);
    e.select();
    e.move_cursor_right((80, 24));
    e.new_tab();
    let f = e.active_file();
    assert!(!f.has_selection());
    assert_eq!((f.caret.y, f.caret.x), (1, 1));
    assert_eq!(f.name, "<empty>");
    assert_eq!(f.label(), "<empty>");
}

#[test]
fn click_below_the_text_stops_at_the_last_row() {
    let mut e = editor(&["ab
cd"]);
    e.move_cursor_to((40, 10), (4, 8));
    let c = &e.active_file().caret;
    assert_eq!((c.y, c.x), (2, 2));
}
