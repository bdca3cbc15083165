use mfte::config::Config;
use mfte::document::split_lines;
use mfte::file::File;
use mfte::terminal::Color;

const README: &str = "# MFTE\n\nA small terminal text editor with soft-wrapped lines, selections and tabs, written for fun.\n\n    indented block\n";

fn open(text: &str) -> File {
    File::from_text(String::from("README.md"), text, Config::config_for(None)).unwrap()
}

fn lines(f: &File) -> Vec<&str> {
    f.lines.iter().map(|l| l.as_str()).collect()
}

fn goto(f: &mut File, dim: (i32, i32), row: i32, col: i32) {
    f.goto(dim, (row, col));
    assert_eq!((f.caret.y, f.caret.x), (row, col));
}

#[test]
fn load_save_preserves_everything() {
    let mut f = open(README);
    let mut untrimmed = Config::config_for(None);
    untrimmed.trim_trailing_whitespace = false;
    f.config = untrimmed;
    assert_eq!(f.save_text(), README);
}

#[test]
fn selection_on_wrapped_line_going_forward() {
    let mut f = open(README);
    goto(&mut f, (10, 10), 3, 1);
    f.select();
    f.move_cursor_right((10, 10));
    let rows = f.chunked_text((10, 10));
    assert_eq!(f.selected_text(), "A");
    assert!(rows.len() <= 10);
}

#[test]
fn selection_on_wrapped_line_going_backward() {
    let mut f = open(README);
    goto(&mut f, (10, 10), 3, 1);
    f.move_cursor_right((10, 10));
    f.select();
    f.move_cursor_left((10, 10));
    let rows = f.chunked_text((10, 10));
    assert_eq!(f.selected_text(), "A");
    assert!(rows.len() <= 10);
}

#[test]
fn selection_on_wrapped_line_going_backward_from_end_of_line() {
    let mut f = open(README);
    goto(&mut f, (10, 10), 3, 1);
    let len = f.lines[2].len();
    for _ in 0..len {
        f.move_cursor_right((10, 10));
    }
    assert_eq!(f.caret.x as usize, len + 1);
    f.select();
    f.move_cursor_left((10, 10));
    let rows = f.chunked_text((10, 10));
    assert_eq!(f.selected_text(), ".");
    assert!(rows.len() <= 10);
}

#[test]
fn opening_splits_lines_and_drops_crlf() {
    assert_eq!(split_lines("a\r\nb\n\nc"), vec!["a", "b", "", "c"]);
    assert_eq!(split_lines(""), Vec::<String>::new());
    assert_eq!(split_lines("x\r"), vec!["x\r"]);
    let f = open("");
    assert_eq!(lines(&f), vec![""]);
}

#[test]
fn save_trims_and_ends_lines() {
    let mut f = open("a  \nb\t\n");
    assert_eq!(f.save_text(), "a\nb\n");
    let mut c = Config::config_for(None);
    c.insert_final_newline = false;
    c.end_of_line = mfte::config::EndOfLine::CrLf;
    f.config = c;
    assert_eq!(f.save_text(), "a\r\nb");
}

#[test]
fn cursor_stays_inside_the_text_at_width_one() {
    let mut f = open("ab\n\nxyz\n");
    let dim = (1, 3);
    for _ in 0..12 {
        f.move_cursor_right(dim);
        check_bounds(&f);
    }
    for _ in 0..5 {
        f.move_cursor_up(dim);
        check_bounds(&f);
        f.move_cursor_end(dim);
        check_bounds(&f);
        f.move_cursor_down(dim);
        check_bounds(&f);
        f.move_cursor_home(dim);
        check_bounds(&f);
    }
    for _ in 0..12 {
        f.move_cursor_left(dim);
        check_bounds(&f);
    }
    assert_eq!((f.caret.y, f.caret.x), (1, 1));
}

fn check_bounds(f: &File) {
    assert!(f.caret.y >= 1 && f.caret.y as usize <= f.lines.len());
    let len = f.lines[f.caret.y as usize - 1].chars().count() as i32;
    assert!(f.caret.x >= 1 && f.caret.x <= len + 1);
}

#[test]
fn right_at_end_of_line_goes_to_next_line() {
    let mut f = open("ab\ncd\n");
    goto(&mut f, (80, 24), 1, 3);
    f.move_cursor_right((80, 24));
    assert_eq!((f.caret.y, f.caret.x), (2, 1));
    f.move_cursor_left((80, 24));
    assert_eq!((f.caret.y, f.caret.x), (1, 3));
}

#[test]
fn up_and_down_move_through_wrapped_rows() {
    let mut f = open("abcdefghij\nxy\n");
    goto(&mut f, (4, 10), 1, 2);
    f.move_cursor_down((4, 10));
    assert_eq!((f.caret.y, f.caret.x), (1, 6));
    f.move_cursor_down((4, 10));
    assert_eq!((f.caret.y, f.caret.x), (1, 10));
    f.move_cursor_down((4, 10));
    assert_eq!((f.caret.y, f.caret.x), (2, 2));
    f.move_cursor_up((4, 10));
    assert_eq!((f.caret.y, f.caret.x), (1, 10));
    f.move_cursor_up((4, 10));
    assert_eq!((f.caret.y, f.caret.x), (1, 6));
}

#[test]
fn home_toggles_between_indent_and_start() {
    let mut f = open("        x\n");
    goto(&mut f, (80, 24), 1, 10);
    f.move_cursor_home((80, 24));
    assert_eq!(f.caret.x, 9);
    f.move_cursor_home((80, 24));
    assert_eq!(f.caret.x, 1);
    f.move_cursor_home((80, 24));
    assert_eq!(f.caret.x, 9);
    f.move_cursor_end((80, 24));
    assert_eq!(f.caret.x, 10);
}

#[test]
fn end_stops_at_the_screen_row_end() {
    let mut f = open("abcdefghij\n");
    goto(&mut f, (4, 10), 1, 2);
    f.move_cursor_end((4, 10));
    assert_eq!(f.caret.x, 4);
    goto(&mut f, (4, 10), 1, 9);
    f.move_cursor_end((4, 10));
    assert_eq!(f.caret.x, 11);
    f.move_cursor_home((4, 10));
    assert_eq!(f.caret.x, 9);
}

#[test]
fn projection_on_a_wrapped_line() {
    let mut f = open("abcdefghij");
    goto(&mut f, (5, 10), 1, 10);
    let c = f.cursor((5, 10));
    assert_eq!((c.x, c.y), (5, 2));
}

#[test]
fn backspace_at_indent_boundary_removes_a_unit() {
    let mut f = open("        x\n");
    goto(&mut f, (80, 24), 1, 9);
    f.backspace((80, 24));
    assert_eq!(lines(&f), vec!["    x"]);
    assert_eq!(f.caret.x, 5);
    f.backspace((80, 24));
    assert_eq!(lines(&f), vec!["x"]);
    assert_eq!(f.caret.x, 1);
}

#[test]
fn backspace_joins_lines() {
    let mut f = open("ab\ncd\n");
    goto(&mut f, (80, 24), 2, 1);
    f.backspace((80, 24));
    assert_eq!(lines(&f), vec!["abcd"]);
    assert_eq!((f.caret.y, f.caret.x), (1, 3));
}

#[test]
fn delete_removes_char_unit_or_line_break() {
    let mut f = open("ab\n        cd\n");
    goto(&mut f, (80, 24), 1, 1);
    f.delete((80, 24));
    assert_eq!(lines(&f), vec!["b", "        cd"]);
    f.move_cursor_end((80, 24));
    f.delete((80, 24));
    assert_eq!(lines(&f), vec!["b        cd"]);
    let mut g = open("        cd\n");
    goto(&mut g, (80, 24), 1, 2);
    g.delete((80, 24));
    assert_eq!(lines(&g), vec!["    cd"]);
    let mut h = open("x");
    h.move_cursor_end((80, 24));
    h.delete((80, 24));
    assert_eq!(lines(&h), vec!["x"]);
}

#[test]
fn insert_and_tab() {
    let mut f = open("ac\n");
    goto(&mut f, (80, 24), 1, 2);
    f.insert((80, 24), 'b');
    assert_eq!(lines(&f), vec!["abc"]);
    assert_eq!(f.caret.x, 3);
    f.tab((80, 24));
    assert_eq!(lines(&f), vec!["ab    c"]);
    assert_eq!(f.caret.x, 7);
    assert_eq!(f.label(), "*README.md");
}

#[test]
fn newline_without_indent_on_hello() {
    let mut f = open("hello\nworld\n");
    goto(&mut f, (80, 24), 1, 6);
    f.insert_newline((80, 24), true);
    assert_eq!(lines(&f), vec!["hello", "", "world"]);
    assert_eq!((f.caret.y, f.caret.x), (2, 1));
}

#[test]
fn newline_carries_indentation() {
    let mut f = open("    ab\n");
    goto(&mut f, (80, 24), 1, 6);
    f.insert_newline((80, 24), true);
    assert_eq!(lines(&f), vec!["    a", "    b"]);
    assert_eq!((f.caret.y, f.caret.x), (2, 5));
    let mut g = open("    ab\n");
    goto(&mut g, (80, 24), 1, 6);
    g.insert_newline((80, 24), false);
    assert_eq!(lines(&g), vec!["    a", "b"]);
    assert_eq!((g.caret.y, g.caret.x), (2, 1));
}

#[test]
fn select_then_deselect_keeps_text() {
    let mut f = open(README);
    let before: Vec<String> = f.lines.clone();
    f.select();
    f.move_cursor_down((10, 10));
    f.deselect();
    assert_eq!(f.lines, before);
    assert!(!f.has_selection());
}

#[test]
fn selection_text_is_the_same_both_ways() {
    let dim = (80, 24);
    let mut a = open("one\ntwo\nthree\n");
    goto(&mut a, dim, 1, 2);
    a.select();
    a.move_cursor_down(dim);
    a.select();
    a.move_cursor_down(dim);
    a.select();
    a.move_cursor_right(dim);
    let mut b = open("one\ntwo\nthree\n");
    goto(&mut b, dim, 3, 3);
    b.select();
    b.move_cursor_up(dim);
    b.select();
    b.move_cursor_up(dim);
    b.select();
    b.move_cursor_left(dim);
    assert_eq!(a.selected_text(), "ne\ntwo\nth");
    assert_eq!(a.selected_text(), b.selected_text());
}

#[test]
fn typing_replaces_the_selection() {
    let mut f = open("one\ntwo\n");
    goto(&mut f, (80, 24), 1, 2);
    f.select();
    goto(&mut f, (80, 24), 2, 2);
    f.insert((80, 24), 'X');
    assert_eq!(lines(&f), vec!["oXwo"]);
    assert_eq!((f.caret.y, f.caret.x), (1, 3));
    assert!(!f.has_selection());
}

#[test]
fn chunks_split_at_the_selection() {
    let mut f = open("abcdef\n");
    goto(&mut f, (80, 24), 1, 2);
    f.select();
    goto(&mut f, (80, 24), 1, 4);
    let rows = f.chunked_text((80, 24));
    assert_eq!(rows.len(), 1);
    assert_eq!(rows[0].0, Some(0));
    let chunks = &rows[0].1;
    let texts: Vec<&str> = chunks.iter().map(|c| c.contents.as_str()).collect();
    assert_eq!(texts, vec!["a", "bc", "def"]);
    assert!(chunks[1].background == Color::White && chunks[1].foreground == Color::Black);
    assert!(chunks[0].background == Color::Reset);
}

#[test]
fn chunks_show_selected_line_end_and_wrap() {
    let mut f = open("abcdefgh\nij\n");
    goto(&mut f, (80, 24), 1, 7);
    f.select();
    goto(&mut f, (80, 24), 2, 2);
    let rows = f.chunked_text((5, 24));
    assert_eq!(rows.len(), 3);
    assert_eq!(rows[0].0, Some(0));
    assert_eq!(rows[1].0, None);
    assert_eq!(rows[2].0, Some(1));
    let second: Vec<&str> = rows[1].1.iter().map(|c| c.contents.as_str()).collect();
    assert_eq!(second, vec!["f", "gh "]);
    let third: Vec<&str> = rows[2].1.iter().map(|c| c.contents.as_str()).collect();
    assert_eq!(third, vec!["i", "j"]);
    let short = f.chunked_text((5, 1));
    assert_eq!(short.len(), 1);
}

#[test]
fn scrolling_moves_the_view_only() {
    let text: String = (1..=20).map(|i| format!("line {}\n", i)).collect();
    let mut f = open(&text);
    f.scroll_down((80, 5));
    let rows = f.chunked_text((80, 5));
    assert_eq!(rows[0].0, Some(3));
    assert_eq!((f.caret.y, f.caret.x), (1, 1));
    f.scroll_up((80, 5));
    assert_eq!(f.chunked_text((80, 5))[0].0, Some(0));
    f.page_down((80, 5));
    assert_eq!(f.caret.y, 6);
    f.page_up((80, 5));
    assert_eq!(f.caret.y, 1);
    assert_eq!(f.lineno_chars(), 2);
}

#[test]
fn view_follows_the_caret() {
    let text: String = (1..=20).map(|i| format!("{}\n", i)).collect();
    let mut f = open(&text);
    for _ in 0..6 {
        f.move_cursor_down((80, 5));
    }
    let c = f.cursor((80, 5));
    assert_eq!(c.y, 5);
    assert_eq!(f.chunked_text((80, 5))[0].0, Some(2));
}

#[test]
fn too_large_text_is_refused() {
    let f = File::empty();
    assert_eq!(lines(&f), vec![""]);
    assert_eq!(f.name, "<empty>");
    assert!(mfte::file::fits(&vec![String::from("abc")]));
}

#[test]
fn cursors_compare_by_row_then_column() {
    let a = mfte::file::Cursor { x: 5, y: 1, y_offset: 0 };
    let b = mfte::file::Cursor { x: 1, y: 2, y_offset: 3 };
    let c = mfte::file::Cursor { x: 5, y: 1, y_offset: 7 };
    assert!(a < b);
    assert!(b > c);
    assert!(a == c);
    assert!(a.is_before(&b));
    assert!(!b.is_before(&a));
}

#[test]
fn line_of_exactly_the_width_takes_two_rows() {
    let mut f = open("abcde\nx\n");
    let rows = f.chunked_text((5, 10));
    let labels: Vec<Option<u16>> = rows.iter().map(|r| r.0).collect();
    assert_eq!(labels, vec![Some(0), None, Some(1)]);
    assert_eq!(rows[1].1[0].contents, "");
    goto(&mut f, (5, 10), 2, 1);
    let c = f.cursor((5, 10));
    assert_eq!((c.x, c.y), (1, 3));
    goto(&mut f, (5, 10), 1, 6);
    let c = f.cursor((5, 10));
    assert_eq!((c.x, c.y), (1, 2));
}

#[test]
fn deleting_a_selection_removes_just_the_span() {
    let mut f = open("    foo\n");
    goto(&mut f, (80, 24), 1, 3);
    f.select();
    f.move_cursor_right((80, 24));
    f.select();
    f.move_cursor_right((80, 24));
    assert_eq!(f.selected_text(), "  ");
    f.delete((80, 24));
    assert_eq!(lines(&f), vec!["  foo"]);
    assert_eq!((f.caret.y, f.caret.x), (1, 3));
    let mut g = open("one\ntwo\nthree\n");
    goto(&mut g, (80, 24), 3, 3);
    g.select();
    goto(&mut g, (80, 24), 2, 3);
    g.select();
    g.move_cursor_up((80, 24));
    g.backspace((80, 24));
    assert_eq!(lines(&g), vec!["onree"]);
    assert_eq!((g.caret.y, g.caret.x), (1, 3));
}

#[test]
fn shift_page_moves_keep_the_selection() {
    let text: String = (1..=20).map(|i| format!("line {}\n", i)).collect();
    let mut f = open(&text);
    goto(&mut f, (80, 5), 10, 1);
    f.select();
    f.page_up((80, 5));
    assert_eq!(f.caret.y, 5);
    assert!(f.has_selection());
    assert_eq!(f.selected_text(), "line 5\nline 6\nline 7\nline 8\nline 9\n");
    f.page_down((80, 5));
    assert!(!f.has_selection());
}

#[test]
fn backspace_over_a_selection_marks_the_document_changed() {
    let mut f = open("abc\n");
    f.select();
    f.move_cursor_right((80, 24));
    assert_eq!(f.label(), "README.md");
    f.backspace((80, 24));
    assert_eq!(lines(&f), vec!["bc"]);
    assert!(f.display_dirty);
    assert_eq!(f.label(), "*README.md");
}
