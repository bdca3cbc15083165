use mfte::keybinds::{decode_binding, decode_key_spec, Command, KeybindTable};
use mfte::terminal::Key;

fn ctrl(c: char) -> Key {
    Key::Ctrl(Box::new(Key::Char(c)))
}

#[test]
fn keybind_parsing_works() {
    let keys = KeybindTable::from("^Q: Quit");
    match keys.lookup(ctrl('q')) {
        Some(Command::Quit) => (),
        _ => panic!("Looking up ^Q failed!"),
    }
    match keys.lookup(ctrl('x')) {
        None => (),
        _ => panic!("Looking up ^X succeeded!"),
    }
    let keys = KeybindTable::from("^X: Quit");
    match keys.lookup(ctrl('x')) {
        Some(Command::Quit) => (),
        _ => panic!("Looking up ^X failed!"),
    }
    match keys.lookup(ctrl('q')) {
        None => (),
        _ => panic!("Looking up ^Q succeeded!"),
    }
}

#[test]
fn default_table_binds_every_listed_key() {
    let keys = KeybindTable::default();
    assert_eq!(keys.lookup(ctrl('s')), Some(Command::SaveFile));
    assert_eq!(keys.lookup(ctrl('g')), Some(Command::Goto));
    assert_eq!(keys.lookup(ctrl('t')), Some(Command::NewTab));
    assert_eq!(keys.table.len(), 14);
}

#[test]
fn malformed_lines_and_unknown_commands_are_skipped() {
    let keys = KeybindTable::from("^A Quit\n^B: Nonsense\nQQ: Quit\n^C: Copy: Paste\n^D: Cut\n");
    assert_eq!(keys.table.len(), 1);
    assert_eq!(keys.lookup(ctrl('d')), Some(Command::Cut));
    assert_eq!(keys.lookup(ctrl('a')), None);
    assert_eq!(keys.lookup(ctrl('b')), None);
}

#[test]
fn later_binding_replaces_earlier() {
    let keys = KeybindTable::from("^Q: Quit\n^q: Refresh\n");
    assert_eq!(keys.table.len(), 1);
    assert_eq!(keys.lookup(ctrl('q')), Some(Command::Refresh));
}

#[test]
fn only_ctrl_keys_are_bound() {
    let keys = KeybindTable::from("^Q: Quit");
    assert_eq!(keys.lookup(Key::Char('q')), None);
    assert_eq!(keys.lookup(Key::Alt(Box::new(Key::Char('q')))), None);
}

#[test]
fn entries_show_upper_case_keys() {
    let keys = KeybindTable::from("^q: Quit\n^w: CloseFile\n");
    let e = keys.entries();
    assert_eq!(e, vec![
        (String::from("^Q"), String::from("Quit")),
        (String::from("^W"), String::from("CloseFile")),
    ]);
}

#[test]
fn command_names_round_trip() {
    for c in [Command::Quit, Command::FindReplace, Command::Goto, Command::NewTab] {
        assert_eq!(Command::from_name(c.name()), Some(c));
    }
    assert_eq!(Command::from_name("quit"), None);
}

#[test]
fn key_classes() {
    assert!(Key::Char('a').is_char());
    assert!(!Key::Left.is_char());
    assert!(Key::PageDown.is_navigation());
    assert!(!Key::Delete.is_navigation());
}

#[test]
fn single_lines_decode_to_bindings() {
    assert_eq!(decode_binding(&String::from("^Q: Quit")), Some(('q', Command::Quit)));
    assert_eq!(decode_binding(&String::from("^g: Goto")), Some(('g', Command::Goto)));
    assert_eq!(decode_binding(&String::from("^Q: Nothing")), None);
    assert_eq!(decode_binding(&String::from("^Q Quit")), None);
    assert_eq!(decode_binding(&String::from("^Q: Quit: Cut")), None);
    assert_eq!(decode_key_spec("^x"), Some('x'));
    assert_eq!(decode_key_spec("^é"), None);
    assert_eq!(decode_key_spec("x"), None);
    assert_eq!(decode_key_spec("~x"), None);
}
