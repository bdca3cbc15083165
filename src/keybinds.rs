//! Commands and the table that binds ctrl-keys to them.
use vstd::prelude::*;
use crate::terminal::Key;
use crate::text::{same_text, push_char, char_len, slice};
use crate::document::{split_lines, read_lines};

verus! {

/// The bindings used where no other table is given.
pub const DEFAULT_KEYBINDS: &'static str = "^Q: Quit\n^W: CloseFile\n^O: OpenFile\n^S: SaveFile\n^X: Cut\n^C: Copy\n^V: Paste\n^F: Find\n^H: FindReplace\n^Z: Undo\n^Y: Redo\n^R: Refresh\n^T: NewTab\n^G: Goto\n";

#[derive(Clone, Copy, Debug, PartialEq, Eq, Structural)]
pub enum Command {
    Quit,
    CloseFile,
    OpenFile,
    SaveFile,
    Cut,
    Copy,
    Paste,
    Find,
    FindReplace,
    Undo,
    Redo,
    Refresh,
    NewTab,
    Goto,
}

/// The name of each command, as bindings write it.
pub open spec fn command_name(c: Command) -> Seq<char> {
    match c {
        Command::Quit => "Quit"@,
        Command::CloseFile => "CloseFile"@,
        Command::OpenFile => "OpenFile"@,
        Command::SaveFile => "SaveFile"@,
        Command::Cut => "Cut"@,
        Command::Copy => "Copy"@,
        Command::Paste => "Paste"@,
        Command::Find => "Find"@,
        Command::FindReplace => "FindReplace"@,
        Command::Undo => "Undo"@,
        Command::Redo => "Redo"@,
        Command::Refresh => "Refresh"@,
        Command::NewTab => "NewTab"@,
        Command::Goto => "Goto"@,
    }
}

/// The command that `s` names, if any.
pub open spec fn command_named(s: Seq<char>) -> Option<Command> {
    if s == "Quit"@ {
        Some(Command::Quit)
    } else if s == "CloseFile"@ {
        Some(Command::CloseFile)
    } else if s == "OpenFile"@ {
        Some(Command::OpenFile)
    } else if s == "SaveFile"@ {
        Some(Command::SaveFile)
    } else if s == "Cut"@ {
        Some(Command::Cut)
    } else if s == "Copy"@ {
        Some(Command::Copy)
    } else if s == "Paste"@ {
        Some(Command::Paste)
    } else if s == "Find"@ {
        Some(Command::Find)
    } else if s == "FindReplace"@ {
        Some(Command::FindReplace)
    } else if s == "Undo"@ {
        Some(Command::Undo)
    } else if s == "Redo"@ {
        Some(Command::Redo)
    } else if s == "Refresh"@ {
        Some(Command::Refresh)
    } else if s == "NewTab"@ {
        Some(Command::NewTab)
    } else if s == "Goto"@ {
        Some(Command::Goto)
    } else {
        None
    }
}

impl Command {
    /// The command named `s`.
    pub fn from_name(s: &str) -> (r: Option<Command>)
        ensures
            r == command_named(s@),
    {
        if same_text(s, "Quit") {
            Some(Command::Quit)
        } else if same_text(s, "CloseFile") {
            Some(Command::CloseFile)
        } else if same_text(s, "OpenFile") {
            Some(Command::OpenFile)
        } else if same_text(s, "SaveFile") {
            Some(Command::SaveFile)
        } else if same_text(s, "Cut") {
            Some(Command::Cut)
        } else if same_text(s, "Copy") {
            Some(Command::Copy)
        } else if same_text(s, "Paste") {
            Some(Command::Paste)
        } else if same_text(s, "Find") {
            Some(Command::Find)
        } else if same_text(s, "FindReplace") {
            Some(Command::FindReplace)
        } else if same_text(s, "Undo") {
            Some(Command::Undo)
        } else if same_text(s, "Redo") {
            Some(Command::Redo)
        } else if same_text(s, "Refresh") {
            Some(Command::Refresh)
        } else if same_text(s, "NewTab") {
            Some(Command::NewTab)
        } else if same_text(s, "Goto") {
            Some(Command::Goto)
        } else {
            None
        }
    }

    /// The command's name.
    pub fn name(&self) -> (r: &'static str)
        ensures
            r@ == command_name(*self),
    {
        match self {
            Command::Quit => "Quit",
            Command::CloseFile => "CloseFile",
            Command::OpenFile => "OpenFile",
            Command::SaveFile => "SaveFile",
            Command::Cut => "Cut",
            Command::Copy => "Copy",
            Command::Paste => "Paste",
            Command::Find => "Find",
            Command::FindReplace => "FindReplace",
            Command::Undo => "Undo",
            Command::Redo => "Redo",
            Command::Refresh => "Refresh",
            Command::NewTab => "NewTab",
            Command::Goto => "Goto",
        }
    }
}

/// What `str::to_lowercase` makes of some characters.
pub uninterp spec fn lower_of(s: Seq<char>) -> Seq<char>;

/// What `str::to_uppercase` makes of some characters.
pub uninterp spec fn upper_of(s: Seq<char>) -> Seq<char>;

/// Relies on `str::to_lowercase`: the result depends on the characters alone.
#[verifier::external_body]
fn lowercase(s: &str) -> (r: String)
    ensures
        r@ == lower_of(s@),
{
    s.to_lowercase()
}

/// Relies on `str::to_uppercase`: the result depends on the characters alone.
#[verifier::external_body]
fn uppercase(s: &str) -> (r: String)
    ensures
        r@ == upper_of(s@),
{
    s.to_uppercase()
}

/// Index of the first `": "` in `s` at or after `from`; -1 where there is
/// none.
pub open spec fn first_sep(s: Seq<char>, from: int) -> int
    decreases s.len() - from,
{
    if from < 0 || from + 1 >= s.len() {
        -1
    } else if s[from] == ':' && s[from + 1] == ' ' {
        from
    } else {
        first_sep(s, from + 1)
    }
}

/// The key of a key specifier: `^` and one ASCII character.
pub open spec fn spec_key(spec: Seq<char>) -> Option<char> {
    if spec.len() == 2 && spec[0] == '^' && (spec[1] as u32) < 128 {
        Some(spec[1])
    } else {
        None
    }
}

/// The binding that a line `<key>: <Command>` states, with the key given as
/// `^` and a character in any case; `None` for a malformed line.
pub open spec fn binding_of(line: Seq<char>) -> Option<(char, Command)> {
    let p = first_sep(line, 0);
    if p < 0 || first_sep(line, p + 2) >= 0 {
        None
    } else {
        match command_named(line.subrange(p + 2, line.len() as int)) {
            Some(cmd) => match spec_key(lower_of(line.subrange(0, p))) {
                Some(c) => Some((c, cmd)),
                None => None,
            },
            None => None,
        }
    }
}

/// The bindings that `lines` state, a later one for a key replacing an
/// earlier one.
pub open spec fn bindings(lines: Seq<Seq<char>>) -> Map<char, Command>
    decreases lines.len(),
{
    if lines.len() == 0 {
        Map::empty()
    } else {
        let m = bindings(lines.drop_last());
        match binding_of(lines.last()) {
            Some((c, cmd)) => m.insert(c, cmd),
            None => m,
        }
    }
}

/// Ctrl-key bindings, in the order they were first made.
pub struct KeybindTable {
    pub table: Vec<(char, Command)>,
}

/// The map that a list of bindings with distinct keys stands for.
pub open spec fn table_map(t: Seq<(char, Command)>) -> Map<char, Command> {
    Map::new(
        |c: char| exists|i: int| 0 <= i < t.len() && #[trigger] t[i].0 == c,
        |c: char| t[choose|i: int| 0 <= i < t.len() && #[trigger] t[i].0 == c].1,
    )
}

pub open spec fn distinct_keys(t: Seq<(char, Command)>) -> bool {
    forall|i: int, j: int| 0 <= i < t.len() && 0 <= j < t.len() && i != j
        ==> #[trigger] t[i].0 != #[trigger] t[j].0
}

/// The row that the key bar shows for a binding.
pub open spec fn entry_of(b: (char, Command)) -> (Seq<char>, Seq<char>) {
    (upper_of(seq!['^', b.0]), command_name(b.1))
}

impl KeybindTable {
    pub open spec fn wf(&self) -> bool {
        distinct_keys(self.table@)
    }

    pub open spec fn view(&self) -> Map<char, Command> {
        table_map(self.table@)
    }

    /// The command bound to `key`; only ctrl-keys of a character are bound.
    pub fn lookup(&self, key: Key) -> (r: Option<Command>)
        requires
            self.wf(),
        ensures
            r == match key {
                Key::Ctrl(k) => match *k {
                    Key::Char(c) => if self.view().contains_key(c) {
                        Some(self.view()[c])
                    } else {
                        None
                    },
                    _ => None,
                },
                _ => None,
            },
    {
        match key {
            Key::Ctrl(k) => match *k {
                Key::Char(c) => self.find(c),
                _ => None,
            },
            _ => None,
        }
    }

    fn find(&self, c: char) -> (r: Option<Command>)
        requires
            self.wf(),
        ensures
            r == if self.view().contains_key(c) {
                Some(self.view()[c])
            } else {
                None
            },
    {
        let mut i: usize = 0;
        while i < self.table.len()
            invariant
                i <= self.table@.len(),
                self.wf(),
                forall|j: int| 0 <= j < i ==> #[trigger] self.table@[j].0 != c,
            decreases self.table@.len() - i,
        {
            if self.table[i].0 == c {
                proof {
                    let k = choose|k: int| 0 <= k < self.table@.len()
                        && #[trigger] self.table@[k].0 == c;
                    assert(k == i);
                }
                return Some(self.table[i].1);
            }
            i = i + 1;
        }
        None
    }

    /// Binds `c` to `cmd`, replacing an earlier binding of `c`.
    fn bind(&mut self, c: char, cmd: Command)
        requires
            old(self).wf(),
        ensures
            final(self).wf(),
            final(self).view() == old(self).view().insert(c, cmd),
    {
        let mut i: usize = 0;
        while i < self.table.len()
            invariant
                i <= self.table@.len(),
                old(self).wf(),
                self.table@ == old(self).table@,
                forall|j: int| 0 <= j < i ==> #[trigger] self.table@[j].0 != c,
            decreases self.table@.len() - i,
        {
            if self.table[i].0 == c {
                self.table.set(i, (c, cmd));
                proof {
                    assert forall|j: int| 0 <= j < self.table@.len()
                        implies #[trigger] self.table@[j].0 == old(self).table@[j].0 by {
                    }
                    assert(self.wf());
                    assert(self.view() =~= old(self).view().insert(c, cmd)) by {
                        assert forall|d: char| #[trigger] self.view().contains_key(d) == old(self).view().insert(c, cmd).contains_key(d) by {
                            if d == c {
                                assert(self.table@[i as int].0 == d);
                            } else if old(self).view().contains_key(d) {
                                let k = choose|k: int| 0 <= k < old(self).table@.len()
                                    && #[trigger] old(self).table@[k].0 == d;
                                assert(self.table@[k].0 == d);
                            } else if self.view().contains_key(d) {
                                let k = choose|k: int| 0 <= k < self.table@.len()
                                    && #[trigger] self.table@[k].0 == d;
                                assert(old(self).table@[k].0 == d);
                            }
                        }
                        assert forall|d: char| #[trigger] self.view().contains_key(d)
                            implies self.view()[d] == old(self).view().insert(c, cmd)[d] by {
                            let k = choose|k: int| 0 <= k < self.table@.len()
                                && #[trigger] self.table@[k].0 == d;
                            if d == c {
                                assert(k == i);
                            } else {
                                assert(old(self).table@[k].0 == d);
                                let k2 = choose|k2: int| 0 <= k2 < old(self).table@.len()
                                    && #[trigger] old(self).table@[k2].0 == d;
                                assert(k2 == k);
                            }
                        }
                    }
                }
                return ;
            }
            i = i + 1;
        }
        self.table.push((c, cmd));
        proof {
            let n = old(self).table@.len() as int;
            assert(self.view() =~= old(self).view().insert(c, cmd)) by {
                assert forall|d: char| #[trigger] self.view().contains_key(d)
                    == old(self).view().insert(c, cmd).contains_key(d) by {
                    if d == c {
                        assert(self.table@[n].0 == d);
                    } else if old(self).view().contains_key(d) {
                        let k = choose|k: int| 0 <= k < old(self).table@.len()
                            && #[trigger] old(self).table@[k].0 == d;
                        assert(self.table@[k].0 == d);
                    } else if self.view().contains_key(d) {
                        let k = choose|k: int| 0 <= k < self.table@.len()
                            && #[trigger] self.table@[k].0 == d;
                        assert(old(self).table@[k].0 == d);
                    }
                }
                assert forall|d: char| #[trigger] self.view().contains_key(d)
                    implies self.view()[d] == old(self).view().insert(c, cmd)[d] by {
                    let k = choose|k: int| 0 <= k < self.table@.len()
                        && #[trigger] self.table@[k].0 == d;
                    if d == c {
                        assert(k == n);
                    } else {
                        assert(old(self).table@[k].0 == d);
                        let k2 = choose|k2: int| 0 <= k2 < old(self).table@.len()
                            && #[trigger] old(self).table@[k2].0 == d;
                        assert(k2 == k);
                    }
                }
            }
        }
    }

    /// The table that the lines of `text` state; malformed lines and unknown
    /// commands are skipped.
    pub fn from(text: &str) -> (r: KeybindTable)
        ensures
            r.wf(),
            r.view() == bindings(read_lines(text@)),
    {
        let lines = split_lines(text);
        let ghost ls = read_lines(text@);
        let mut result = KeybindTable { table: Vec::new() };
        proof {
            assert(result.view() =~= Map::<char, Command>::empty());
            assert(ls.take(0) =~= Seq::<Seq<char>>::empty());
        }
        let mut i: usize = 0;
        while i < lines.len()
            invariant
                i <= lines@.len(),
                ls.len() == lines@.len(),
                forall|j: int| 0 <= j < ls.len() ==> #[trigger] ls[j] == lines@[j]@,
                result.wf(),
                result.view() == bindings(ls.take(i as int)),
            decreases lines@.len() - i,
        {
            proof {
                assert(ls.take(i + 1).drop_last() =~= ls.take(i as int));
                assert(ls.take(i + 1).last() == lines@[i as int]@);
            }
            if let Some((c, cmd)) = decode_binding(&lines[i]) {
                result.bind(c, cmd);
            }
            i = i + 1;
        }
        proof {
            assert(ls.take(ls.len() as int) =~= ls);
            assert(ls =~= crate::file::lines_view(lines@));
        }
        result
    }

    /// The bindings as the key bar shows them: the key in upper case after a
    /// `^`, and the command's name.
    pub fn entries(&self) -> (r: Vec<(String, String)>)
        ensures
            r@.len() == self.table@.len(),
            forall|i: int|
                0 <= i < r@.len() ==> (#[trigger] r@[i].0@, r@[i].1@) == entry_of(self.table@[i]),
    {
        let mut result: Vec<(String, String)> = Vec::new();
        let mut i: usize = 0;
        while i < self.table.len()
            invariant
                i <= self.table@.len(),
                result@.len() == i,
                forall|j: int|
                    0 <= j < i ==> (#[trigger] result@[j].0@, result@[j].1@) == entry_of(
                        self.table@[j],
                    ),
            decreases self.table@.len() - i,
        {
            let (c, cmd) = self.table[i];
            let mut key = String::new();
            push_char(&mut key, '^');
            push_char(&mut key, c);
            assert(key@ =~= seq!['^', c]);
            let upper = uppercase(key.as_str());
            result.push((upper, String::from_str(cmd.name())));
            i = i + 1;
        }
        result
    }
}

impl Default for KeybindTable {
    fn default() -> (r: KeybindTable)
        ensures
            r.wf(),
            r.view() == bindings(read_lines(DEFAULT_KEYBINDS@)),
    {
        KeybindTable::from(DEFAULT_KEYBINDS)
    }
}

/// Index of the first `": "` in `s` at or after `from`.
fn find_sep(s: &str, from: usize) -> (r: Option<usize>)
    ensures
        match r {
            Some(p) => p as int == first_sep(s@, from as int) && p + 1 < s@.len(),
            None => first_sep(s@, from as int) < 0,
        },
        s@.len() <= usize::MAX,
{
    let n = s.unicode_len();
    let mut i = from;
    if i >= n {
        return None;
    }
    while i + 1 < n
        invariant
            from <= i < n,
            n == s@.len(),
            first_sep(s@, from as int) == first_sep(s@, i as int),
        decreases n - i,
    {
        if s.get_char(i) == ':' && s.get_char(i + 1) == ' ' {
            return Some(i);
        }
        i = i + 1;
    }
    None
}

/// The key that a key specifier names.
pub fn decode_key_spec(spec: &str) -> (r: Option<char>)
    ensures
        r == spec_key(spec@),
{
    if spec.unicode_len() != 2 {
        return None;
    }
    let modifier = spec.get_char(0);
    let key = spec.get_char(1);
    if modifier != '^' || (key as u32) >= 128 {
        return None;
    }
    Some(key)
}

/// The binding that one line states.
pub fn decode_binding(line: &String) -> (r: Option<(char, Command)>)
    ensures
        r == binding_of(line@),
{
    let s = line.as_str();
    let p = match find_sep(s, 0) {
        Some(p) => p,
        None => return None,
    };
    if find_sep(s, p + 2).is_some() {
        return None;
    }
    let n = char_len(line);
    let name = slice(line, p + 2, n);
    let cmd = match Command::from_name(name.as_str()) {
        Some(cmd) => cmd,
        None => return None,
    };
    let key_text = slice(line, 0, p);
    let key_spec = lowercase(key_text.as_str());
    match decode_key_spec(key_spec.as_str()) {
        Some(c) => Some((c, cmd)),
        None => None,
    }
}

} // verus!
