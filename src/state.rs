//! The editor: open documents as tabs, each with an optional one-line prompt
//! over it, and the routing of commands to the prompt or the document.
use vstd::prelude::*;
use crate::file::{
    File,
    TextChunk,
    Cursor,
    left_pos,
    right_pos,
    up_pos,
    down_pos,
    home_x,
    end_x,
    pos_of,
    len_at,
    clamp_col,
    insert_text,
    newline_text,
    text_size,
    MAX_TEXT,
    lemma_text_size_nonneg,
};
use crate::keybinds::{Command, KeybindTable};
use crate::file::{row_at, offset_in, lemma_down_row, lemma_up_row, lemma_left_offset};
use crate::text::{parse_i32, signed_value, slice, char_len};

verus! {

/// The label that the prompt for `c` shows.
pub open spec fn prompt_label(c: Command) -> Seq<char> {
    match c {
        Command::OpenFile => "Open file:"@,
        Command::SaveFile => "Save file:"@,
        Command::Goto => "Jump to line[:col]:"@,
        Command::Find => "Find text:"@,
        Command::FindReplace => "AAAAAAAAAA"@,
        _ => ""@,
    }
}

/// A one-line prompt that asks for the text a command needs.
pub struct OneLinerState {
    pub command: Command,
    pub label: &'static str,
    pub file: File,
}

impl OneLinerState {
    /// An empty prompt for `c`.
    pub fn from(c: Command) -> (r: OneLinerState)
        ensures
            r.command == c,
            r.label@ == prompt_label(c),
            r.label@.len() <= 64,
            r.file.wf(),
            r.file.text() == seq![Seq::<char>::empty()],
            pos_of(r.file.caret) == (1int, 1int),
            r.file.selection_start is None,
    {
        proof {
            reveal_strlit("Open file:");
            reveal_strlit("Save file:");
            reveal_strlit("Jump to line[:col]:");
            reveal_strlit("Find text:");
            reveal_strlit("AAAAAAAAAA");
            reveal_strlit("");
        }
        let label = match c {
            Command::OpenFile => "Open file:",
            Command::SaveFile => "Save file:",
            Command::Goto => "Jump to line[:col]:",
            Command::Find => "Find text:",
            Command::FindReplace => "AAAAAAAAAA",
            _ => "",
        };
        OneLinerState { command: c, label, file: File::empty() }
    }

    /// The text typed so far.
    pub fn value(&self) -> (r: &String)
        requires
            self.file.wf(),
        ensures
            r@ == self.file.text()[0],
    {
        &self.file.lines[0]
    }

    /// Replaces the text with `value` and puts the caret at its end.
    pub fn set_value(&mut self, value: String)
        requires
            value@.len() < MAX_TEXT,
        ensures
            final(self).command == old(self).command,
            final(self).label == old(self).label,
            final(self).file.wf(),
            final(self).file.text() == seq![value@],
            pos_of(final(self).file.caret) == (value@.len() as int + 1, 1int),
            final(self).file.display_dirty,
    {
        let mut file = File::empty();
        let n = char_len(&value);
        file.lines.set(0, value);
        proof {
            assert(file.text() =~= seq![value@]);
            assert(file.text().drop_last() =~= Seq::<Seq<char>>::empty());
            assert(text_size(Seq::<Seq<char>>::empty()) == 0);
        }
        file.caret.x = (n + 1) as i32;
        file.display_dirty = true;
        self.file = file;
    }
}

/// Whether `s` starts with `prefix`.
pub open spec fn starts_with(s: Seq<char>, prefix: Seq<char>) -> bool {
    prefix.len() <= s.len() && s.subrange(0, prefix.len() as int) == prefix
}

/// Of `names`, in order, those that start with `fragment`.
pub open spec fn names_starting(names: Seq<Seq<char>>, fragment: Seq<char>) -> Seq<Seq<char>>
    decreases names.len(),
{
    if names.len() == 0 {
        Seq::empty()
    } else {
        let rest = names_starting(names.drop_last(), fragment);
        if starts_with(names.last(), fragment) {
            rest.push(names.last())
        } else {
            rest
        }
    }
}

/// Of `names`, those that start with `fragment`.
pub fn starting_with(names: &Vec<String>, fragment: &str) -> (r: Vec<String>)
    ensures
        r@.map_values(|s: String| s@) == names_starting(
            names@.map_values(|s: String| s@),
            fragment@,
        ),
{
    let ghost all = names@.map_values(|s: String| s@);
    let mut result: Vec<String> = Vec::new();
    let mut i: usize = 0;
    let k = fragment.unicode_len();
    proof {
        assert(all.take(0) =~= Seq::<Seq<char>>::empty());
        assert(result@.map_values(|s: String| s@) =~= Seq::<Seq<char>>::empty());
    }
    while i < names.len()
        invariant
            i <= names@.len(),
            k == fragment@.len(),
            all == names@.map_values(|s: String| s@),
            result@.map_values(|s: String| s@) == names_starting(all.take(i as int), fragment@),
        decreases names@.len() - i,
    {
        let n = char_len(&names[i]);
        let keep = if k <= n {
            let head = slice(&names[i], 0, k);
            crate::text::same_text(head.as_str(), fragment)
        } else {
            false
        };
        proof {
            assert(all.take(i + 1).drop_last() =~= all.take(i as int));
            assert(all.take(i + 1).last() == names@[i as int]@);
        }
        if keep {
            let ghost before = result@;
            result.push(names[i].clone());
            assert(result@.map_values(|s: String| s@) =~= before.map_values(|s: String| s@).push(
                names@[i as int]@,
            ));
        }
        i = i + 1;
    }
    proof {
        assert(all.take(names@.len() as int) =~= all);
    }
    result
}

/// The longest common start of `a` and `b`.
pub open spec fn common_start(a: Seq<char>, b: Seq<char>) -> Seq<char>
    decreases a.len(),
{
    if a.len() == 0 || b.len() == 0 || a[0] != b[0] {
        Seq::empty()
    } else {
        seq![a[0]] + common_start(a.drop_first(), b.drop_first())
    }
}

/// The start that all of `names` share, folding from the first.
pub open spec fn shared_start(names: Seq<Seq<char>>) -> Seq<char>
    decreases names.len(),
{
    if names.len() <= 1 {
        if names.len() == 1 {
            common_start(names[0], names[0])
        } else {
            Seq::empty()
        }
    } else {
        common_start(shared_start(names.drop_last()), names.last())
    }
}

proof fn lemma_common_start_step(a: Seq<char>, b: Seq<char>, i: int)
    requires
        0 <= i <= a.len(),
        i <= b.len(),
        a.subrange(0, i) == b.subrange(0, i),
    ensures
        common_start(a, b) == a.subrange(0, i) + common_start(
            a.subrange(i, a.len() as int),
            b.subrange(i, b.len() as int),
        ),
    decreases i,
{
    if i > 0 {
        assert(a[0] == a.subrange(0, i)[0]);
        assert(b[0] == b.subrange(0, i)[0]);
        assert(a.drop_first().subrange(0, i - 1) =~= a.subrange(1, i));
        assert(b.drop_first().subrange(0, i - 1) =~= b.subrange(1, i));
        assert(a.subrange(1, i) =~= a.subrange(0, i).drop_first());
        assert(b.subrange(1, i) =~= b.subrange(0, i).drop_first());
        lemma_common_start_step(a.drop_first(), b.drop_first(), i - 1);
        assert(a.drop_first().subrange(i - 1, a.drop_first().len() as int) =~= a.subrange(
            i,
            a.len() as int,
        ));
        assert(b.drop_first().subrange(i - 1, b.drop_first().len() as int) =~= b.subrange(
            i,
            b.len() as int,
        ));
        assert(a.subrange(0, i) =~= seq![a[0]] + a.drop_first().subrange(0, i - 1));
    } else {
        assert(a.subrange(0, a.len() as int) =~= a);
        assert(b.subrange(0, b.len() as int) =~= b);
        assert(a.subrange(0, 0) =~= Seq::<char>::empty());
    }
}

/// The longest common start of two texts.
pub fn common_prefix(a: &String, b: &String) -> (r: String)
    ensures
        r@ == common_start(a@, b@),
{
    let na = char_len(a);
    let nb = char_len(b);
    let sa = a.as_str();
    let sb = b.as_str();
    let mut i: usize = 0;
    while i < na && i < nb && sa.get_char(i) == sb.get_char(i)
        invariant
            i <= na,
            i <= nb,
            na == a@.len(),
            nb == b@.len(),
            sa@ == a@,
            sb@ == b@,
            a@.subrange(0, i as int) == b@.subrange(0, i as int),
        decreases na - i,
    {
        assert(a@.subrange(0, i + 1) =~= a@.subrange(0, i as int).push(a@[i as int]));
        assert(b@.subrange(0, i + 1) =~= b@.subrange(0, i as int).push(b@[i as int]));
        i = i + 1;
    }
    proof {
        lemma_common_start_step(a@, b@, i as int);
        let ra = a@.subrange(i as int, a@.len() as int);
        let rb = b@.subrange(i as int, b@.len() as int);
        if ra.len() > 0 && rb.len() > 0 {
            assert(ra[0] == a@[i as int]);
            assert(rb[0] == b@[i as int]);
        }
        assert(common_start(ra, rb) =~= Seq::<char>::empty());
        assert(a@.subrange(0, i as int) + Seq::<char>::empty() =~= a@.subrange(0, i as int));
    }
    slice(a, 0, i)
}

/// The start that all of `names` share; empty where there are none.
pub fn shared_prefix(names: &Vec<String>) -> (r: String)
    ensures
        r@ == shared_start(names@.map_values(|s: String| s@)),
{
    let ghost all = names@.map_values(|s: String| s@);
    if names.len() == 0 {
        return String::new();
    }
    let mut shared = common_prefix(&names[0], &names[0]);
    let mut i: usize = 1;
    proof {
        assert(all.take(1).len() == 1);
        assert(all.take(1)[0] == names@[0]@);
    }
    while i < names.len()
        invariant
            1 <= i <= names@.len(),
            all == names@.map_values(|s: String| s@),
            shared@ == shared_start(all.take(i as int)),
        decreases names@.len() - i,
    {
        proof {
            assert(all.take(i + 1).drop_last() =~= all.take(i as int));
            assert(all.take(i + 1).last() == names@[i as int]@);
        }
        shared = common_prefix(&shared, &names[i]);
        i = i + 1;
    }
    proof {
        assert(all.take(names@.len() as int) =~= all);
    }
    shared
}

/// The editor: tabs of documents, a prompt slot for each, the active tab
/// and the key bindings.
pub struct EditorState {
    pub keys: KeybindTable,
    pub files: Vec<File>,
    pub one_liners: Vec<Option<OneLinerState>>,
    pub active_file: usize,
}

/// What completing `fragment` against the names `names` of a directory
/// gives: the start that the names beginning with `fragment` share, and
/// whether just one name begins so; `None` where no name begins so or they
/// share nothing.
pub fn completion(fragment: &str, names: &Vec<String>) -> (r: Option<(String, bool)>)
    ensures
        ({
            let m = names_starting(names@.map_values(|s: String| s@), fragment@);
            match r {
                Some((shared, single)) => {
                    &&& m.len() > 0
                    &&& shared@ == shared_start(m)
                    &&& shared@.len() > 0
                    &&& single == (m.len() == 1)
                },
                None => m.len() == 0 || shared_start(m).len() == 0,
            }
        }),
{
    let results = starting_with(names, fragment);
    if results.len() == 0 {
        return None;
    }
    let shared = shared_prefix(&results);
    if char_len(&shared) == 0 {
        return None;
    }
    Some((shared, results.len() == 1))
}

/// The tab after `a` of `n`, counting round.
pub open spec fn next_index(a: int, n: int) -> int {
    (a + 1) % n
}

/// The tab reached from `a` after `k` steps.
pub open spec fn next_index_n(a: int, n: int, k: nat) -> int
    decreases k,
{
    if k == 0 {
        a
    } else {
        next_index(next_index_n(a, n, (k - 1) as nat), n)
    }
}

/// Stepping to the next tab as many times as there are tabs comes back to
/// the tab one started from.
pub proof fn lemma_next_tab_cycle(a: int, n: int)
    requires
        0 <= a < n,
    ensures
        next_index_n(a, n, n as nat) == a,
{
    assert forall|k: nat| k <= n implies #[trigger] next_index_n(a, n, k) == (a + k) % n by {
        lemma_next_steps(a, n, k);
    }
    vstd::arithmetic::div_mod::lemma_mod_add_multiples_vanish(a, n);
    vstd::arithmetic::div_mod::lemma_small_mod(a as nat, n as nat);
}

proof fn lemma_next_steps(a: int, n: int, k: nat)
    requires
        0 <= a < n,
    ensures
        next_index_n(a, n, k) == (a + k) % n,
    decreases k,
{
    if k == 0 {
        vstd::arithmetic::div_mod::lemma_small_mod(a as nat, n as nat);
    } else {
        lemma_next_steps(a, n, (k - 1) as nat);
        vstd::arithmetic::div_mod::lemma_add_mod_noop(a + k - 1, 1, n);
        vstd::arithmetic::div_mod::lemma_mod_bound(a + k - 1, n);
        vstd::arithmetic::div_mod::lemma_small_mod(((a + k - 1) % n) as nat, n as nat);
        vstd::arithmetic::div_mod::lemma_add_mod_noop((a + k - 1) % n, 1, n);
        vstd::arithmetic::div_mod::lemma_mod_bound(a + k - 1, n);
    }
}

/// Why a goto target was not taken.
#[derive(Clone, Copy, Debug, PartialEq, Eq, Structural)]
pub enum GotoError {
    /// The row or the column is not a decimal `i32`.
    NotANumber,
}

/// The row and column that a goto target `row` or `row:col` names, the
/// column defaulting to `col`.
pub open spec fn goto_target(t: Seq<char>, col: int) -> Option<(int, int)> {
    let fits = |v: Option<int>| v is Some && i32::MIN <= v->0 <= i32::MAX;
    if exists|i: int| 0 <= i < t.len() && t[i] == ':' {
        let n = choose|i: int|
            0 <= i < t.len() && t[i] == ':' && forall|j: int| 0 <= j < i ==> t[j] != ':';
        let row = signed_value(t.subrange(0, n));
        let c = signed_value(t.subrange(n + 1, t.len() as int));
        if fits(row) && fits(c) {
            Some((row->0, c->0))
        } else {
            None
        }
    } else {
        let row = signed_value(t);
        if fits(row) {
            Some((row->0, col))
        } else {
            None
        }
    }
}

/// Text and caret after typing the characters of `t` from `(x, y)`, a line
/// feed breaking the line without carrying indentation.
pub open spec fn pasted(ls: Seq<Seq<char>>, x: int, y: int, t: Seq<char>) -> (
    Seq<Seq<char>>,
    int,
    int,
)
    decreases t.len(),
{
    if t.len() == 0 {
        (ls, x, y)
    } else {
        let (l2, x2, y2) = pasted(ls, x, y, t.drop_last());
        if t.last() == '\n' {
            (newline_text(l2, x2, y2, 0), 1, y2 + 1)
        } else {
            (insert_text(l2, x2, y2, t.last()), x2 + 1, y2)
        }
    }
}

/// Two commands that each change only the target change only the target.
pub proof fn lemma_only_target_trans(c: &EditorState, b: &EditorState, a: &EditorState)
    requires
        a.wf(),
        c.only_target_changed(b),
        b.only_target_changed(a),
    ensures
        c.only_target_changed(a),
        c.prompt_active() == a.prompt_active(),
{
}

/// Where the terminal cursor stands for caret `c` and viewport top `t`: the
/// caret's column within its screen row after `gutter` columns, and its
/// screen row counted from the viewport's top, or the row below the viewport
/// for a prompt.
pub open spec fn screen_at(
    ls: Seq<Seq<char>>,
    c: (int, int),
    t: (int, int),
    dim: (i32, i32),
    gutter: int,
    prompt: bool,
) -> (int, int) {
    let w = dim.0 as int;
    (
        (c.0 - 1) % w + 1 + gutter,
        if prompt {
            dim.1 + 1
        } else {
            row_at(ls, c.0, c.1, w) - row_at(ls, t.0, t.1, w) + 1
        },
    )
}

/// Caret and viewport top after a move down; a prompt takes none.
pub open spec fn down_step(ls: Seq<Seq<char>>, v: ((int, int), (int, int)), dim: (i32, i32), prompt: bool) -> (
    (int, int),
    (int, int),
) {
    let w = dim.0 as int;
    let (c, t) = v;
    if prompt {
        v
    } else {
        let c2 = down_pos(ls, c.0, c.1, w);
        (
            c2,
            if row_at(ls, c2.0, c2.1, w) - row_at(ls, t.0, t.1, w) + 1 > dim.1 {
                down_pos(ls, t.0, t.1, w)
            } else {
                t
            },
        )
    }
}

/// Caret and viewport top after a move up; a prompt takes none.
pub open spec fn up_step(ls: Seq<Seq<char>>, v: ((int, int), (int, int)), dim: (i32, i32), prompt: bool) -> (
    (int, int),
    (int, int),
) {
    let w = dim.0 as int;
    let (c, t) = v;
    if prompt {
        v
    } else {
        let c2 = up_pos(ls, c.0, c.1, w);
        (
            c2,
            if row_at(ls, c2.0, c2.1, w) < row_at(ls, t.0, t.1, w) {
                up_pos(ls, t.0, t.1, w)
            } else {
                t
            },
        )
    }
}

/// Caret and viewport top after a move left.
pub open spec fn left_step(ls: Seq<Seq<char>>, v: ((int, int), (int, int)), dim: (i32, i32)) -> (
    (int, int),
    (int, int),
) {
    let w = dim.0 as int;
    let (c, t) = v;
    let c2 = left_pos(ls, c.0, c.1);
    (
        c2,
        if row_at(ls, c2.0, c2.1, w) < row_at(ls, t.0, t.1, w) {
            up_pos(ls, t.0, t.1, w)
        } else {
            t
        },
    )
}

/// Moves down until the terminal cursor is on or below `row` or the caret
/// stops moving, for at most `fuel` moves.
pub open spec fn walk_down(
    ls: Seq<Seq<char>>,
    v: ((int, int), (int, int)),
    dim: (i32, i32),
    gutter: int,
    prompt: bool,
    row: int,
    fuel: nat,
) -> ((int, int), (int, int))
    decreases fuel,
{
    if fuel == 0 || screen_at(ls, v.0, v.1, dim, gutter, prompt).1 >= row {
        v
    } else {
        let n = down_step(ls, v, dim, prompt);
        if n.0 == v.0 {
            n
        } else {
            walk_down(ls, n, dim, gutter, prompt, row, (fuel - 1) as nat)
        }
    }
}

/// Moves up until the terminal cursor is on or above `row` or the caret
/// stops moving, for at most `fuel` moves.
pub open spec fn walk_up(
    ls: Seq<Seq<char>>,
    v: ((int, int), (int, int)),
    dim: (i32, i32),
    gutter: int,
    prompt: bool,
    row: int,
    fuel: nat,
) -> ((int, int), (int, int))
    decreases fuel,
{
    if fuel == 0 || screen_at(ls, v.0, v.1, dim, gutter, prompt).1 <= row {
        v
    } else {
        let n = up_step(ls, v, dim, prompt);
        if n.0 == v.0 {
            n
        } else {
            walk_up(ls, n, dim, gutter, prompt, row, (fuel - 1) as nat)
        }
    }
}

/// Moves left until the terminal cursor is at or left of `col` or the caret
/// stops moving, for at most `fuel` moves.
pub open spec fn walk_left(
    ls: Seq<Seq<char>>,
    v: ((int, int), (int, int)),
    dim: (i32, i32),
    gutter: int,
    prompt: bool,
    col: int,
    fuel: nat,
) -> ((int, int), (int, int))
    decreases fuel,
{
    if fuel == 0 || col >= screen_at(ls, v.0, v.1, dim, gutter, prompt).0 {
        v
    } else {
        let n = left_step(ls, v, dim);
        if n.0 == v.0 {
            n
        } else {
            walk_left(ls, n, dim, gutter, prompt, col, (fuel - 1) as nat)
        }
    }
}

/// Caret and viewport top after a click at screen position `dest` (column,
/// row), starting from `v`: the walk down, then up, to the row; the end of
/// that screen row; the walk left to the column. No walk takes more moves
/// than the text has characters and line ends, so the bound on each is
/// never what stops it.
pub open spec fn click_target(
    ls: Seq<Seq<char>>,
    v: ((int, int), (int, int)),
    dim: (i32, i32),
    gutter: int,
    prompt: bool,
    dest: (i32, i32),
) -> ((int, int), (int, int)) {
    let bound = (text_size(ls) + 2) as nat;
    let down = walk_down(ls, v, dim, gutter, prompt, dest.1 as int, bound);
    let up = walk_up(ls, down, dim, gutter, prompt, dest.1 as int, bound);
    let at_end = (end_x(ls, up.0.0, up.0.1, dim.0 as int), up.0.1);
    walk_left(ls, (at_end, up.1), dim, gutter, prompt, dest.0 as int, bound)
}

/// `row` brought into `1..=count`.
pub open spec fn clamp_row(row: int, count: int) -> int {
    if row < 1 {
        1
    } else if row > count {
        count
    } else {
        row
    }
}

/// Index of the first `:` in `t`.
fn find_colon(t: &str) -> (r: Option<usize>)
    ensures
        match r {
            Some(n) => n < t@.len() && t@[n as int] == ':' && forall|j: int|
                0 <= j < n ==> t@[j] != ':',
            None => forall|i: int| 0 <= i < t@.len() ==> t@[i] != ':',
        },
{
    let n = t.unicode_len();
    let mut i: usize = 0;
    while i < n
        invariant
            i <= n,
            n == t@.len(),
            forall|j: int| 0 <= j < i ==> t@[j] != ':',
        decreases n - i,
    {
        if t.get_char(i) == ':' {
            return Some(i);
        }
        i = i + 1;
    }
    None
}

/// A prompt slot holds nothing, or a well-formed prompt of one line with a
/// short label.
pub open spec fn slot_ok(o: Option<OneLinerState>) -> bool {
    o matches Some(p) ==> p.file.wf() && p.file.lines@.len() == 1 && p.label@.len() <= 64
}

impl EditorState {
    /// At least one tab, a prompt slot for each, the active one among them,
    /// every document well formed, and every open prompt one line long.
    pub open spec fn wf(&self) -> bool {
        &&& self.files@.len() >= 1
        &&& self.one_liners@.len() == self.files@.len()
        &&& self.active_file < self.files@.len()
        &&& self.keys.wf()
        &&& forall|i: int| 0 <= i < self.files@.len() ==> (#[trigger] self.files@[i]).wf()
        &&& forall|i: int| 0 <= i < self.one_liners@.len()
            ==> slot_ok(#[trigger] self.one_liners@[i])
    }

    pub open spec fn prompt_active(&self) -> bool {
        self.one_liners@[self.active_file as int] is Some
    }

    /// The document that editing commands reach: the active prompt's where
    /// one is open, else the active tab's.
    pub open spec fn target(&self) -> File {
        match self.one_liners@[self.active_file as int] {
            Some(p) => p.file,
            None => self.files@[self.active_file as int],
        }
    }

    /// Everything but the target is as in `before`.
    pub open spec fn only_target_changed(&self, before: &EditorState) -> bool {
        let a = self.active_file as int;
        &&& self.keys == before.keys
        &&& self.active_file == before.active_file
        &&& self.files@.len() == before.files@.len()
        &&& self.one_liners@.len() == before.one_liners@.len()
        &&& if before.prompt_active() {
            &&& self.files@ == before.files@
            &&& forall|i: int| 0 <= i < self.one_liners@.len() && i != a
                ==> self.one_liners@[i] == before.one_liners@[i]
            &&& self.one_liners@[a] matches Some(p) && p.command == before.one_liners@[a]->0.command
                && p.label == before.one_liners@[a]->0.label
        } else {
            &&& self.one_liners@ == before.one_liners@
            &&& forall|i: int| 0 <= i < self.files@.len() && i != a ==> self.files@[i]
                == before.files@[i]
        }
    }

    /// A command that a prompt does not take: nothing happens while one is
    /// open, else it reaches the active tab's document.
    pub open spec fn document_only(&self, before: &EditorState) -> bool {
        &&& before.prompt_active() ==> *self == *before
        &&& self.only_target_changed(before)
    }

    /// Tabs for `files`, or for one empty document where there are none; the
    /// first is active and no prompt is open.
    pub fn new(keys: KeybindTable, files: Vec<File>) -> (r: EditorState)
        requires
            keys.wf(),
            forall|i: int| 0 <= i < files@.len() ==> (#[trigger] files@[i]).wf(),
        ensures
            r.wf(),
            r.active_file == 0,
            files@.len() > 0 ==> r.files@ == files@,
            files@.len() == 0 ==> r.files@.len() == 1,
            forall|i: int| 0 <= i < r.one_liners@.len() ==> (#[trigger] r.one_liners@[i]) is None,
    {
        let mut files = files;
        if files.len() == 0 {
            files.push(File::empty());
        }
        let mut one_liners: Vec<Option<OneLinerState>> = Vec::new();
        let mut i: usize = 0;
        while i < files.len()
            invariant
                i <= files@.len(),
                one_liners@.len() == i,
                forall|j: int| 0 <= j < i ==> (#[trigger] one_liners@[j]) is None,
            decreases files@.len() - i,
        {
            one_liners.push(None);
            i = i + 1;
        }
        EditorState { keys, files, one_liners, active_file: 0 }
    }

    /// Whether the active tab has a prompt open.
    pub fn one_liner_active(&self) -> (r: bool)
        requires
            self.wf(),
        ensures
            r == self.prompt_active(),
    {
        self.one_liners[self.active_file].is_some()
    }

    /// Closes the active prompt and hands back its command and text.
    pub fn consume_one_liner(&mut self) -> (r: Option<(Command, String)>)
        requires
            old(self).wf(),
        ensures
            final(self).wf(),
            final(self).files@ == old(self).files@,
            final(self).active_file == old(self).active_file,
            final(self).keys == old(self).keys,
            final(self).one_liners@ == old(self).one_liners@.update(
                old(self).active_file as int,
                None,
            ),
            match old(self).one_liners@[old(self).active_file as int] {
                Some(p) => r matches Some(v) && v.0 == p.command && v.1@ == p.file.text()[0],
                None => r is None,
            },
    {
        let a = self.active_file;
        let taken = self.one_liners[a].take();
        match taken {
            Some(ol) => {
                let value = ol.value().clone();
                Some((ol.command, value))
            },
            None => None,
        }
    }

    /// Width of the active tab's line-number gutter.
    pub fn lineno_chars(&self) -> (r: i32)
        requires
            self.wf(),
        ensures
            r == crate::file::digit_count(self.files@[self.active_file as int].lines@.len()),
    {
        self.files[self.active_file].lineno_chars()
    }

    /// The active tab's document.
    pub fn active_file(&self) -> (r: &File)
        requires
            self.wf(),
        ensures
            *r == self.files@[self.active_file as int],
    {
        &self.files[self.active_file]
    }

    /// The active tab's document, to change in place.
    pub fn active_file_mut(&mut self) -> (r: &mut File)
        requires
            old(self).wf(),
        ensures
            *r == old(self).files@[old(self).active_file as int],
            final(self).files@ == old(self).files@.update(old(self).active_file as int, *final(r)),
            final(self).one_liners@ == old(self).one_liners@,
            final(self).active_file == old(self).active_file,
            final(self).keys == old(self).keys,
    {
        &mut self.files[self.active_file]
    }

    /// The active tab's prompt slot, to change in place.
    pub fn one_liner_mut(&mut self) -> (r: &mut Option<OneLinerState>)
        requires
            old(self).wf(),
        ensures
            *r == old(self).one_liners@[old(self).active_file as int],
            final(self).one_liners@ == old(self).one_liners@.update(
                old(self).active_file as int,
                *final(r),
            ),
            final(self).files@ == old(self).files@,
            final(self).active_file == old(self).active_file,
            final(self).keys == old(self).keys,
    {
        &mut self.one_liners[self.active_file]
    }

    /// The active tab's prompt slot.
    pub fn one_liner(&self) -> (r: &Option<OneLinerState>)
        requires
            self.wf(),
        ensures
            *r == self.one_liners@[self.active_file as int],
    {
        &self.one_liners[self.active_file]
    }

    /// Opens `ol` as the active tab's prompt, replacing any other.
    pub fn set_one_liner(&mut self, ol: OneLinerState)
        requires
            old(self).wf(),
            ol.file.wf(),
            ol.file.lines@.len() == 1,
            ol.label@.len() <= 64,
        ensures
            final(self).wf(),
            final(self).files@ == old(self).files@,
            final(self).active_file == old(self).active_file,
            final(self).keys == old(self).keys,
            final(self).one_liners@ == old(self).one_liners@.update(
                old(self).active_file as int,
                Some(ol),
            ),
    {
        let a = self.active_file;
        self.one_liners.set(a, Some(ol));
    }

    /// Where the terminal cursor goes: in the prompt line below the document
    /// while a prompt is open, else at the caret, right of the line numbers.
    pub fn cursor(&self, dim: (i32, i32)) -> (r: (i32, i32))
        requires
            self.wf(),
            dim.0 >= 1,
            dim.1 < i32::MAX,
        ensures
            (r.0 as int, r.1 as int) == self.screen_pos(dim),
    {
        let a = self.active_file;
        match &self.one_liners[a] {
            Some(ols) => {
                let cursor = ols.file.cursor(dim);
                proof {
                    crate::file::lemma_floor(ols.file.caret.x - 1, dim.0 as int);
                    crate::file::lemma_row_bound(ols.file.text(), ols.file.caret.y as int, 1);
                }
                let label_len = ols.label.unicode_len();
                (cursor.x + label_len as i32 + 1, dim.1 + 1)
            },
            None => {
                let f = &self.files[a];
                let cursor = f.cursor(dim);
                proof {
                    crate::file::lemma_floor(f.caret.x - 1, dim.0 as int);
                    crate::file::lemma_row_bound(f.text(), f.caret.y as int, 1);
                    crate::file::lemma_digit_count_bound(f.lines@.len());
                }
                (cursor.x + f.lineno_chars() + 1, cursor.y)
            },
        }
    }

    /// The active tab's status line.
    pub fn debug(&self, dim: (i32, i32)) -> (r: String)
        requires
            self.wf(),
            dim.0 >= 1,
        ensures
            ({
                let f = self.files@[self.active_file as int];
                r@ == match f.selection_start {
                    Some(a) => "Selection "@ + crate::file::cursor_text(a) + " "@,
                    None => Seq::empty(),
                } + "Caret "@ + crate::file::cursor_text(f.caret) + ", Top "@
                    + crate::file::cursor_text(f.window_top) + ", Cursor "@
                    + crate::file::cursor_text(f.cursor_spec(dim)) + " "@ + f.misc@
            }),
    {
        self.files[self.active_file].debug(dim)
    }

    /// The active tab's visible screen rows.
    pub fn chunked_text(&self, dim: (i32, i32)) -> (r: Vec<(Option<u16>, Vec<TextChunk>)>)
        requires
            self.wf(),
            dim.0 >= 1,
        ensures
            ({
                let f = self.files@[self.active_file as int];
                let w = dim.0 as int;
                let extra = (f.window_top.x - 1) / w;
                let height = if dim.1 < 0 {
                    0
                } else {
                    dim.1 as int
                };
                r@.map_values(|row: (Option<u16>, Vec<TextChunk>)| crate::file::row_view(row))
                    == crate::file::clip(
                    crate::file::rows_between(
                        f.selection_span(),
                        f.text(),
                        f.window_top.y - 1,
                        f.lines@.len() as int,
                        w,
                    ),
                    extra,
                    height + extra,
                )
            }),
    {
        self.files[self.active_file].chunked_text(dim)
    }

    /// Recomputes the active tab's offsets for `dim` and asks for a redraw.
    pub fn refresh(&mut self, dim: (i32, i32))
        requires
            old(self).wf(),
            dim.0 >= 1,
        ensures
            final(self).wf(),
            final(self).one_liners@ == old(self).one_liners@,
            final(self).active_file == old(self).active_file,
            final(self).files@.len() == old(self).files@.len(),
            forall|i: int|
                0 <= i < final(self).files@.len() && i != final(self).active_file
                    ==> final(self).files@[i] == old(self).files@[i],
            final(self).files@[final(self).active_file as int].same_document(
                &old(self).files@[old(self).active_file as int],
            ),
            final(self).files@[final(self).active_file as int].display_dirty,
    {
        let a = self.active_file;
        self.files[a].refresh(dim);
        assert(self.wf());
    }

    /// Opens a new empty tab after the active one and makes it active.
    pub fn new_tab(&mut self)
        requires
            old(self).wf(),
        ensures
            final(self).wf(),
            final(self).active_file == old(self).active_file + 1,
            final(self).files@ == old(self).files@.insert(
                final(self).active_file as int,
                final(self).files@[final(self).active_file as int],
            ),
            final(self).one_liners@ == old(self).one_liners@.insert(
                final(self).active_file as int,
                None,
            ),
            ({
                let f = final(self).files@[final(self).active_file as int];
                &&& f.text() == seq![Seq::<char>::empty()]
                &&& pos_of(f.caret) == (1int, 1int)
                &&& pos_of(f.window_top) == (1int, 1int)
                &&& f.selection_start is None
                &&& !f.selecting
                &&& !f.display_dirty
                &&& !f.contents_dirty
                &&& f.config.is_default()
                &&& f.name@ == "<empty>"@
            }),
            final(self).keys == old(self).keys,
    {
        let n = self.files.len();
        let a = self.active_file + 1;
        self.files.insert(a, File::empty());
        self.one_liners.insert(a, None);
        self.active_file = a;
        proof {
            assert forall|i: int| 0 <= i < self.files@.len() implies (
        #[trigger] self.files@[i]).wf() by {
                if i < a {
                    assert(self.files@[i] == old(self).files@[i]);
                } else if i > a {
                    assert(self.files@[i] == old(self).files@[i - 1]);
                }
            }
            assert forall|i: int| 0 <= i < self.one_liners@.len() implies slot_ok(
                #[trigger] self.one_liners@[i],
            ) by {
                if i < a {
                    assert(self.one_liners@[i] == old(self).one_liners@[i]);
                } else if i > a {
                    assert(self.one_liners@[i] == old(self).one_liners@[i - 1]);
                }
            }
        }
    }

    /// Closes the active tab and its prompt; the tab after it becomes active,
    /// counting round. With no tab left the editor is done.
    pub fn close_tab(&mut self)
        requires
            old(self).wf(),
        ensures
            final(self).files@ == old(self).files@.remove(old(self).active_file as int),
            final(self).one_liners@ == old(self).one_liners@.remove(
                old(self).active_file as int,
            ),
            final(self).keys == old(self).keys,
            final(self).files@.len() > 0 ==> final(self).wf() && final(self).active_file
                == old(self).active_file as int % final(self).files@.len() as int,
    {
        let a = self.active_file;
        let _ = self.files.remove(a);
        let _ = self.one_liners.remove(a);
        if self.files.len() > 0 {
            self.active_file = a % self.files.len();
        }
        proof {
            assert forall|i: int| 0 <= i < self.files@.len() implies (
        #[trigger] self.files@[i]).wf() by {
                if i < a {
                    assert(self.files@[i] == old(self).files@[i]);
                } else {
                    assert(self.files@[i] == old(self).files@[i + 1]);
                }
            }
            assert forall|i: int| 0 <= i < self.one_liners@.len() implies slot_ok(
                #[trigger] self.one_liners@[i],
            ) by {
                if i < a {
                    assert(self.one_liners@[i] == old(self).one_liners@[i]);
                } else {
                    assert(self.one_liners@[i] == old(self).one_liners@[i + 1]);
                }
            }
        }
    }

    /// Makes the next tab active, counting round.
    pub fn next_tab(&mut self)
        requires
            old(self).wf(),
        ensures
            final(self).wf(),
            final(self).active_file == next_index(
                old(self).active_file as int,
                old(self).files@.len() as int,
            ),
            final(self).files@ == old(self).files@,
            final(self).one_liners@ == old(self).one_liners@,
            final(self).keys == old(self).keys,
    {
        let n = self.files.len();
        self.active_file = if self.active_file == n - 1 {
            0
        } else {
            self.active_file + 1
        };
        proof {
            if self.active_file != 0 {
                vstd::arithmetic::div_mod::lemma_small_mod(self.active_file as nat, n as nat);
            } else {
                vstd::arithmetic::div_mod::lemma_mod_self_0(n as int);
            }
        }
    }

    /// The active tab's selected text, for the clipboard.
    pub fn copy(&self, _dim: (i32, i32)) -> (r: Option<String>)
        requires
            self.wf(),
        ensures
            ({
                let f = self.files@[self.active_file as int];
                match r {
                    Some(t) => f.selection_start is Some && t@ == f.selection_text(),
                    None => f.selection_start is None,
                }
            }),
    {
        let f = &self.files[self.active_file];
        if f.has_selection() {
            Some(f.selected_text())
        } else {
            None
        }
    }

    /// Takes the active tab's selected text for the clipboard and erases it.
    pub fn cut(&mut self, dim: (i32, i32)) -> (r: Option<String>)
        requires
            old(self).wf(),
            dim.0 >= 1,
        ensures
            final(self).wf(),
            ({
                let f = old(self).files@[old(self).active_file as int];
                match r {
                    Some(t) => f.selection_start is Some && t@ == f.selection_text(),
                    None => f.selection_start is None && *final(self) == *old(self),
                }
            }),
            r is Some ==> final(self).only_target_changed(old(self)) && final(self).target().edited(
                &old(self).target(),
            ),
            r is Some && !old(self).prompt_active() ==> (
            final(self).target().text(),
            final(self).target().caret.x as int,
            final(self).target().caret.y as int,
            ) == old(self).target().cleared(),
    {
        let copied = self.copy(dim);
        if copied.is_some() {
            self.delete(dim);
        }
        copied
    }


    /// Moves the caret left, in the prompt where one is open.
    pub fn move_cursor_left(&mut self, dim: (i32, i32))
        requires
            old(self).wf(),
            dim.0 >= 1,
        ensures
            final(self).wf(),
            final(self).only_target_changed(old(self)),
            final(self).target().after_left(&old(self).target(), dim),
    {
        let a = self.active_file;
        if self.one_liners[a].is_some() {
            let mut ol = self.one_liners[a].take().unwrap();
            ol.file.move_cursor_left(dim);
            self.one_liners.set(a, Some(ol));
        } else {
            self.files[a].move_cursor_left(dim);
        }
        proof {
            assert(self.one_liners@ =~= old(self).one_liners@.update(
                a as int,
                self.one_liners@[a as int],
            ));
            assert(self.files@ =~= old(self).files@.update(a as int, self.files@[a as int]));
            self.lemma_slot_update(old(self));
        }
    }

    /// Moves the caret right, in the prompt where one is open.
    pub fn move_cursor_right(&mut self, dim: (i32, i32))
        requires
            old(self).wf(),
            dim.0 >= 1,
        ensures
            final(self).wf(),
            final(self).only_target_changed(old(self)),
            final(self).target().after_right(&old(self).target(), dim),
    {
        let a = self.active_file;
        if self.one_liners[a].is_some() {
            let mut ol = self.one_liners[a].take().unwrap();
            ol.file.move_cursor_right(dim);
            self.one_liners.set(a, Some(ol));
        } else {
            self.files[a].move_cursor_right(dim);
        }
        proof {
            assert(self.one_liners@ =~= old(self).one_liners@.update(
                a as int,
                self.one_liners@[a as int],
            ));
            assert(self.files@ =~= old(self).files@.update(a as int, self.files@[a as int]));
            self.lemma_slot_update(old(self));
        }
    }

    /// Moves the caret home, in the prompt where one is open.
    pub fn move_cursor_home(&mut self, dim: (i32, i32))
        requires
            old(self).wf(),
            dim.0 >= 1,
        ensures
            final(self).wf(),
            final(self).only_target_changed(old(self)),
            final(self).target().after_home(&old(self).target(), dim),
    {
        let a = self.active_file;
        if self.one_liners[a].is_some() {
            let mut ol = self.one_liners[a].take().unwrap();
            ol.file.move_cursor_home(dim);
            self.one_liners.set(a, Some(ol));
        } else {
            self.files[a].move_cursor_home(dim);
        }
        proof {
            assert(self.one_liners@ =~= old(self).one_liners@.update(
                a as int,
                self.one_liners@[a as int],
            ));
            assert(self.files@ =~= old(self).files@.update(a as int, self.files@[a as int]));
            self.lemma_slot_update(old(self));
        }
    }

    /// Moves the caret to the end of its row, in the prompt where one is open.
    pub fn move_cursor_end(&mut self, dim: (i32, i32))
        requires
            old(self).wf(),
            dim.0 >= 1,
        ensures
            final(self).wf(),
            final(self).only_target_changed(old(self)),
            final(self).target().after_end(&old(self).target(), dim),
    {
        let a = self.active_file;
        if self.one_liners[a].is_some() {
            let mut ol = self.one_liners[a].take().unwrap();
            ol.file.move_cursor_end(dim);
            self.one_liners.set(a, Some(ol));
        } else {
            self.files[a].move_cursor_end(dim);
        }
        proof {
            assert(self.one_liners@ =~= old(self).one_liners@.update(
                a as int,
                self.one_liners@[a as int],
            ));
            assert(self.files@ =~= old(self).files@.update(a as int, self.files@[a as int]));
            self.lemma_slot_update(old(self));
        }
    }

    /// Moves the caret up; nothing while a prompt is open.
    pub fn move_cursor_up(&mut self, dim: (i32, i32))
        requires
            old(self).wf(),
            dim.0 >= 1,
        ensures
            final(self).wf(),
            final(self).document_only(old(self)),
            !old(self).prompt_active() ==> {
                final(self).target().after_up(&old(self).target(), dim)
            },
    {
        let a = self.active_file;
        if self.one_liners[a].is_none() {
            self.files[a].move_cursor_up(dim);
            proof {
                assert(self.files@ =~= old(self).files@.update(a as int, self.files@[a as int]));
                self.lemma_slot_update(old(self));
            }
        }
    }

    /// Moves the caret down; nothing while a prompt is open.
    pub fn move_cursor_down(&mut self, dim: (i32, i32))
        requires
            old(self).wf(),
            dim.0 >= 1,
        ensures
            final(self).wf(),
            final(self).document_only(old(self)),
            !old(self).prompt_active() ==> {
                final(self).target().after_down(&old(self).target(), dim)
            },
    {
        let a = self.active_file;
        if self.one_liners[a].is_none() {
            self.files[a].move_cursor_down(dim);
            proof {
                assert(self.files@ =~= old(self).files@.update(a as int, self.files@[a as int]));
                self.lemma_slot_update(old(self));
            }
        }
    }

    /// Moves the caret up a page; nothing while a prompt is open.
    pub fn page_up(&mut self, dim: (i32, i32))
        requires
            old(self).wf(),
            dim.0 >= 1,
        ensures
            final(self).wf(),
            final(self).document_only(old(self)),
            !old(self).prompt_active() ==> {
                let f = old(self).files@[old(self).active_file as int];
                pos_of(final(self).target().caret) == crate::file::up_n(
                    f.text(),
                    f.caret.x as int,
                    f.caret.y as int,
                    dim.0 as int,
                    dim.1 as int,
                )
            },
    {
        let a = self.active_file;
        if self.one_liners[a].is_none() {
            self.files[a].page_up(dim);
            proof {
                assert(self.files@ =~= old(self).files@.update(a as int, self.files@[a as int]));
                self.lemma_slot_update(old(self));
            }
        }
    }

    /// Moves the caret down a page; nothing while a prompt is open.
    pub fn page_down(&mut self, dim: (i32, i32))
        requires
            old(self).wf(),
            dim.0 >= 1,
        ensures
            final(self).wf(),
            final(self).document_only(old(self)),
            !old(self).prompt_active() ==> {
                let f = old(self).files@[old(self).active_file as int];
                pos_of(final(self).target().caret) == crate::file::down_n(
                    f.text(),
                    f.caret.x as int,
                    f.caret.y as int,
                    dim.0 as int,
                    dim.1 as int,
                )
            },
    {
        let a = self.active_file;
        if self.one_liners[a].is_none() {
            self.files[a].page_down(dim);
            proof {
                assert(self.files@ =~= old(self).files@.update(a as int, self.files@[a as int]));
                self.lemma_slot_update(old(self));
            }
        }
    }

    /// Scrolls the view up; nothing while a prompt is open.
    pub fn scroll_up(&mut self, dim: (i32, i32))
        requires
            old(self).wf(),
            dim.0 >= 1,
        ensures
            final(self).wf(),
            final(self).document_only(old(self)),
            !old(self).prompt_active() ==> {
                let f = old(self).files@[old(self).active_file as int];
                pos_of(final(self).target().window_top) == crate::file::up_n(
                    f.text(),
                    f.window_top.x as int,
                    f.window_top.y as int,
                    dim.0 as int,
                    3,
                )
            },
    {
        let a = self.active_file;
        if self.one_liners[a].is_none() {
            self.files[a].scroll_up(dim);
            proof {
                assert(self.files@ =~= old(self).files@.update(a as int, self.files@[a as int]));
                self.lemma_slot_update(old(self));
            }
        }
    }

    /// Scrolls the view down; nothing while a prompt is open.
    pub fn scroll_down(&mut self, dim: (i32, i32))
        requires
            old(self).wf(),
            dim.0 >= 1,
        ensures
            final(self).wf(),
            final(self).document_only(old(self)),
            !old(self).prompt_active() ==> {
                let f = old(self).files@[old(self).active_file as int];
                pos_of(final(self).target().window_top) == crate::file::down_n(
                    f.text(),
                    f.window_top.x as int,
                    f.window_top.y as int,
                    dim.0 as int,
                    3,
                )
            },
    {
        let a = self.active_file;
        if self.one_liners[a].is_none() {
            self.files[a].scroll_down(dim);
            proof {
                assert(self.files@ =~= old(self).files@.update(a as int, self.files@[a as int]));
                self.lemma_slot_update(old(self));
            }
        }
    }

    /// Forward delete, in the prompt where one is open.
    pub fn delete(&mut self, dim: (i32, i32))
        requires
            old(self).wf(),
            dim.0 >= 1,
        ensures
            final(self).wf(),
            final(self).only_target_changed(old(self)),
            final(self).target().after_delete(&old(self).target()),
    {
        let a = self.active_file;
        if self.one_liners[a].is_some() {
            let mut ol = self.one_liners[a].take().unwrap();
            ol.file.delete(dim);
            self.one_liners.set(a, Some(ol));
        } else {
            self.files[a].delete(dim);
        }
        proof {
            assert(self.one_liners@ =~= old(self).one_liners@.update(
                a as int,
                self.one_liners@[a as int],
            ));
            assert(self.files@ =~= old(self).files@.update(a as int, self.files@[a as int]));
            if old(self).prompt_active() {
                crate::file::lemma_edits_keep_one_line(old(self).target(), self.target(), ' ');
            }
            self.lemma_slot_update(old(self));
        }
    }

    /// Backspace, in the prompt where one is open.
    pub fn backspace(&mut self, dim: (i32, i32))
        requires
            old(self).wf(),
            dim.0 >= 1,
        ensures
            final(self).wf(),
            final(self).only_target_changed(old(self)),
            final(self).target().after_backspace(&old(self).target()),
    {
        let a = self.active_file;
        if self.one_liners[a].is_some() {
            let mut ol = self.one_liners[a].take().unwrap();
            ol.file.backspace(dim);
            self.one_liners.set(a, Some(ol));
        } else {
            self.files[a].backspace(dim);
        }
        proof {
            assert(self.one_liners@ =~= old(self).one_liners@.update(
                a as int,
                self.one_liners@[a as int],
            ));
            assert(self.files@ =~= old(self).files@.update(a as int, self.files@[a as int]));
            if old(self).prompt_active() {
                crate::file::lemma_edits_keep_one_line(old(self).target(), self.target(), ' ');
            }
            self.lemma_slot_update(old(self));
        }
    }

    /// Types `c`, in the prompt where one is open.
    pub fn insert(&mut self, dim: (i32, i32), c: char)
        requires
            old(self).wf(),
            dim.0 >= 1,
            old(self).target().has_room(1),
        ensures
            final(self).wf(),
            final(self).only_target_changed(old(self)),
            final(self).target().after_insert(&old(self).target(), c),
    {
        let a = self.active_file;
        if self.one_liners[a].is_some() {
            let mut ol = self.one_liners[a].take().unwrap();
            ol.file.insert(dim, c);
            self.one_liners.set(a, Some(ol));
        } else {
            self.files[a].insert(dim, c);
        }
        proof {
            assert(self.one_liners@ =~= old(self).one_liners@.update(
                a as int,
                self.one_liners@[a as int],
            ));
            assert(self.files@ =~= old(self).files@.update(a as int, self.files@[a as int]));
            if old(self).prompt_active() {
                crate::file::lemma_edits_keep_one_line(old(self).target(), self.target(), c);
            }
            self.lemma_slot_update(old(self));
        }
    }

    /// Starts a selection, in the prompt where one is open.
    pub fn select(&mut self)
        requires
            old(self).wf(),
        ensures
            final(self).wf(),
            final(self).only_target_changed(old(self)),
            final(self).target().same_document(&old(self).target()),
            final(self).target().caret == old(self).target().caret,
            final(self).target().selecting,
            final(self).target().selection_start == match old(self).target().selection_start {
                Some(c) => Some(c),
                None => Some(old(self).target().caret),
            },
    {
        let a = self.active_file;
        if self.one_liners[a].is_some() {
            let mut ol = self.one_liners[a].take().unwrap();
            ol.file.select();
            self.one_liners.set(a, Some(ol));
        } else {
            self.files[a].select();
        }
        proof {
            assert(self.one_liners@ =~= old(self).one_liners@.update(
                a as int,
                self.one_liners@[a as int],
            ));
            assert(self.files@ =~= old(self).files@.update(a as int, self.files@[a as int]));
            self.lemma_slot_update(old(self));
        }
    }

    /// Drops the selection, in the prompt where one is open.
    pub fn deselect(&mut self)
        requires
            old(self).wf(),
        ensures
            final(self).wf(),
            final(self).only_target_changed(old(self)),
            final(self).target().same_document(&old(self).target()),
            final(self).target().caret == old(self).target().caret,
            !final(self).target().selecting,
            final(self).target().selection_start is None,
    {
        let a = self.active_file;
        if self.one_liners[a].is_some() {
            let mut ol = self.one_liners[a].take().unwrap();
            ol.file.deselect();
            self.one_liners.set(a, Some(ol));
        } else {
            self.files[a].deselect();
        }
        proof {
            assert(self.one_liners@ =~= old(self).one_liners@.update(
                a as int,
                self.one_liners@[a as int],
            ));
            assert(self.files@ =~= old(self).files@.update(a as int, self.files@[a as int]));
            self.lemma_slot_update(old(self));
        }
    }

    /// Whether the prompt, where one is open, or else the active tab needs a
    /// redraw.
    pub fn display_dirty(&self) -> (r: bool)
        requires
            self.wf(),
        ensures
            r == self.target().display_dirty,
    {
        match &self.one_liners[self.active_file] {
            Some(ols) => ols.file.display_dirty,
            None => self.files[self.active_file].display_dirty,
        }
    }

    /// Marks the prompt, where one is open, or else the active tab as drawn.
    pub fn clean_display(&mut self)
        requires
            old(self).wf(),
        ensures
            final(self).wf(),
            final(self).only_target_changed(old(self)),
            final(self).target() == (File { display_dirty: false, ..old(self).target() }),
    {
        let a = self.active_file;
        if self.one_liners[a].is_some() {
            let mut ol = self.one_liners[a].take().unwrap();
            ol.file.display_dirty = false;
            self.one_liners.set(a, Some(ol));
        } else {
            self.files[a].display_dirty = false;
        }
        proof {
            assert(self.one_liners@ =~= old(self).one_liners@.update(
                a as int,
                self.one_liners@[a as int],
            ));
            assert(self.files@ =~= old(self).files@.update(a as int, self.files@[a as int]));
            self.lemma_slot_update(old(self));
        }
    }

    /// Inserts spaces for one indentation unit; nothing while a prompt is
    /// open.
    pub fn tab(&mut self, dim: (i32, i32))
        requires
            old(self).wf(),
            dim.0 >= 1,
            old(self).target().has_room(old(self).target().iw()),
        ensures
            final(self).wf(),
            final(self).document_only(old(self)),
            !old(self).prompt_active() ==> ({
                let f = old(self).files@[old(self).active_file as int];
                let (ls, x, y) = f.cleared();
                let line = ls[y - 1];
                &&& final(self).target().edited(&f)
                &&& final(self).target().text() == ls.update(
                    y - 1,
                    line.subrange(0, x - 1) + crate::text::repeat(' ', f.iw() as nat)
                        + line.subrange(
                        x - 1,
                        line.len() as int,
                    ),
                )
                &&& pos_of(final(self).target().caret) == (x + f.iw(), y)
                &&& final(self).target().display_dirty
                &&& final(self).target().contents_dirty
            }),
    {
        let a = self.active_file;
        if self.one_liners[a].is_none() {
            self.files[a].tab(dim);
            proof {
                assert(self.files@ =~= old(self).files@.update(a as int, self.files@[a as int]));
                self.lemma_slot_update(old(self));
            }
        }
    }

    /// Breaks the line at the caret of the active tab. A prompt takes no line
    /// breaks, so none may be open.
    pub fn insert_newline(&mut self, dim: (i32, i32), indent: bool)
        requires
            old(self).wf(),
            dim.0 >= 1,
            !old(self).prompt_active(),
            old(self).target().has_room(old(self).target().cleared_line_len() + 1),
        ensures
            final(self).wf(),
            final(self).only_target_changed(old(self)),
            final(self).target().edited(&old(self).target()),
            ({
                let (ls, x, y) = old(self).target().cleared();
                let n = crate::file::carried_indent(
                    ls[y - 1].subrange(0, x - 1),
                    old(self).target().iw(),
                    indent,
                );
                &&& final(self).target().text() == newline_text(ls, x, y, n)
                &&& pos_of(final(self).target().caret) == (1 + n, y + 1)
            }),
            !indent ==> text_size(final(self).target().text()) <= text_size(
                old(self).target().text(),
            ) + 1,
            final(self).target().display_dirty,
            final(self).target().contents_dirty,
    {
        let a = self.active_file;
        self.files[a].insert_newline(dim, indent);
        proof {
            assert(self.files@ =~= old(self).files@.update(a as int, self.files@[a as int]));
            self.lemma_slot_update(old(self));
        }
    }

    /// The text that saving the active tab writes; the tab counts as saved.
    pub fn save_file(&mut self) -> (r: String)
        requires
            old(self).wf(),
        ensures
            final(self).wf(),
            ({
                let f = old(self).files@[old(self).active_file as int];
                r@ == crate::document::saved_text(
                    f.text(),
                    match f.config.end_of_line {
                        crate::config::EndOfLine::Lf => seq!['\n'],
                        crate::config::EndOfLine::CrLf => seq!['\r', '\n'],
                        crate::config::EndOfLine::Cr => seq!['\r'],
                    },
                    f.config.trim_trailing_whitespace,
                    f.config.insert_final_newline,
                ) && final(self).files@ == old(self).files@.update(
                    old(self).active_file as int,
                    File { contents_dirty: false, ..f },
                )
            }),
            final(self).one_liners@ == old(self).one_liners@,
            final(self).active_file == old(self).active_file,
    {
        let a = self.active_file;
        let r = self.files[a].save_text();
        proof {
            assert(self.files@ =~= old(self).files@.update(a as int, self.files@[a as int]));
            assert(self.one_liners@ =~= old(self).one_liners@);
            self.lemma_slot_update_doc(old(self));
        }
        r
    }

    /// Shows `file` in the active tab in place of its document.
    pub fn open_file(&mut self, file: File)
        requires
            old(self).wf(),
            file.wf(),
        ensures
            final(self).wf(),
            final(self).files@ == old(self).files@.update(old(self).active_file as int, file),
            final(self).one_liners@ == old(self).one_liners@,
            final(self).active_file == old(self).active_file,
    {
        let a = self.active_file;
        self.files.set(a, file);
        proof {
            self.lemma_slot_update_doc(old(self));
        }
    }

    /// After the document of the active tab changed, prompts untouched.
    proof fn lemma_slot_update_doc(&self, before: &EditorState)
        requires
            before.wf(),
            self.keys == before.keys,
            self.active_file == before.active_file,
            self.one_liners@ == before.one_liners@,
            self.files@ == before.files@.update(
                before.active_file as int,
                self.files@[before.active_file as int],
            ),
            self.files@[before.active_file as int].wf(),
        ensures
            self.wf(),
    {
        let a = self.active_file as int;
        assert forall|i: int| 0 <= i < self.files@.len() implies (
        #[trigger] self.files@[i]).wf() by {
            if i != a {
                assert(self.files@[i] == before.files@[i]);
            }
        }
    }

    /// Moves the active tab's caret to a target `row` or `row:col` typed in
    /// a prompt. The row is brought into the document; the column defaults
    /// to the caret's. A target that is not made of decimal numbers is
    /// refused and nothing moves.
    pub fn goto(&mut self, dim: (i32, i32), target: &str) -> (r: Result<(), GotoError>)
        requires
            old(self).wf(),
            dim.0 >= 1,
        ensures
            final(self).wf(),
            final(self).one_liners@ == old(self).one_liners@,
            final(self).active_file == old(self).active_file,
            final(self).files@.len() == old(self).files@.len(),
            ({
                let a = old(self).active_file as int;
                let f = old(self).files@[a];
                match goto_target(target@, f.caret.x as int) {
                    Some((row, col)) => {
                        let y = clamp_row(row, f.lines@.len() as int);
                        &&& r is Ok
                        &&& final(self).files@[a].same_document(&f)
                        &&& final(self).files@[a].caret.y == y
                        &&& final(self).files@[a].caret.x == clamp_col(col, len_at(f.text(), y))
                        &&& forall|i: int| 0 <= i < final(self).files@.len() && i != a
                            ==> final(self).files@[i] == old(self).files@[i]
                    },
                    None => r is Err && *final(self) == *old(self),
                }
            }),
    {
        let a = self.active_file;
        let caret_x = self.files[a].caret.x;
        let n = target.unicode_len();
        let (row, col) = match find_colon(target) {
            Some(k) => {
                let tgt = String::from_str(target);
                let row_text = slice(&tgt, 0, k);
                let col_text = slice(&tgt, k + 1, n);
                let row = match parse_i32(row_text.as_str()) {
                    Some(v) => v,
                    None => {
                        proof { self.lemma_goto_colon(target@, k as int, caret_x as int); }
                        return Err(GotoError::NotANumber);
                    },
                };
                let col = match parse_i32(col_text.as_str()) {
                    Some(v) => v,
                    None => {
                        proof { self.lemma_goto_colon(target@, k as int, caret_x as int); }
                        return Err(GotoError::NotANumber);
                    },
                };
                proof { self.lemma_goto_colon(target@, k as int, caret_x as int); }
                (row, col)
            },
            None => {
                match parse_i32(target) {
                    Some(v) => (v, caret_x),
                    None => return Err(GotoError::NotANumber),
                }
            },
        };
        let count = self.files[a].lines.len();
        proof {
            lemma_text_size_nonneg(self.files@[a as int].text());
        }
        let row = if row < 1 {
            1
        } else if row as usize > count {
            count as i32
        } else {
            row
        };
        self.files[a].goto(dim, (row, col));
        proof {
            assert(self.files@ =~= old(self).files@.update(a as int, self.files@[a as int]));
            self.lemma_slot_update_doc(old(self));
        }
        Ok(())
    }

    /// The first colon of `t` is at `k`, so the target splits there.
    proof fn lemma_goto_colon(&self, t: Seq<char>, k: int, col: int)
        requires
            0 <= k < t.len(),
            t[k] == ':',
            forall|j: int| 0 <= j < k ==> t[j] != ':',
        ensures
            (choose|i: int| 0 <= i < t.len() && t[i] == ':' && forall|j: int| 0 <= j < i
                ==> t[j] != ':') == k,
            exists|i: int| 0 <= i < t.len() && t[i] == ':',
    {
        let m = choose|i: int| 0 <= i < t.len() && t[i] == ':' && forall|j: int| 0 <= j < i
            ==> t[j] != ':';
        assert(0 <= k < t.len() && t[k] == ':' && forall|j: int| 0 <= j < k ==> t[j] != ':');
        if m < k {
            assert(t[m] != ':');
        } else if m > k {
            assert(t[k] != ':');
        }
    }

    /// Types the clipboard text `text` character by character; each line
    /// feed breaks the line without carrying indentation.
    pub fn paste(&mut self, dim: (i32, i32), text: &str)
        requires
            old(self).wf(),
            dim.0 >= 1,
            old(self).prompt_active() ==> forall|i: int| 0 <= i < text@.len() ==> text@[i] != '\n',
            2 * (text_size(old(self).target().text()) + text@.len()) + 1 <= MAX_TEXT,
        ensures
            final(self).wf(),
            final(self).only_target_changed(old(self)),
            text@.len() == 0 ==> *final(self) == *old(self),
            text@.len() > 0 ==> ({
                let (ls, x, y) = old(self).target().cleared();
                (
                    final(self).target().text(),
                    final(self).target().caret.x as int,
                    final(self).target().caret.y as int,
                ) == pasted(ls, x, y, text@)
            }),
    {
        let ghost start = old(self).target().cleared();
        let ghost size0 = text_size(old(self).target().text());
        for c in it: text.chars()
            invariant
                it.seq() == text@,
                0 <= it.index() <= text@.len(),
                dim.0 >= 1,
                self.wf(),
                old(self).wf(),
                start == old(self).target().cleared(),
                size0 == text_size(old(self).target().text()),
                2 * (size0 + text@.len()) + 1 <= MAX_TEXT,
                old(self).prompt_active() ==> forall|i: int| 0 <= i < text@.len()
                    ==> text@[i] != '\n',
                self.only_target_changed(old(self)),
                self.prompt_active() == old(self).prompt_active(),
                it.index() == 0 ==> *self == *old(self),
                it.index() > 0 ==> self.target().selection_start is None && (
                self.target().text(),
                self.target().caret.x as int,
                self.target().caret.y as int,
                ) == pasted(start.0, start.1, start.2, text@.take(it.index() as int)),
                text_size(self.target().text()) <= size0 + it.index(),
        {
            let ghost before = *self;
            let ghost i = it.index() as int;
            proof {
                assert(text@.take(i + 1).drop_last() =~= text@.take(i));
                assert(text@.take(i + 1).last() == c);
                assert(c == text@[i]);
            }
            if c == '\n' {
                proof {
                    self.target().lemma_cleared_bounds();
                }
                self.insert_newline(dim, false);
            } else {
                self.insert(dim, c);
            }
            proof {
                lemma_only_target_trans(self, &before, old(self));
                if i == 0 {
                    assert(text@.take(0) =~= Seq::<char>::empty());
                    assert(before.target().cleared() == start);
                } else {
                    assert(before.target().cleared() == (
                        before.target().text(),
                        before.target().caret.x as int,
                        before.target().caret.y as int,
                    ));
                }
                assert(pasted(start.0, start.1, start.2, text@.take(i))
                    == before.target().cleared());
            }
        }
        proof {
            assert(text@.take(text@.len() as int) =~= text@);
        }
    }

    /// Row and column of the target's caret.
    fn target_caret(&self) -> (r: (i32, i32))
        requires
            self.wf(),
        ensures
            r.0 == self.target().caret.x && r.1 == self.target().caret.y,
    {
        match &self.one_liners[self.active_file] {
            Some(ols) => (ols.file.caret.x, ols.file.caret.y),
            None => (self.files[self.active_file].caret.x, self.files[self.active_file].caret.y),
        }
    }

    /// Screen row of the target's caret at width `w`.
    pub open spec fn caret_row(&self, w: int) -> int {
        let t = self.target();
        row_at(t.text(), t.caret.x as int, t.caret.y as int, w)
    }

    /// How far into its document the target's caret lies.
    pub open spec fn caret_offset(&self) -> int {
        let t = self.target();
        offset_in(t.text(), t.caret.x as int, t.caret.y as int)
    }

    /// Columns left of the text on the terminal cursor's row: the prompt's
    /// label and a space, or the line numbers and a space.
    pub open spec fn gutter(&self) -> int {
        match self.one_liners@[self.active_file as int] {
            Some(p) => p.label@.len() as int + 1,
            None => crate::file::digit_count(self.files@[self.active_file as int].lines@.len()) + 1,
        }
    }

    /// Caret and viewport top of the target, as positions.
    pub open spec fn view_pos(&self) -> ((int, int), (int, int)) {
        (pos_of(self.target().caret), pos_of(self.target().window_top))
    }

    /// With offsets computed for the current width, the terminal cursor is
    /// where `screen_at` puts it.
    proof fn lemma_screen_fresh(&self, dim: (i32, i32))
        requires
            self.wf(),
            dim.0 >= 1,
            self.target().last_dim == dim,
        ensures
            self.screen_pos(dim) == screen_at(
                self.target().text(),
                pos_of(self.target().caret),
                pos_of(self.target().window_top),
                dim,
                self.gutter(),
                self.prompt_active(),
            ),
    {
        assert(self.target().wf());
    }

    /// Recomputes the target's cached offsets for `dim`.
    fn sync_target(&mut self, dim: (i32, i32))
        requires
            old(self).wf(),
            dim.0 >= 1,
        ensures
            final(self).wf(),
            final(self).only_target_changed(old(self)),
            final(self).target().same_document(&old(self).target()),
            final(self).view_pos() == old(self).view_pos(),
            final(self).target().last_dim == dim,
            final(self).gutter() == old(self).gutter(),
            final(self).prompt_active() == old(self).prompt_active(),
    {
        let a = self.active_file;
        if self.one_liners[a].is_some() {
            let mut ol = self.one_liners[a].take().unwrap();
            ol.file.recompute_offsets(dim);
            self.one_liners.set(a, Some(ol));
        } else {
            self.files[a].recompute_offsets(dim);
        }
        proof {
            assert(self.one_liners@ =~= old(self).one_liners@.update(
                a as int,
                self.one_liners@[a as int],
            ));
            assert(self.files@ =~= old(self).files@.update(a as int, self.files@[a as int]));
            self.lemma_slot_update(old(self));
        }
    }

    /// Moves the caret towards the screen position `dest` (column, row), as
    /// a mouse click asks: a screen row at a time down or up until the row is
    /// reached or the caret stops moving, then to the end of that screen row,
    /// then left until the column is reached or the caret stops moving. The
    /// caret and the viewport end where `click_target` says.
    pub fn move_cursor_to(&mut self, dim: (i32, i32), dest: (i32, i32))
        requires
            old(self).wf(),
            dim.0 >= 1,
            dim.1 < i32::MAX,
        ensures
            final(self).wf(),
            final(self).only_target_changed(old(self)),
            final(self).target().same_document(&old(self).target()),
            final(self).view_pos() == click_target(
                old(self).target().text(),
                old(self).view_pos(),
                dim,
                old(self).gutter(),
                old(self).prompt_active(),
                dest,
            ),
    {
        let ghost w = dim.0 as int;
        let ghost ls = self.target().text();
        let ghost g = self.gutter();
        let ghost p = self.prompt_active();
        let ghost big: nat = (text_size(ls) + 2) as nat;
        let ghost v0 = self.view_pos();
        let ghost down = walk_down(ls, v0, dim, g, p, dest.1 as int, big);
        let ghost up = walk_up(ls, down, dim, g, p, dest.1 as int, big);
        proof {
            lemma_text_size_nonneg(ls);
        }
        self.sync_target(dim);
        let ghost mut fuel: nat = big;
        proof {
            let t = self.target();
            lemma_down_row(t.text(), t.caret.x as int, t.caret.y as int, w);
        }
        loop
            invariant_except_break
                walk_down(ls, self.view_pos(), dim, g, p, dest.1 as int, fuel) == down,
            invariant
                self.wf(),
                old(self).wf(),
                dim.0 >= 1,
                dim.1 < i32::MAX,
                w == dim.0,
                self.only_target_changed(old(self)),
                self.prompt_active() == p,
                self.gutter() == g,
                self.target().same_document(&old(self).target()),
                self.target().text() == ls,
                self.target().last_dim == dim,
                big == text_size(ls) + 2,
                fuel + self.caret_row(w) >= big,
            ensures
                self.wf(),
                self.only_target_changed(old(self)),
                self.prompt_active() == p,
                self.gutter() == g,
                self.target().same_document(&old(self).target()),
                self.target().text() == ls,
                self.target().last_dim == dim,
                self.view_pos() == down,
            decreases MAX_TEXT - self.caret_row(w),
        {
            proof {
                self.lemma_screen_fresh(dim);
                let t = self.target();
                lemma_down_row(t.text(), t.caret.x as int, t.caret.y as int, w);
            }
            let before = self.cursor(dim);
            if before.1 >= dest.1 {
                break;
            }
            let ghost s0 = *self;
            let start = self.target_caret();
            self.move_cursor_down(dim);
            let end = self.target_caret();
            proof {
                lemma_only_target_trans(self, &s0, old(self));
                let t = s0.target();
                lemma_down_row(t.text(), t.caret.x as int, t.caret.y as int, w);
                let u = self.target();
                lemma_down_row(u.text(), u.caret.x as int, u.caret.y as int, w);
                assert(self.view_pos() == down_step(ls, s0.view_pos(), dim, p));
            }
            if start.0 == end.0 && start.1 == end.1 {
                break;
            }
            proof {
                fuel = (fuel - 1) as nat;
            }
        }
        proof {
            fuel = big;
            let t = self.target();
            lemma_down_row(t.text(), t.caret.x as int, t.caret.y as int, w);
        }
        loop
            invariant_except_break
                walk_up(ls, self.view_pos(), dim, g, p, dest.1 as int, fuel) == up,
            invariant
                self.wf(),
                old(self).wf(),
                dim.0 >= 1,
                dim.1 < i32::MAX,
                w == dim.0,
                self.only_target_changed(old(self)),
                self.prompt_active() == p,
                self.gutter() == g,
                self.target().same_document(&old(self).target()),
                self.target().text() == ls,
                self.target().last_dim == dim,
                fuel >= self.caret_row(w) + 1,
            ensures
                self.wf(),
                self.only_target_changed(old(self)),
                self.prompt_active() == p,
                self.gutter() == g,
                self.target().same_document(&old(self).target()),
                self.target().text() == ls,
                self.target().last_dim == dim,
                self.view_pos() == up,
            decreases self.caret_row(w),
        {
            proof {
                self.lemma_screen_fresh(dim);
                let t = self.target();
                lemma_up_row(t.text(), t.caret.x as int, t.caret.y as int, w);
            }
            let before = self.cursor(dim);
            if before.1 <= dest.1 {
                break;
            }
            let ghost s0 = *self;
            let start = self.target_caret();
            self.move_cursor_up(dim);
            let end = self.target_caret();
            proof {
                lemma_only_target_trans(self, &s0, old(self));
                let t = s0.target();
                lemma_up_row(t.text(), t.caret.x as int, t.caret.y as int, w);
                let u = self.target();
                lemma_up_row(u.text(), u.caret.x as int, u.caret.y as int, w);
                assert(self.view_pos() == up_step(ls, s0.view_pos(), dim, p));
            }
            if start.0 == end.0 && start.1 == end.1 {
                break;
            }
            proof {
                fuel = (fuel - 1) as nat;
            }
        }
        let ghost s1 = *self;
        self.move_cursor_end(dim);
        proof {
            lemma_only_target_trans(self, &s1, old(self));
            fuel = big;
            let t = self.target();
            lemma_left_offset(t.text(), t.caret.x as int, t.caret.y as int);
        }
        loop
            invariant_except_break
                walk_left(ls, self.view_pos(), dim, g, p, dest.0 as int, fuel) == click_target(
                    ls,
                    v0,
                    dim,
                    g,
                    p,
                    dest,
                ),
            invariant
                self.wf(),
                old(self).wf(),
                dim.0 >= 1,
                dim.1 < i32::MAX,
                w == dim.0,
                self.only_target_changed(old(self)),
                self.prompt_active() == p,
                self.gutter() == g,
                self.target().same_document(&old(self).target()),
                self.target().text() == ls,
                self.target().last_dim == dim,
                fuel >= self.caret_offset() + 1,
            ensures
                self.wf(),
                self.only_target_changed(old(self)),
                self.target().same_document(&old(self).target()),
                self.view_pos() == click_target(ls, v0, dim, g, p, dest),
            decreases self.caret_offset(),
        {
            proof {
                self.lemma_screen_fresh(dim);
                let t = self.target();
                lemma_left_offset(t.text(), t.caret.x as int, t.caret.y as int);
            }
            let before = self.cursor(dim);
            if dest.0 >= before.0 {
                break;
            }
            let ghost s0 = *self;
            let start = self.target_caret();
            self.move_cursor_left(dim);
            let end = self.target_caret();
            proof {
                lemma_only_target_trans(self, &s0, old(self));
                let t = s0.target();
                lemma_left_offset(t.text(), t.caret.x as int, t.caret.y as int);
                let u = self.target();
                lemma_left_offset(u.text(), u.caret.x as int, u.caret.y as int);
                assert(self.view_pos() == left_step(ls, s0.view_pos(), dim));
            }
            if start.0 == end.0 && start.1 == end.1 {
                break;
            }
            proof {
                fuel = (fuel - 1) as nat;
            }
        }
    }

    /// Where `cursor` puts the terminal cursor.
    pub open spec fn screen_pos(&self, dim: (i32, i32)) -> (int, int) {
        let f = self.target();
        let w = dim.0 as int;
        let x = (f.caret.x - 1) % w + 1;
        match self.one_liners@[self.active_file as int] {
            Some(p) => (x + p.label@.len() + 1, dim.1 + 1),
            None => (
                x + crate::file::digit_count(f.lines@.len()) + 1,
                f.caret.screen_row(w) - f.window_top.screen_row(w) + 1,
            ),
        }
    }

    /// After the slot of the active tab changed: the other slots are as
    /// before, so the editor is well formed where the changed document is.
    proof fn lemma_slot_update(&self, before: &EditorState)
        requires
            before.wf(),
            self.keys == before.keys,
            self.active_file == before.active_file,
            self.files@.len() == before.files@.len(),
            self.one_liners@.len() == before.one_liners@.len(),
            self.target().wf(),
            before.prompt_active() ==> self.target().lines@.len() == 1,
            ({
                let a = before.active_file as int;
                if before.prompt_active() {
                    &&& self.files@ == before.files@
                    &&& self.one_liners@ == before.one_liners@.update(a, self.one_liners@[a])
                    &&& self.one_liners@[a] is Some
                    &&& self.one_liners@[a]->0.label == before.one_liners@[a]->0.label
                } else {
                    &&& self.one_liners@ == before.one_liners@
                    &&& self.files@ == before.files@.update(a, self.files@[a])
                }
            }),
        ensures
            self.wf(),
    {
        let a = self.active_file as int;
        assert forall|i: int| 0 <= i < self.files@.len() implies (
        #[trigger] self.files@[i]).wf() by {
            if i != a || before.prompt_active() {
                assert(self.files@[i] == before.files@[i]);
            }
        }
        assert forall|i: int| 0 <= i < self.one_liners@.len() implies slot_ok(
                #[trigger] self.one_liners@[i],
            ) by {
            if i != a || !before.prompt_active() {
                assert(self.one_liners@[i] == before.one_liners@[i]);
            }
        }
    }
}

} // verus!
