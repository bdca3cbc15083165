//! The document buffer: lines of text, a caret, a selection and a viewport
//! over soft-wrapped lines.
use vstd::prelude::*;
use vstd::arithmetic::div_mod::{
    lemma_div_is_ordered,
    lemma_fundamental_div_mod,
    lemma_mod_bound,
    lemma_div_pos_is_pos,
};
use crate::text::{char_len, slice, push_char, push_repeat, repeat, push_int, int_text};
use crate::indent::{Indented, indent_end_of, pop_indent_of, lemma_indent_end_facts};
use crate::config::Config;
use crate::terminal::Color;
use crate::document::{read_lines, saved_text, split_lines, trim_end, join_with, trim_end_of};
use crate::config::IndentStyle;

verus! {

/// Most characters a document may hold, line ends counted.
pub const MAX_TEXT: i32 = 0x3fff_ffff;

/// The characters of each line.
pub open spec fn lines_view(lines: Seq<String>) -> Seq<Seq<char>> {
    lines.map_values(|l: String| l@)
}

/// Characters in `ls`, counting one line end after each line.
pub open spec fn text_size(ls: Seq<Seq<char>>) -> int
    decreases ls.len(),
{
    if ls.len() == 0 {
        0
    } else {
        text_size(ls.drop_last()) + ls.last().len() + 1
    }
}

/// Length of line `y` (counted from 1).
pub open spec fn len_at(ls: Seq<Seq<char>>, y: int) -> int {
    ls[y - 1].len() as int
}

/// Extra screen rows that the first `n` lines take when wrapped at width `w`.
pub open spec fn wrap_before(ls: Seq<Seq<char>>, n: int, w: int) -> int
    decreases n,
{
    if n <= 0 {
        0
    } else {
        wrap_before(ls, n - 1, w) + ls[n - 1].len() as int / w
    }
}

pub open spec fn min(a: int, b: int) -> int {
    if a <= b {
        a
    } else {
        b
    }
}

/// Position `(column, row)` after moving left from `(x, y)`.
pub open spec fn left_pos(ls: Seq<Seq<char>>, x: int, y: int) -> (int, int) {
    if x > 1 {
        (x - 1, y)
    } else if y > 1 {
        (len_at(ls, y - 1) + 1, y - 1)
    } else {
        (x, y)
    }
}

/// Position after moving right from `(x, y)`.
pub open spec fn right_pos(ls: Seq<Seq<char>>, x: int, y: int) -> (int, int) {
    if x <= len_at(ls, y) {
        (x + 1, y)
    } else if y < ls.len() {
        (1, y + 1)
    } else {
        (x, y)
    }
}

/// Position after moving one screen row up at width `w`.
pub open spec fn up_pos(ls: Seq<Seq<char>>, x: int, y: int, w: int) -> (int, int) {
    if x > w {
        (x - w, y)
    } else if y > 1 {
        let l = len_at(ls, y - 1);
        (min(x + (l / w) * w, l + 1), y - 1)
    } else {
        (x, y)
    }
}

/// Position after moving one screen row down at width `w`.
pub open spec fn down_pos(ls: Seq<Seq<char>>, x: int, y: int, w: int) -> (int, int) {
    let l = len_at(ls, y);
    if (x - 1) / w < l / w {
        (min(x + w, l + 1), y)
    } else if y < ls.len() {
        (min((x - 1) % w + 1, len_at(ls, y + 1) + 1), y + 1)
    } else {
        (x, y)
    }
}

/// Column after pressing home at `(x, y)`: in the first screen row of a line
/// it goes to the end of the indentation, or to column 1 from there; in a
/// later one, to the start of that row.
pub open spec fn home_x(ls: Seq<Seq<char>>, x: int, y: int, w: int, iw: int) -> int {
    if x <= w {
        match indent_end_of(ls[y - 1], iw) {
            Some(s) => if x != s + 1 {
                s + 1
            } else {
                1
            },
            None => 1,
        }
    } else {
        ((x - 1) / w) * w + 1
    }
}

/// Column after pressing end at `(x, y)`: the end of the screen row, or of the
/// line.
pub open spec fn end_x(ls: Seq<Seq<char>>, x: int, y: int, w: int) -> int {
    min(((x - 1) / w + 1) * w, len_at(ls, y) + 1)
}

/// Floor division at a positive width.
pub proof fn lemma_floor(a: int, w: int)
    requires
        a >= 0,
        w >= 1,
    ensures
        0 <= a / w <= a,
        0 <= (a / w) * w <= a,
        a - (a / w) * w == a % w,
        0 <= a % w < w,
        a < (a / w + 1) * w,
{
    lemma_fundamental_div_mod(a, w);
    lemma_mod_bound(a, w);
    lemma_div_pos_is_pos(a, w);
    assert(0 <= (a / w) * w <= a) by (nonlinear_arith)
        requires
            a == w * (a / w) + a % w,
            0 <= a % w,
            a / w >= 0,
            w >= 1,
    ;
    assert(a - (a / w) * w == a % w) by (nonlinear_arith)
        requires
            a == w * (a / w) + a % w,
    ;
    assert(a / w <= a) by (nonlinear_arith)
        requires
            0 <= (a / w) * w <= a,
            a / w >= 0,
            w >= 1,
    ;
    assert(a < (a / w + 1) * w) by (nonlinear_arith)
        requires
            a == w * (a / w) + a % w,
            a % w < w,
    ;
}

pub proof fn lemma_text_size_prefix(ls: Seq<Seq<char>>, n: int)
    requires
        0 <= n < ls.len(),
    ensures
        text_size(ls.subrange(0, n + 1)) == text_size(ls.subrange(0, n)) + ls[n].len() + 1,
{
    assert(ls.subrange(0, n + 1).drop_last() =~= ls.subrange(0, n));
}

pub proof fn lemma_text_size_nonneg(ls: Seq<Seq<char>>)
    ensures
        text_size(ls) >= ls.len(),
    decreases ls.len(),
{
    if ls.len() > 0 {
        lemma_text_size_nonneg(ls.drop_last());
    }
}

/// Prefixes of a document are no larger than the document.
pub proof fn lemma_text_size_mono(ls: Seq<Seq<char>>, n: int)
    requires
        0 <= n <= ls.len(),
    ensures
        text_size(ls.subrange(0, n)) <= text_size(ls),
    decreases ls.len() - n,
{
    if n < ls.len() {
        lemma_text_size_prefix(ls, n);
        lemma_text_size_mono(ls, n + 1);
    } else {
        assert(ls.subrange(0, n) =~= ls);
    }
}

/// Wrapping never adds more rows than there are characters.
pub proof fn lemma_wrap_bound(ls: Seq<Seq<char>>, n: int, w: int)
    requires
        0 <= n <= ls.len(),
        w >= 1,
    ensures
        0 <= wrap_before(ls, n, w),
        wrap_before(ls, n, w) + n <= text_size(ls.subrange(0, n)),
    decreases n,
{
    if n > 0 {
        lemma_wrap_bound(ls, n - 1, w);
        lemma_text_size_prefix(ls, n - 1);
        lemma_floor(ls[n - 1].len() as int, w);
    } else {
        assert(ls.subrange(0, 0).len() == 0);
    }
}

/// The screen row of line `y`'s first segment, the length of line `y` and the
/// rows before it all fit in the document's size.
pub proof fn lemma_row_bound(ls: Seq<Seq<char>>, y: int, w: int)
    requires
        1 <= y <= ls.len(),
        w >= 1,
    ensures
        0 <= wrap_before(ls, y - 1, w),
        y + wrap_before(ls, y - 1, w) + len_at(ls, y) <= text_size(ls),
        len_at(ls, y) < text_size(ls),
        ls.len() <= text_size(ls),
{
    lemma_wrap_bound(ls, y - 1, w);
    lemma_text_size_prefix(ls, y - 1);
    lemma_text_size_mono(ls, y);
    lemma_text_size_nonneg(ls);
}

/// A position in a document. Rows and columns count from 1; `y_offset`
/// caches how many extra screen rows the lines above take when wrapped.
pub struct Cursor {
    pub x: i32,
    pub y: i32,
    pub y_offset: i32,
}

impl PartialEq for Cursor {
    fn eq(&self, other: &Cursor) -> (r: bool) {
        self.y == other.y && self.x == other.x
    }
}

impl vstd::std_specs::cmp::PartialEqSpecImpl for Cursor {
    open spec fn obeys_eq_spec() -> bool {
        true
    }

    /// Positions are equal where row and column are; the cached offset does
    /// not count.
    open spec fn eq_spec(&self, other: &Cursor) -> bool {
        self.y == other.y && self.x == other.x
    }
}

impl Eq for Cursor {
}

impl PartialOrd for Cursor {
    /// Row first, then column.
    fn partial_cmp(&self, other: &Cursor) -> (r: Option<core::cmp::Ordering>) {
        if self.y < other.y {
            Some(core::cmp::Ordering::Less)
        } else if self.y > other.y {
            Some(core::cmp::Ordering::Greater)
        } else if self.x < other.x {
            Some(core::cmp::Ordering::Less)
        } else if self.x > other.x {
            Some(core::cmp::Ordering::Greater)
        } else {
            Some(core::cmp::Ordering::Equal)
        }
    }
}

impl vstd::std_specs::cmp::PartialOrdSpecImpl for Cursor {
    open spec fn obeys_partial_cmp_spec() -> bool {
        true
    }

    open spec fn partial_cmp_spec(&self, other: &Cursor) -> Option<core::cmp::Ordering> {
        if self.precedes(*other) {
            Some(core::cmp::Ordering::Less)
        } else if other.precedes(*self) {
            Some(core::cmp::Ordering::Greater)
        } else {
            Some(core::cmp::Ordering::Equal)
        }
    }
}

impl Clone for Cursor {
    fn clone(&self) -> (r: Cursor)
        ensures
            r == *self,
    {
        Cursor { x: self.x, y: self.y, y_offset: self.y_offset }
    }
}

impl Cursor {
    pub open spec fn offset(self) -> int {
        self.y_offset as int
    }

    /// Row and column lie in the document; the column may be one past the
    /// end of the line.
    pub open spec fn valid(self, ls: Seq<Seq<char>>) -> bool {
        &&& 1 <= self.y <= ls.len()
        &&& 1 <= self.x <= len_at(ls, self.y as int) + 1
    }

    /// The cached offset is the one for width `w`; before any width is known
    /// it is zero.
    pub open spec fn synced(self, ls: Seq<Seq<char>>, w: int) -> bool {
        if w >= 1 {
            self.y_offset == wrap_before(ls, self.y - 1, w)
        } else {
            self.y_offset == 0
        }
    }

    /// Row-major order: `self` comes strictly before `other`.
    pub open spec fn precedes(self, other: Cursor) -> bool {
        self.y < other.y || (self.y == other.y && self.x < other.x)
    }

    /// The screen row that the cursor falls on at width `w`, counting every
    /// wrapped row from the top of the document.
    pub open spec fn screen_row(self, w: int) -> int {
        self.y + (self.x - 1) / w + self.y_offset
    }

    /// The start of the document.
    pub fn origin() -> (r: Cursor)
        ensures
            r.x == 1 && r.y == 1 && r.offset() == 0,
    {
        Cursor { x: 1, y: 1, y_offset: 0 }
    }

    /// Whether `self` comes strictly before `other`.
    pub fn is_before(&self, other: &Cursor) -> (r: bool)
        ensures
            r == self.precedes(*other),
    {
        self.y < other.y || (self.y == other.y && self.x < other.x)
    }

    fn curr_len(&self, lines: &Vec<String>) -> (r: i32)
        requires
            1 <= self.y <= lines@.len(),
            text_size(lines_view(lines@)) <= MAX_TEXT,
        ensures
            r == len_at(lines_view(lines@), self.y as int),
    {
        let ghost ls = lines_view(lines@);
        proof {
            lemma_row_bound(ls, self.y as int, 1);
        }
        char_len(&lines[(self.y - 1) as usize]) as i32
    }

    fn move_left(&mut self, dim: (i32, i32), lines: &Vec<String>)
        requires
            dim.0 >= 1,
            text_size(lines_view(lines@)) <= MAX_TEXT,
            old(self).valid(lines_view(lines@)),
            old(self).synced(lines_view(lines@), dim.0 as int),
        ensures
            final(self).valid(lines_view(lines@)),
            final(self).synced(lines_view(lines@), dim.0 as int),
            (final(self).x as int, final(self).y as int) == left_pos(
                lines_view(lines@),
                old(self).x as int,
                old(self).y as int,
            ),
    {
        if self.x > 1 {
            self.x = self.x - 1;
        } else if self.y > 1 {
            self.move_up(dim, lines);
            proof {
                lemma_row_bound(lines_view(lines@), self.y as int, 1);
            }
            self.x = self.curr_len(lines) + 1;
        }
    }

    fn move_right(&mut self, dim: (i32, i32), lines: &Vec<String>)
        requires
            dim.0 >= 1,
            text_size(lines_view(lines@)) <= MAX_TEXT,
            old(self).valid(lines_view(lines@)),
            old(self).synced(lines_view(lines@), dim.0 as int),
        ensures
            final(self).valid(lines_view(lines@)),
            final(self).synced(lines_view(lines@), dim.0 as int),
            (final(self).x as int, final(self).y as int) == right_pos(
                lines_view(lines@),
                old(self).x as int,
                old(self).y as int,
            ),
    {
        let ghost ls = lines_view(lines@);
        proof {
            lemma_row_bound(ls, self.y as int, 1);
        }
        if self.x <= self.curr_len(lines) {
            self.x = self.x + 1;
        } else if self.y < lines.len() as i32 {
            self.move_down(dim, lines);
            self.x = 1;
        }
    }

    fn move_up(&mut self, dim: (i32, i32), lines: &Vec<String>)
        requires
            dim.0 >= 1,
            text_size(lines_view(lines@)) <= MAX_TEXT,
            old(self).valid(lines_view(lines@)),
            old(self).synced(lines_view(lines@), dim.0 as int),
        ensures
            final(self).valid(lines_view(lines@)),
            final(self).synced(lines_view(lines@), dim.0 as int),
            (final(self).x as int, final(self).y as int) == up_pos(
                lines_view(lines@),
                old(self).x as int,
                old(self).y as int,
                dim.0 as int,
            ),
    {
        let ghost ls = lines_view(lines@);
        let w = dim.0;
        if self.x > w {
            self.x = self.x - w;
        } else if self.y > 1 {
            self.y = self.y - 1;
            let line_len = self.curr_len(lines);
            let extra = line_len / w;
            proof {
                lemma_row_bound(ls, self.y as int, w as int);
                lemma_floor(line_len as int, w as int);
            }
            self.y_offset = self.y_offset - extra;
            let moved: i64 = self.x as i64 + (extra * w) as i64;
            if moved > line_len as i64 + 1 {
                self.x = line_len + 1;
            } else {
                self.x = moved as i32;
            }
        }
    }

    fn move_down(&mut self, dim: (i32, i32), lines: &Vec<String>)
        requires
            dim.0 >= 1,
            text_size(lines_view(lines@)) <= MAX_TEXT,
            old(self).valid(lines_view(lines@)),
            old(self).synced(lines_view(lines@), dim.0 as int),
        ensures
            final(self).valid(lines_view(lines@)),
            final(self).synced(lines_view(lines@), dim.0 as int),
            (final(self).x as int, final(self).y as int) == down_pos(
                lines_view(lines@),
                old(self).x as int,
                old(self).y as int,
                dim.0 as int,
            ),
    {
        let ghost ls = lines_view(lines@);
        let w = dim.0;
        let len = self.curr_len(lines);
        proof {
            lemma_row_bound(ls, self.y as int, w as int);
            lemma_div_is_ordered(self.x - 1, len as int, w as int);
            lemma_div_pos_is_pos(self.x - 1, w as int);
        }
        if (self.x - 1) / w < len / w {
            let moved: i64 = self.x as i64 + w as i64;
            if moved > len as i64 + 1 {
                self.x = len + 1;
            } else {
                self.x = moved as i32;
            }
        } else if self.y < lines.len() as i32 {
            let rows = (self.x - 1) / w;
            proof {
                lemma_floor(self.x - 1, w as int);
                assert(rows == len / w);
                lemma_row_bound(ls, self.y + 1, w as int);
            }
            self.y = self.y + 1;
            self.x = self.x - rows * w;
            self.y_offset = self.y_offset + rows;
            let next = self.curr_len(lines);
            if self.x > next + 1 {
                self.x = next + 1;
            }
        }
    }

    fn move_home(&mut self, dim: (i32, i32), lines: &Vec<String>, indent_size: u8)
        requires
            dim.0 >= 1,
            indent_size >= 1,
            text_size(lines_view(lines@)) <= MAX_TEXT,
            old(self).valid(lines_view(lines@)),
        ensures
            final(self).valid(lines_view(lines@)),
            final(self).y == old(self).y,
            final(self).offset() == old(self).offset(),
            final(self).x as int == home_x(
                lines_view(lines@),
                old(self).x as int,
                old(self).y as int,
                dim.0 as int,
                indent_size as int,
            ),
    {
        let ghost ls = lines_view(lines@);
        let w = dim.0;
        proof {
            lemma_row_bound(ls, self.y as int, w as int);
        }
        if self.x <= w {
            let line = &lines[(self.y - 1) as usize];
            assert(line@ == ls[self.y - 1]);
            if let Some(s) = line.indent_end(indent_size) {
                if self.x != s + 1 {
                    self.x = s + 1;
                } else {
                    self.x = 1;
                }
            } else {
                self.x = 1;
            }
        } else {
            let rows = (self.x - 1) / w;
            proof {
                lemma_floor(self.x - 1, w as int);
            }
            self.x = rows * w + 1;
        }
    }

    fn move_end(&mut self, dim: (i32, i32), lines: &Vec<String>)
        requires
            dim.0 >= 1,
            text_size(lines_view(lines@)) <= MAX_TEXT,
            old(self).valid(lines_view(lines@)),
        ensures
            final(self).valid(lines_view(lines@)),
            final(self).y == old(self).y,
            final(self).offset() == old(self).offset(),
            final(self).x as int == end_x(
                lines_view(lines@),
                old(self).x as int,
                old(self).y as int,
                dim.0 as int,
            ),
    {
        let ghost ls = lines_view(lines@);
        let w = dim.0;
        let len = self.curr_len(lines);
        let rows = (self.x - 1) / w;
        proof {
            lemma_row_bound(ls, self.y as int, 1);
            lemma_floor(self.x - 1, w as int);
            assert((rows + 1) * w <= 0x8000_0000int * 0x8000_0000int) by (nonlinear_arith)
                requires
                    0 <= rows < 0x8000_0000int,
                    1 <= w <= 0x8000_0000int,
            ;
            assert((rows + 1) * w >= 1) by (nonlinear_arith)
                requires
                    0 <= rows,
                    1 <= w,
            ;
        }
        let end: i64 = (rows as i64 + 1) * (w as i64);
        if end > len as i64 + 1 {
            self.x = len + 1;
        } else {
            self.x = end as i32;
        }
    }

    /// This cursor on screen, at width `dim.0`: its column within its screen
    /// row, and its screen row counted from the top of the document.
    fn project(&self, dim: (i32, i32), ls: Ghost<Seq<Seq<char>>>) -> (r: Cursor)
        requires
            dim.0 >= 1,
            text_size(ls@) <= MAX_TEXT,
            self.valid(ls@),
            0 <= self.y_offset,
            self.y + self.y_offset + len_at(ls@, self.y as int) <= text_size(ls@),
        ensures
            r.x == (self.x - 1) % (dim.0 as int) + 1,
            r.y == self.screen_row(dim.0 as int),
            r.y_offset == 0,
    {
        proof {
            lemma_floor(self.x - 1, dim.0 as int);
        }
        Cursor {
            x: (self.x - 1) % dim.0 + 1,
            y: self.y + (self.x - 1) / dim.0 + self.y_offset,
            y_offset: 0,
        }
    }

    fn recompute_offset(&mut self, dim: (i32, i32), lines: &Vec<String>)
        requires
            dim.0 >= 1,
            text_size(lines_view(lines@)) <= MAX_TEXT,
            old(self).valid(lines_view(lines@)),
        ensures
            final(self).x == old(self).x,
            final(self).y == old(self).y,
            final(self).synced(lines_view(lines@), dim.0 as int),
    {
        let ghost ls = lines_view(lines@);
        let w = dim.0;
        let mut total: i32 = 0;
        let mut i: i32 = 0;
        proof {
            lemma_row_bound(ls, self.y as int, w as int);
        }
        while i < self.y - 1
            invariant
                0 <= i <= self.y - 1,
                self.valid(ls),
                ls == lines_view(lines@),
                text_size(ls) <= MAX_TEXT,
                w >= 1,
                total == wrap_before(ls, i as int, w as int),
            decreases self.y - 1 - i,
        {
            proof {
                lemma_wrap_bound(ls, i + 1, w as int);
                lemma_text_size_mono(ls, i + 1);
                lemma_row_bound(ls, i + 1, w as int);
            }
            let l = char_len(&lines[i as usize]) as i32;
            total = total + l / w;
            i = i + 1;
        }
        self.y_offset = total;
    }
}

/// Screen row of position `(x, y)` at width `w`, counting every wrapped row
/// from the top of the document.
pub open spec fn row_at(ls: Seq<Seq<char>>, x: int, y: int, w: int) -> int {
    y + (x - 1) / w + wrap_before(ls, y - 1, w)
}

/// Position after `n` moves up.
pub open spec fn up_n(ls: Seq<Seq<char>>, x: int, y: int, w: int, n: int) -> (int, int)
    decreases n,
{
    if n <= 0 {
        (x, y)
    } else {
        let p = up_n(ls, x, y, w, n - 1);
        up_pos(ls, p.0, p.1, w)
    }
}

/// Position after `n` moves down.
pub open spec fn down_n(ls: Seq<Seq<char>>, x: int, y: int, w: int, n: int) -> (int, int)
    decreases n,
{
    if n <= 0 {
        (x, y)
    } else {
        let p = down_n(ls, x, y, w, n - 1);
        down_pos(ls, p.0, p.1, w)
    }
}

/// `col` brought into `1..=len + 1`.
pub open spec fn clamp_col(col: int, len: int) -> int {
    if col < 1 {
        1
    } else if col > len + 1 {
        len + 1
    } else {
        col
    }
}

/// Number of decimal digits of `n`.
pub open spec fn digit_count(n: nat) -> int
    decreases n,
{
    if n < 10 {
        1
    } else {
        1 + digit_count(n / 10)
    }
}

pub proof fn lemma_digit_count_bound(n: nat)
    requires
        n >= 1,
    ensures
        1 <= digit_count(n) <= n,
    decreases n,
{
    if n >= 10 {
        lemma_digit_count_bound(n / 10);
    }
}

/// A move down from a row above the last one either lands on a later row or
/// on a later screen row of the same line.
proof fn lemma_down_progress(ls: Seq<Seq<char>>, x: int, y: int, w: int)
    requires
        1 <= y < ls.len(),
        1 <= x <= len_at(ls, y) + 1,
        w >= 1,
    ensures
        ({
            let p = down_pos(ls, x, y, w);
            p.1 == y + 1 || (p.1 == y && (x - 1) / w < (p.0 - 1) / w <= len_at(ls, y) / w)
        }),
{
    let l = len_at(ls, y);
    lemma_div_is_ordered(x - 1, l, w);
    if (x - 1) / w < l / w {
        if x + w <= l + 1 {
            lemma_floor(x - 1, w);
            lemma_floor(x - 1 + w, w);
            lemma_div_is_ordered(x - 1 + w, l, w);
            assert((x - 1 + w) / w == (x - 1) / w + 1) by {
                vstd::arithmetic::div_mod::lemma_div_plus_one(x - 1, w);
            }
        } else {
            lemma_floor(x - 1, w);
        }
    }
}

/// A move down never goes to an earlier screen row, and goes to a later one
/// whenever it moves at all.
pub proof fn lemma_down_row(ls: Seq<Seq<char>>, x: int, y: int, w: int)
    requires
        1 <= y <= ls.len(),
        1 <= x <= len_at(ls, y) + 1,
        w >= 1,
    ensures
        ({
            let p = down_pos(ls, x, y, w);
            &&& row_at(ls, p.0, p.1, w) >= row_at(ls, x, y, w)
            &&& p != (x, y) ==> row_at(ls, p.0, p.1, w) > row_at(ls, x, y, w)
        }),
        0 <= row_at(ls, x, y, w) <= text_size(ls),
{
    let l = len_at(ls, y);
    lemma_row_bound(ls, y, w);
    lemma_floor(x - 1, w);
    lemma_div_is_ordered(x - 1, l, w);
    let p = down_pos(ls, x, y, w);
    if (x - 1) / w < l / w {
        if x + w <= l + 1 {
            vstd::arithmetic::div_mod::lemma_div_plus_one(x - 1, w);
        }
    } else if y < ls.len() {
        lemma_floor(p.0 - 1, w);
        assert(wrap_before(ls, y, w) == wrap_before(ls, y - 1, w) + ls[y - 1].len() as int / w);
    }
}

/// A move up never goes to a later screen row, and goes to an earlier one
/// whenever it moves at all.
pub proof fn lemma_up_row(ls: Seq<Seq<char>>, x: int, y: int, w: int)
    requires
        1 <= y <= ls.len(),
        1 <= x <= len_at(ls, y) + 1,
        w >= 1,
    ensures
        ({
            let p = up_pos(ls, x, y, w);
            &&& row_at(ls, p.0, p.1, w) <= row_at(ls, x, y, w)
            &&& p != (x, y) ==> row_at(ls, p.0, p.1, w) < row_at(ls, x, y, w)
        }),
        0 <= row_at(ls, x, y, w) <= text_size(ls),
{
    lemma_row_bound(ls, y, w);
    lemma_floor(x - 1, w);
    let p = up_pos(ls, x, y, w);
    if x > w {
        lemma_floor(x - 1 - w, w);
        vstd::arithmetic::div_mod::lemma_div_plus_one(x - 1 - w, w);
    } else if y > 1 {
        let l = len_at(ls, y - 1);
        lemma_floor(l, w);
        lemma_floor(p.0 - 1, w);
        lemma_div_is_ordered(p.0 - 1, l, w);
        assert(wrap_before(ls, y - 1, w) == wrap_before(ls, y - 2, w) + ls[y - 2].len() as int / w);
        lemma_wrap_bound(ls, y - 2, w);
    }
}

/// How far into the document `(x, y)` lies, line ends counted.
pub open spec fn offset_in(ls: Seq<Seq<char>>, x: int, y: int) -> int {
    text_size(ls.subrange(0, y - 1)) + x
}

/// A move left never goes forward, and goes back whenever it moves at all.
pub proof fn lemma_left_offset(ls: Seq<Seq<char>>, x: int, y: int)
    requires
        1 <= y <= ls.len(),
        1 <= x <= len_at(ls, y) + 1,
    ensures
        ({
            let p = left_pos(ls, x, y);
            &&& offset_in(ls, p.0, p.1) <= offset_in(ls, x, y)
            &&& p != (x, y) ==> offset_in(ls, p.0, p.1) < offset_in(ls, x, y)
        }),
        0 <= offset_in(ls, x, y) <= text_size(ls) + 1,
{
    lemma_text_size_nonneg(ls.subrange(0, y - 1));
    lemma_text_size_prefix(ls, y - 1);
    lemma_text_size_mono(ls, y);
    if x == 1 && y > 1 {
        lemma_text_size_prefix(ls, y - 2);
        assert(ls.subrange(0, y - 1).subrange(0, y - 2) =~= ls.subrange(0, y - 2));
    }
}

/// A move up from a row below the first either lands on an earlier row or on
/// an earlier screen row of the same line.
proof fn lemma_up_progress(ls: Seq<Seq<char>>, x: int, y: int, w: int)
    requires
        1 < y <= ls.len(),
        1 <= x,
        w >= 1,
    ensures
        ({
            let p = up_pos(ls, x, y, w);
            p.1 == y - 1 || (p.1 == y && 0 <= (p.0 - 1) / w < (x - 1) / w)
        }),
{
    if x > w {
        lemma_floor(x - 1 - w, w);
        vstd::arithmetic::div_mod::lemma_div_plus_one(x - 1 - w, w);
    }
}

pub open spec fn pos_of(c: Cursor) -> (int, int) {
    (c.x as int, c.y as int)
}

pub open spec fn anchor_pos(c: Option<Cursor>) -> Option<(int, int)> {
    match c {
        Some(a) => Some(pos_of(a)),
        None => None,
    }
}

/// The text after typing `c` at `(x, y)`.
pub open spec fn insert_text(ls: Seq<Seq<char>>, x: int, y: int, c: char) -> Seq<Seq<char>> {
    ls.update(y - 1, ls[y - 1].insert(x - 1, c))
}

/// Whether a forward delete at column `x` of `line` removes a whole
/// indentation unit: the caret stands at least one unit inside the
/// indentation.
pub open spec fn in_indent(line: Seq<char>, x: int, iw: int) -> bool {
    indent_end_of(line, iw) is Some && x - 1 <= indent_end_of(line, iw)->0 - iw
}

/// The text after a forward delete at `(x, y)`: at the end of a line the next
/// line is joined to it; inside the indentation one unit goes; otherwise the
/// character under the caret goes.
pub open spec fn delete_text(ls: Seq<Seq<char>>, x: int, y: int, iw: int) -> Seq<Seq<char>> {
    let line = ls[y - 1];
    if x - 1 == line.len() {
        if y < ls.len() {
            ls.update(y - 1, line + ls[y]).remove(y)
        } else {
            ls
        }
    } else if in_indent(line, x, iw) {
        ls.update(y - 1, pop_indent_of(line, iw))
    } else {
        ls.update(y - 1, line.remove(x - 1))
    }
}

/// Where backspace puts the caret before it deletes forward: one unit back
/// where the caret stands on an indentation boundary, one character back
/// otherwise.
pub open spec fn backspace_pos(ls: Seq<Seq<char>>, x: int, y: int, iw: int) -> (int, int) {
    let e = indent_end_of(ls[y - 1], iw);
    if x - 1 - iw >= 0 && e is Some && x - 1 <= e->0 {
        (x - iw, y)
    } else {
        left_pos(ls, x, y)
    }
}

/// Text and caret after one backspace at `(x, y)`.
pub open spec fn backspace_result(ls: Seq<Seq<char>>, x: int, y: int, iw: int) -> (
    Seq<Seq<char>>,
    int,
    int,
) {
    let p = backspace_pos(ls, x, y, iw);
    (delete_text(ls, p.0, p.1, iw), p.0, p.1)
}

/// The later and the earlier of two positions.
pub open spec fn later(a: (int, int), b: (int, int)) -> (int, int) {
    if a.1 < b.1 || (a.1 == b.1 && a.0 < b.0) {
        b
    } else {
        a
    }
}

pub open spec fn earlier(a: (int, int), b: (int, int)) -> (int, int) {
    if a.1 < b.1 || (a.1 == b.1 && a.0 < b.0) {
        a
    } else {
        b
    }
}

/// The text with the span from `start` up to `end` removed: what comes
/// before `start` on its line joined to what comes from `end` on on its line.
pub open spec fn erase_span(ls: Seq<Seq<char>>, start: (int, int), end: (int, int)) -> Seq<
    Seq<char>,
> {
    let first = ls[start.1 - 1];
    let last = ls[end.1 - 1];
    let joined = first.subrange(0, start.0 - 1) + last.subrange(end.0 - 1, last.len() as int);
    ls.subrange(0, start.1 - 1).push(joined) + ls.subrange(end.1, ls.len() as int)
}

/// Text and caret after the selection between `caret` and `anchor` is
/// erased: the span between its ends goes and the caret stands at the
/// earlier end.
pub open spec fn erase_selection(ls: Seq<Seq<char>>, caret: (int, int), anchor: (int, int)) -> (
    Seq<Seq<char>>,
    int,
    int,
) {
    let start = earlier(anchor, caret);
    let end = later(anchor, caret);
    (erase_span(ls, start, end), start.0, start.1)
}

/// Erasing a span never makes a text larger.
pub proof fn lemma_erase_span_size(ls: Seq<Seq<char>>, start: (int, int), end: (int, int))
    requires
        1 <= start.1 <= end.1 <= ls.len(),
        1 <= start.0 <= len_at(ls, start.1) + 1,
        1 <= end.0 <= len_at(ls, end.1) + 1,
        start.1 == end.1 ==> start.0 <= end.0,
    ensures
        text_size(erase_span(ls, start, end)) <= text_size(ls),
        erase_span(ls, start, end).len() == ls.len() - (end.1 - start.1),
{
    let (sy, ey) = (start.1 - 1, end.1 - 1);
    let first = ls[sy];
    let last = ls[ey];
    let joined = first.subrange(0, start.0 - 1) + last.subrange(end.0 - 1, last.len() as int);
    let pre = ls.subrange(0, sy);
    let mid = ls.subrange(sy, ey + 1);
    let post = ls.subrange(ey + 1, ls.len() as int);
    assert(ls =~= pre + mid + post);
    assert(erase_span(ls, start, end) =~= pre + seq![joined] + post);
    lemma_text_size_concat(pre + mid, post);
    lemma_text_size_concat(pre, mid);
    lemma_text_size_concat(pre + seq![joined], post);
    lemma_text_size_concat(pre, seq![joined]);
    lemma_text_size_one(joined);
    if sy < ey {
        let inner = ls.subrange(sy + 1, ey);
        assert(mid =~= seq![first] + inner + seq![last]);
        lemma_text_size_concat(seq![first] + inner, seq![last]);
        lemma_text_size_concat(seq![first], inner);
        lemma_text_size_one(first);
        lemma_text_size_one(last);
        lemma_text_size_nonneg(inner);
    } else {
        assert(mid =~= seq![first]);
        lemma_text_size_one(first);
    }
}

pub proof fn lemma_text_size_concat(a: Seq<Seq<char>>, b: Seq<Seq<char>>)
    ensures
        text_size(a + b) == text_size(a) + text_size(b),
    decreases b.len(),
{
    if b.len() > 0 {
        assert((a + b).drop_last() =~= a + b.drop_last());
        lemma_text_size_concat(a, b.drop_last());
    } else {
        assert(a + b =~= a);
    }
}

pub proof fn lemma_text_size_one(s: Seq<char>)
    ensures
        text_size(seq![s]) == s.len() + 1,
{
    assert(seq![s].drop_last() =~= Seq::<Seq<char>>::empty());
    assert(seq![s].last() == s);
    assert(text_size(Seq::<Seq<char>>::empty()) == 0);
}

pub proof fn lemma_text_size_update(ls: Seq<Seq<char>>, i: int, s: Seq<char>)
    requires
        0 <= i < ls.len(),
    ensures
        text_size(ls.update(i, s)) == text_size(ls) - ls[i].len() + s.len(),
{
    let a = ls.subrange(0, i);
    let b = ls.subrange(i + 1, ls.len() as int);
    assert(ls =~= a + seq![ls[i]] + b);
    assert(ls.update(i, s) =~= a + seq![s] + b);
    lemma_text_size_concat(a + seq![ls[i]], b);
    lemma_text_size_concat(a, seq![ls[i]]);
    lemma_text_size_concat(a + seq![s], b);
    lemma_text_size_concat(a, seq![s]);
    lemma_text_size_one(s);
    lemma_text_size_one(ls[i]);
}

pub proof fn lemma_text_size_insert(ls: Seq<Seq<char>>, i: int, s: Seq<char>)
    requires
        0 <= i <= ls.len(),
    ensures
        text_size(ls.insert(i, s)) == text_size(ls) + s.len() + 1,
{
    let a = ls.subrange(0, i);
    let b = ls.subrange(i, ls.len() as int);
    assert(ls =~= a + b);
    assert(ls.insert(i, s) =~= a + seq![s] + b);
    lemma_text_size_concat(a, b);
    lemma_text_size_concat(a + seq![s], b);
    lemma_text_size_concat(a, seq![s]);
    lemma_text_size_one(s);
}

pub proof fn lemma_text_size_remove(ls: Seq<Seq<char>>, i: int)
    requires
        0 <= i < ls.len(),
    ensures
        text_size(ls.remove(i)) == text_size(ls) - ls[i].len() - 1,
{
    let a = ls.subrange(0, i);
    let b = ls.subrange(i + 1, ls.len() as int);
    assert(ls =~= a + seq![ls[i]] + b);
    assert(ls.remove(i) =~= a + b);
    lemma_text_size_concat(a + seq![ls[i]], b);
    lemma_text_size_concat(a, seq![ls[i]]);
    lemma_text_size_concat(a, b);
    lemma_text_size_one(ls[i]);
}

/// Wrap offsets depend only on the lines before the cursor.
pub proof fn lemma_wrap_prefix(a: Seq<Seq<char>>, b: Seq<Seq<char>>, n: int, w: int)
    requires
        0 <= n <= a.len(),
        n <= b.len(),
        forall|i: int| 0 <= i < n ==> a[i] == b[i],
    ensures
        wrap_before(a, n, w) == wrap_before(b, n, w),
    decreases n,
{
    if n > 0 {
        lemma_wrap_prefix(a, b, n - 1, w);
    }
}

/// Spaces carried onto a new line: the indentation end of the text before
/// the caret, where auto-indent is on.
pub open spec fn carried_indent(before: Seq<char>, iw: int, indent: bool) -> int {
    if indent && indent_end_of(before, iw) is Some {
        indent_end_of(before, iw)->0
    } else {
        0
    }
}

/// The text after a line break at `(x, y)`, carrying `n` spaces of
/// indentation onto the new line.
pub open spec fn newline_text(ls: Seq<Seq<char>>, x: int, y: int, n: int) -> Seq<Seq<char>> {
    let line = ls[y - 1];
    ls.update(y - 1, line.subrange(0, x - 1)).insert(
        y,
        repeat(' ', n as nat) + line.subrange(x - 1, line.len() as int),
    )
}

/// Lines `a` to `b` (counted from 0) joined by line breaks.
pub open spec fn rows_joined(ls: Seq<Seq<char>>, a: int, b: int) -> Seq<char>
    decreases b - a,
{
    if b <= a {
        ls[a]
    } else {
        rows_joined(ls, a, b - 1) + seq!['\n'] + ls[b]
    }
}

/// The text from `start` up to `end`, line breaks included.
pub open spec fn span_text(ls: Seq<Seq<char>>, start: (int, int), end: (int, int)) -> Seq<char> {
    let full = rows_joined(ls, start.1 - 1, end.1 - 1);
    full.subrange(start.0 - 1, full.len() - (len_at(ls, end.1) - (end.0 - 1)))
}

proof fn lemma_rows_joined_len(ls: Seq<Seq<char>>, a: int, b: int)
    requires
        0 <= a <= b < ls.len(),
    ensures
        rows_joined(ls, a, b).len() >= ls[a].len(),
        rows_joined(ls, a, b).len() >= ls[b].len(),
        rows_joined(ls, a, b).len() <= text_size(ls),
    decreases b - a,
{
    if b > a {
        lemma_rows_joined_len(ls, a, b - 1);
        lemma_rows_joined_size(ls, a, b);
    } else {
        lemma_row_bound(ls, a + 1, 1);
    }
}

proof fn lemma_rows_joined_size(ls: Seq<Seq<char>>, a: int, b: int)
    requires
        0 <= a <= b < ls.len(),
    ensures
        rows_joined(ls, a, b).len() + 1 <= text_size(ls.subrange(0, b + 1)),
        text_size(ls.subrange(0, b + 1)) <= text_size(ls),
    decreases b - a,
{
    lemma_text_size_prefix(ls, b);
    if b > a {
        lemma_rows_joined_size(ls, a, b - 1);
    } else {
        lemma_text_size_nonneg(ls.subrange(0, b));
    }
    lemma_text_size_mono(ls, b + 1);
}

/// The pieces of one screen row: its text `seg`, which starts at column
/// `o + 1` of line `i` (counted from 0), split where the selection from
/// `start` to `end` begins and ends. Selected text is black on white; a
/// selection that runs on past the end of the line shows one extra selected
/// space, except on a row that the line continues after.
pub open spec fn chunks_of(
    sel: Option<((int, int), (int, int))>,
    i: int,
    seg: Seq<char>,
    o: int,
    partial: bool,
) -> Seq<(Seq<char>, Color, Color)> {
    match sel {
        Some((start, end)) => {
            let (sx, sy, ex, ey) = (start.0 - 1, start.1 - 1, end.0 - 1, end.1 - 1);
            if sy <= i && i <= ey {
                let cut_tail = i == ey && o + seg.len() >= ex;
                let b = if cut_tail {
                    ex - min(ex, o)
                } else {
                    seg.len() as int
                };
                let body = if cut_tail {
                    seg.subrange(0, b)
                } else if !partial {
                    seg.push(' ')
                } else {
                    seg
                };
                let cut_head = i == sy && o < sx;
                let a = if cut_head {
                    min(body.len() as int, sx - o)
                } else {
                    0
                };
                (if cut_head {
                    seq![(body.subrange(0, a), Color::Reset, Color::Reset)]
                } else {
                    Seq::empty()
                }) + seq![(body.subrange(a, body.len() as int), Color::Black, Color::White)] + (
                if cut_tail {
                    seq![(seg.subrange(b, seg.len() as int), Color::Reset, Color::Reset)]
                } else {
                    Seq::empty()
                })
            } else {
                seq![(seg, Color::Reset, Color::Reset)]
            }
        },
        None => seq![(seg, Color::Reset, Color::Reset)],
    }
}

/// The text of a row's pieces, joined.
pub open spec fn joined_pieces(cs: Seq<(Seq<char>, Color, Color)>) -> Seq<char>
    decreases cs.len(),
{
    if cs.len() == 0 {
        Seq::empty()
    } else {
        joined_pieces(cs.drop_last()) + cs.last().0
    }
}

/// The text of a row's highlighted pieces, joined.
pub open spec fn highlighted(cs: Seq<(Seq<char>, Color, Color)>) -> Seq<char>
    decreases cs.len(),
{
    if cs.len() == 0 {
        Seq::empty()
    } else {
        highlighted(cs.drop_last()) + if cs.last().1 == Color::Black {
            cs.last().0
        } else {
            Seq::empty()
        }
    }
}

/// The columns, within row text `seg` starting at column `o + 1` of line
/// `i`, that lie between the selection's ends: from the start where this
/// is its line, from the row's start otherwise, up to the end likewise.
pub open spec fn selected_range(
    start: (int, int),
    end: (int, int),
    i: int,
    seg: Seq<char>,
    o: int,
) -> (int, int) {
    let len = seg.len() as int;
    let lo = if i == start.1 - 1 {
        min(if start.0 - 1 - o > 0 { start.0 - 1 - o } else { 0 }, len)
    } else {
        0
    };
    let hi = if i == end.1 - 1 {
        min(if end.0 - 1 - o > 0 { end.0 - 1 - o } else { 0 }, len)
    } else {
        len
    };
    (lo, hi)
}

/// What a row's pieces show, stated directly: together they are the row's
/// text, with one more space where the selection runs on past the end of
/// the line on the line's last row; the highlighted part is exactly the
/// columns between the selection's ends (and that space); outside the
/// selection's lines nothing is highlighted. (On the last row of a line,
/// which ends where the line does, the selection's start lies within it.)
pub proof fn lemma_chunks_direct(
    start: (int, int),
    end: (int, int),
    i: int,
    seg: Seq<char>,
    o: int,
    partial: bool,
)
    requires
        1 <= start.0 && 1 <= start.1,
        start.1 < end.1 || (start.1 == end.1 && start.0 <= end.0),
        0 <= o,
        i == start.1 - 1 && !partial ==> start.0 - 1 <= o + seg.len(),
    ensures
        ({
            let cs = chunks_of(Some((start, end)), i, seg, o, partial);
            let in_rows = start.1 - 1 <= i && i <= end.1 - 1;
            let runs_on = in_rows && !(i == end.1 - 1 && o + seg.len() >= end.0 - 1) && !partial;
            let space = if runs_on {
                seq![' ']
            } else {
                Seq::empty()
            };
            let (lo, hi) = selected_range(start, end, i, seg, o);
            &&& joined_pieces(cs) == seg + space
            &&& in_rows ==> lo <= hi && highlighted(cs) == seg.subrange(lo, hi) + space
            &&& !in_rows ==> highlighted(cs) == Seq::<char>::empty()
        }),
{
    reveal_with_fuel(joined_pieces, 4);
    reveal_with_fuel(highlighted, 4);
    let cs = chunks_of(Some((start, end)), i, seg, o, partial);
    let len = seg.len() as int;
    let (sx, sy, ex, ey) = (start.0 - 1, start.1 - 1, end.0 - 1, end.1 - 1);
    if sy <= i && i <= ey {
        let cut_tail = i == ey && o + len >= ex;
        let b = if cut_tail {
            ex - min(ex, o)
        } else {
            len
        };
        let body = if cut_tail {
            seg.subrange(0, b)
        } else if !partial {
            seg.push(' ')
        } else {
            seg
        };
        let cut_head = i == sy && o < sx;
        let a = if cut_head {
            min(body.len() as int, sx - o)
        } else {
            0
        };
        let pre = if cut_head {
            seq![(body.subrange(0, a), Color::Reset, Color::Reset)]
        } else {
            Seq::empty()
        };
        let mid = seq![(body.subrange(a, body.len() as int), Color::Black, Color::White)];
        let post = if cut_tail {
            seq![(seg.subrange(b, len), Color::Reset, Color::Reset)]
        } else {
            Seq::empty()
        };
        assert(cs == pre + mid + post);
        if cut_head {
            if cut_tail {
                assert((pre + mid + post).drop_last() =~= pre + mid);
                assert((pre + mid).drop_last() =~= pre);
                assert(pre.drop_last() =~= Seq::<(Seq<char>, Color, Color)>::empty());
            } else {
                assert((pre + mid + post) =~= pre + mid);
                assert((pre + mid).drop_last() =~= pre);
                assert(pre.drop_last() =~= Seq::<(Seq<char>, Color, Color)>::empty());
            }
        } else {
            if cut_tail {
                assert((pre + mid + post) =~= mid + post);
                assert((mid + post).drop_last() =~= mid);
                assert(mid.drop_last() =~= Seq::<(Seq<char>, Color, Color)>::empty());
            } else {
                assert((pre + mid + post) =~= mid);
                assert(mid.drop_last() =~= Seq::<(Seq<char>, Color, Color)>::empty());
            }
        }
        let (lo, hi) = selected_range(start, end, i, seg, o);
        assert(body.subrange(0, a) + body.subrange(a, body.len() as int) =~= body);
        if cut_tail {
            assert(seg.subrange(0, b) + seg.subrange(b, len) =~= seg);
            assert(body.subrange(a, body.len() as int) =~= seg.subrange(lo, hi));
        } else if !partial {
            assert(body.subrange(a, body.len() as int) =~= seg.subrange(lo, hi).push(' '));
            assert(seg.subrange(lo, hi).push(' ') =~= seg.subrange(lo, hi) + seq![' ']);
            assert(seg.push(' ') =~= seg + seq![' ']);
        } else {
            assert(body.subrange(a, body.len() as int) =~= seg.subrange(lo, hi));
        }
    } else {
        assert(cs.drop_last() =~= Seq::<(Seq<char>, Color, Color)>::empty());
    }
}

/// Number of screen rows that a line of `len` characters takes at width `w`:
/// its first row and the `len / w` extra rows that the wrap offsets count. A
/// line of a multiple of `w` characters ends on an empty row, where the
/// caret stands after its last character.
pub open spec fn segment_count(len: int, w: int) -> int {
    len / w + 1
}

/// The screen rows of line `i` (counted from 0): the first carries the line
/// number.
pub open spec fn line_rows(
    sel: Option<((int, int), (int, int))>,
    ls: Seq<Seq<char>>,
    i: int,
    w: int,
) -> Seq<(Option<u16>, Seq<(Seq<char>, Color, Color)>)> {
    let line = ls[i];
    let len = line.len() as int;
    Seq::new(
        segment_count(len, w) as nat,
        |k: int|
            (
                if k == 0 {
                    Some(i as u16)
                } else {
                    None
                },
                chunks_of(
                    sel,
                    i,
                    line.subrange(k * w, min((k + 1) * w, len)),
                    k * w,
                    k + 1 < segment_count(len, w),
                ),
            ),
    )
}

/// The screen rows of lines `from` up to, not including, `to`.
pub open spec fn rows_between(
    sel: Option<((int, int), (int, int))>,
    ls: Seq<Seq<char>>,
    from: int,
    to: int,
    w: int,
) -> Seq<(Option<u16>, Seq<(Seq<char>, Color, Color)>)>
    decreases to - from,
{
    if to <= from {
        Seq::empty()
    } else {
        rows_between(sel, ls, from, to - 1, w) + line_rows(sel, ls, to - 1, w)
    }
}

/// The part of `s` from index `from` up to `to`, cut short where `s` is.
pub open spec fn clip<T>(s: Seq<T>, from: int, to: int) -> Seq<T> {
    let hi = min(to, s.len() as int);
    let lo = min(from, hi);
    s.subrange(lo, hi)
}

pub open spec fn chunk_view(c: TextChunk) -> (Seq<char>, Color, Color) {
    (c.contents@, c.foreground, c.background)
}

pub open spec fn row_view(r: (Option<u16>, Vec<TextChunk>)) -> (
    Option<u16>,
    Seq<(Seq<char>, Color, Color)>,
) {
    (r.0, r.1@.map_values(|c: TextChunk| chunk_view(c)))
}

proof fn lemma_segment_start(len: int, w: int, k: int)
    requires
        0 <= len,
        w >= 1,
        0 <= k < segment_count(len, w),
    ensures
        0 <= k * w <= len,
        segment_count(len, w) <= len + 1,
{
    lemma_floor(len, w);
    assert(0 <= k * w <= (len / w) * w) by (nonlinear_arith)
        requires
            0 <= k <= len / w,
            w >= 1,
    ;
}

/// The rendered rows agree with the wrap projection: lines `from` up to
/// `to` take one row each and the extra rows that the wrap offsets count, so
/// the first row of line `to` comes exactly as many rows after the first row
/// of line `from` as their projected screen rows differ.
pub proof fn lemma_rows_match_projection(
    sel: Option<((int, int), (int, int))>,
    ls: Seq<Seq<char>>,
    from: int,
    to: int,
    w: int,
)
    requires
        0 <= from <= to <= ls.len(),
        w >= 1,
    ensures
        rows_between(sel, ls, from, to, w).len() == row_at(ls, 1, to + 1, w) - row_at(
            ls,
            1,
            from + 1,
            w,
        ),
    decreases to - from,
{
    if to > from {
        lemma_rows_match_projection(sel, ls, from, to - 1, w);
        lemma_floor(0, w);
    } else {
        lemma_floor(0, w);
    }
}

proof fn lemma_rows_between_split(
    sel: Option<((int, int), (int, int))>,
    ls: Seq<Seq<char>>,
    from: int,
    mid: int,
    to: int,
    w: int,
)
    requires
        from <= mid <= to,
    ensures
        rows_between(sel, ls, from, to, w) == rows_between(sel, ls, from, mid, w) + rows_between(
            sel,
            ls,
            mid,
            to,
            w,
        ),
    decreases to - mid,
{
    if to > mid {
        lemma_rows_between_split(sel, ls, from, mid, to - 1, w);
        assert(rows_between(sel, ls, from, to, w) =~= rows_between(sel, ls, from, mid, w)
            + rows_between(sel, ls, mid, to, w));
    } else {
        assert(rows_between(sel, ls, from, to, w) =~= rows_between(sel, ls, from, mid, w)
            + rows_between(sel, ls, mid, to, w));
    }
}

/// A cursor as the status line shows it: `(x, y, o=offset)`.
pub open spec fn cursor_text(c: Cursor) -> Seq<char> {
    "("@ + int_text(c.x as int) + ", "@ + int_text(c.y as int) + ", o="@ + int_text(
        c.y_offset as int,
    ) + ")"@
}

fn push_cursor(s: &mut String, c: &Cursor)
    ensures
        final(s)@ == old(s)@ + cursor_text(*c),
{
    s.append("(");
    push_int(s, c.x as i64);
    s.append(", ");
    push_int(s, c.y as i64);
    s.append(", o=");
    push_int(s, c.y_offset as i64);
    s.append(")");
    assert(s@ =~= old(s)@ + cursor_text(*c));
}

/// Every movement, at every width of at least one, lands on a row of the
/// document and on a column from 1 to one past the end of that row's line.
pub proof fn lemma_moves_stay_in_text(ls: Seq<Seq<char>>, x: int, y: int, w: int, iw: int)
    requires
        1 <= y <= ls.len(),
        1 <= x <= len_at(ls, y) + 1,
        w >= 1,
        iw >= 1,
    ensures
        ({
            let ok = |p: (int, int)| 1 <= p.1 <= ls.len() && 1 <= p.0 <= len_at(ls, p.1) + 1;
            &&& ok(left_pos(ls, x, y))
            &&& ok(right_pos(ls, x, y))
            &&& ok(up_pos(ls, x, y, w))
            &&& ok(down_pos(ls, x, y, w))
            &&& ok((home_x(ls, x, y, w, iw), y))
            &&& ok((end_x(ls, x, y, w), y))
        }),
{
    lemma_floor(x - 1, w);
    lemma_indent_end_facts(ls[y - 1], iw);
    if y > 1 {
        lemma_floor(len_at(ls, y - 1), w);
    }
    assert(((x - 1) / w + 1) * w >= 1) by (nonlinear_arith)
        requires
            (x - 1) / w >= 0,
            w >= 1,
    ;
}

/// Selecting forward from one position to another and backward from the
/// second to the first select the same text.
pub proof fn lemma_selection_symmetric(f: File, g: File)
    requires
        f.text() == g.text(),
        f.selection_start is Some,
        g.selection_start is Some,
        pos_of(f.selection_start->0) == pos_of(g.caret),
        pos_of(g.selection_start->0) == pos_of(f.caret),
    ensures
        f.selection_text() == g.selection_text(),
{
}

/// Selecting, moving and deselecting keep the document: each leaves the
/// text as it found it, so the text after a deselect is the text before the
/// select.
pub proof fn lemma_select_deselect_keeps_text(f0: File, f1: File, f2: File)
    requires
        f1.same_document(&f0),
        f2.same_document(&f1),
    ensures
        f2.lines@ == f0.lines@,
        f2.text() == f0.text(),
{
}

/// Deleting, backspacing and typing in a one-line document keep it one
/// line.
pub proof fn lemma_edits_keep_one_line(f: File, g: File, c: char)
    requires
        f.wf(),
        f.text().len() == 1,
    ensures
        f.cleared().0.len() == 1 && f.cleared().2 == 1,
        g.after_delete(&f) ==> g.text().len() == 1,
        g.after_backspace(&f) ==> g.text().len() == 1,
        g.after_insert(&f, c) ==> g.text().len() == 1,
{
    let ls = f.text();
    if f.selection_start is Some {
        let a = f.selection_start->0;
        let end = later(pos_of(a), pos_of(f.caret));
        let start = earlier(pos_of(a), pos_of(f.caret));
        lemma_erase_span_size(ls, start, end);
    }
}

/// Opening a text that ends in a line feed and holds no carriage return
/// before a line feed, then saving it with no trimming, line feeds and a
/// final line feed, writes the same text back.
pub proof fn lemma_open_save_round_trip(f: File, t: Seq<char>)
    requires
        f.text() == File::opened_lines(t),
        t.len() > 0,
        t.last() == '\n',
        crate::document::no_crlf(t),
        f.config.end_of_line is Lf,
        !f.config.trim_trailing_whitespace,
        f.config.insert_final_newline,
    ensures
        saved_text(f.text(), seq!['\n'], false, true) == t,
{
    crate::document::lemma_read_save_round_trip(t);
}

/// Whether lines of this size fit in a document.
pub fn fits(lines: &Vec<String>) -> (r: bool)
    ensures
        r == (text_size(lines_view(lines@)) <= MAX_TEXT),
{
    let ghost ls = lines_view(lines@);
    let mut total: usize = 0;
    let mut i: usize = 0;
    while i < lines.len()
        invariant
            i <= lines@.len(),
            ls == lines_view(lines@),
            total == text_size(ls.subrange(0, i as int)),
            total <= MAX_TEXT,
        decreases lines@.len() - i,
    {
        let l = char_len(&lines[i]);
        proof {
            lemma_text_size_prefix(ls, i as int);
            lemma_text_size_mono(ls, i + 1);
        }
        if l > MAX_TEXT as usize || total + l + 1 > MAX_TEXT as usize {
            proof {
                lemma_text_size_nonneg(ls.subrange(0, i as int));
            }
            return false;
        }
        total = total + l + 1;
        i = i + 1;
    }
    assert(ls.subrange(0, i as int) =~= ls);
    true
}

/// A piece of a screen row, drawn in one pair of colours.
pub struct TextChunk {
    pub contents: String,
    pub background: Color,
    pub foreground: Color,
}

/// An open document.
pub struct File {
    pub name: String,
    pub lines: Vec<String>,
    pub caret: Cursor,
    /// The other end of the selection, while there is one.
    pub selection_start: Option<Cursor>,
    /// Set by `select` so that the next movement extends the selection.
    pub selecting: bool,
    /// The first visible position.
    pub window_top: Cursor,
    /// The viewport size that the cached offsets were computed for.
    pub last_dim: (i32, i32),
    pub misc: String,
    pub display_dirty: bool,
    pub contents_dirty: bool,
    pub config: Config,
}

impl File {
    pub open spec fn text(&self) -> Seq<Seq<char>> {
        lines_view(self.lines@)
    }

    pub open spec fn width(&self) -> int {
        self.last_dim.0 as int
    }

    /// Width of one indentation unit.
    pub open spec fn iw(&self) -> int {
        self.config.indent_width()
    }

    pub open spec fn cursor_ok(&self, c: Cursor) -> bool {
        c.valid(self.text()) && c.synced(self.text(), self.width())
    }

    /// At least one line, a bounded size, and every cursor inside the text
    /// with its offset computed for the last width seen.
    pub open spec fn wf(&self) -> bool {
        &&& self.lines@.len() >= 1
        &&& text_size(self.text()) <= MAX_TEXT
        &&& self.config.wf()
        &&& self.cursor_ok(self.caret)
        &&& self.cursor_ok(self.window_top)
        &&& self.selection_start matches Some(a) ==> self.cursor_ok(a)
    }

    /// What a movement leaves alone: the text, the settings, the name.
    pub open spec fn same_document(&self, other: &File) -> bool {
        &&& self.lines@ == other.lines@
        &&& self.name == other.name
        &&& self.config == other.config
        &&& self.contents_dirty == other.contents_dirty
    }

    /// The selection after a movement: kept where `select` was called just
    /// before, dropped otherwise.
    pub open spec fn selection_after_move(&self, before: &File) -> bool {
        &&& !self.selecting
        &&& anchor_pos(self.selection_start) == if before.selecting {
            anchor_pos(before.selection_start)
        } else {
            None
        }
    }

    /// The common part of a movement's contract.
    pub open spec fn moved(&self, before: &File, dim: (i32, i32), pos: (int, int)) -> bool {
        &&& self.wf()
        &&& self.same_document(before)
        &&& self.last_dim == dim
        &&& pos_of(self.caret) == pos
        &&& self.selection_after_move(before)
        &&& before.display_dirty ==> self.display_dirty
    }

    /// The viewport follows a caret that left it through its top.
    pub open spec fn top_follows_up(&self, before: &File, w: int) -> bool {
        let ls = self.text();
        let top = pos_of(before.window_top);
        pos_of(self.window_top) == if row_at(ls, self.caret.x as int, self.caret.y as int, w)
            < row_at(ls, top.0, top.1, w) {
            up_pos(ls, top.0, top.1, w)
        } else {
            top
        }
    }

    /// The viewport follows a caret that left it through its bottom.
    pub open spec fn top_follows_down(&self, before: &File, dim: (i32, i32)) -> bool {
        let ls = self.text();
        let ghost w = dim.0 as int;
        let top = pos_of(before.window_top);
        pos_of(self.window_top) == if row_at(ls, self.caret.x as int, self.caret.y as int, w)
            - row_at(ls, top.0, top.1, w) + 1 > dim.1 {
            down_pos(ls, top.0, top.1, w)
        } else {
            top
        }
    }

    /// A new document with one empty line.
    pub fn empty() -> (r: File)
        ensures
            r.wf(),
            r.text() == seq![Seq::<char>::empty()],
            pos_of(r.caret) == (1int, 1int),
            pos_of(r.window_top) == (1int, 1int),
            r.selection_start is None,
            !r.selecting,
            !r.display_dirty,
            !r.contents_dirty,
            r.config.is_default(),
            r.name@ == "<empty>"@,
    {
        let lines = vec![String::new()];
        let r = File {
            name: String::from_str("<empty>"),
            lines,
            caret: Cursor::origin(),
            selection_start: None,
            selecting: false,
            window_top: Cursor::origin(),
            last_dim: (0, 0),
            misc: String::new(),
            display_dirty: false,
            contents_dirty: false,
            config: Config::config_for(None),
        };
        assert(r.text() =~= seq![Seq::<char>::empty()]);
        assert(text_size(r.text()) == 1) by {
            assert(r.text().drop_last() =~= Seq::<Seq<char>>::empty());
            assert(r.text().last().len() == 0);
            assert(text_size(Seq::<Seq<char>>::empty()) == 0);
        }
        r
    }

    /// The lines that a document read from `t` starts with: one empty line
    /// where `t` has none.
    pub open spec fn opened_lines(t: Seq<char>) -> Seq<Seq<char>> {
        if read_lines(t).len() == 0 {
            seq![Seq::<char>::empty()]
        } else {
            read_lines(t)
        }
    }

    /// A document named `name` holding `text`, with the caret at its start;
    /// `None` where the text is larger than a document may be.
    pub fn from_text(name: String, text: &str, config: Config) -> (r: Option<File>)
        requires
            config.wf(),
        ensures
            match r {
                Some(f) => {
                    &&& f.wf()
                    &&& f.text() == File::opened_lines(text@)
                    &&& f.name == name
                    &&& f.config == config
                    &&& pos_of(f.caret) == (1int, 1int)
                    &&& pos_of(f.window_top) == (1int, 1int)
                    &&& f.selection_start is None
                    &&& !f.display_dirty
                    &&& !f.contents_dirty
                },
                None => text_size(File::opened_lines(text@)) > MAX_TEXT,
            },
    {
        let mut lines = split_lines(text);
        if lines.len() == 0 {
            lines.push(String::new());
            assert(lines_view(lines@) =~= seq![Seq::<char>::empty()]);
        }
        if !fits(&lines) {
            return None;
        }
        let misc = match config.indent_style {
            IndentStyle::Tab => String::from_str("Tabs are stupid and MFTE doesn't support them."),
            IndentStyle::Space => String::new(),
        };
        proof {
            lemma_row_bound(lines_view(lines@), 1, 1);
        }
        Some(
            File {
                name,
                lines,
                caret: Cursor::origin(),
                selection_start: None,
                selecting: false,
                window_top: Cursor::origin(),
                last_dim: (0, 0),
                misc,
                display_dirty: false,
                contents_dirty: false,
                config,
            },
        )
    }

    /// The text that saving writes: the lines, with trailing whitespace
    /// trimmed where the settings ask for it, each joined by the configured
    /// line end, and one more after the last where the settings ask for it.
    /// The document counts as saved afterwards.
    pub fn save_text(&mut self) -> (r: String)
        requires
            old(self).wf(),
        ensures
            r@ == saved_text(
                old(self).text(),
                match old(self).config.end_of_line {
                    crate::config::EndOfLine::Lf => seq!['\n'],
                    crate::config::EndOfLine::CrLf => seq!['\r', '\n'],
                    crate::config::EndOfLine::Cr => seq!['\r'],
                },
                old(self).config.trim_trailing_whitespace,
                old(self).config.insert_final_newline,
            ),
            *final(self) == (File { contents_dirty: false, ..*old(self) }),
    {
        let sep = self.config.line_sep();
        let trim = self.config.trim_trailing_whitespace;
        let ghost ls = self.text();
        let ghost body = if trim {
            ls.map_values(|l: Seq<char>| trim_end_of(l))
        } else {
            ls
        };
        let n = self.lines.len();
        let mut result = if trim {
            trim_end(&self.lines[0])
        } else {
            self.lines[0].clone()
        };
        proof {
            assert(body.take(1) =~= seq![body[0]]);
        }
        let mut i: usize = 1;
        while i < n
            invariant
                1 <= i <= n,
                n == ls.len(),
                ls == self.text(),
                trim == self.config.trim_trailing_whitespace,
                body == if trim {
                    ls.map_values(|l: Seq<char>| trim_end_of(l))
                } else {
                    ls
                },
                result@ == join_with(body.take(i as int), sep@),
            decreases n - i,
        {
            result.append(sep);
            let line = if trim {
                trim_end(&self.lines[i])
            } else {
                self.lines[i].clone()
            };
            result.append(line.as_str());
            proof {
                assert(body.take(i + 1).drop_last() =~= body.take(i as int));
                assert(self.lines@[i as int]@ == ls[i as int]);
            }
            i = i + 1;
        }
        proof {
            assert(body.take(n as int) =~= body);
        }
        if self.config.insert_final_newline {
            result.append(sep);
        }
        self.contents_dirty = false;
        result
    }

    /// How many more characters the document can take.
    pub fn room(&self) -> (r: usize)
        requires
            self.wf(),
        ensures
            r == MAX_TEXT - text_size(self.text()),
    {
        let ghost ls = self.text();
        let mut total: usize = 0;
        let mut i: usize = 0;
        while i < self.lines.len()
            invariant
                i <= self.lines@.len(),
                ls == self.text(),
                text_size(ls) <= MAX_TEXT,
                total == text_size(ls.subrange(0, i as int)),
            decreases self.lines@.len() - i,
        {
            proof {
                lemma_text_size_prefix(ls, i as int);
                lemma_text_size_mono(ls, i + 1);
            }
            total = total + char_len(&self.lines[i]) + 1;
            i = i + 1;
        }
        assert(ls.subrange(0, i as int) =~= ls);
        MAX_TEXT as usize - total
    }

    /// A status line: the selection's anchor, the caret, the viewport's
    /// first position and the caret on screen, then any note on the file.
    pub fn debug(&self, dim: (i32, i32)) -> (r: String)
        requires
            self.wf(),
            dim.0 >= 1,
        ensures
            r@ == match self.selection_start {
                Some(a) => "Selection "@ + cursor_text(a) + " "@,
                None => Seq::empty(),
            } + "Caret "@ + cursor_text(self.caret) + ", Top "@ + cursor_text(self.window_top)
                + ", Cursor "@ + cursor_text(self.cursor_spec(dim)) + " "@ + self.misc@,
    {
        let mut r = String::new();
        if let Some(a) = &self.selection_start {
            r.append("Selection ");
            push_cursor(&mut r, a);
            r.append(" ");
        }
        let ghost head = r@;
        r.append("Caret ");
        push_cursor(&mut r, &self.caret);
        r.append(", Top ");
        push_cursor(&mut r, &self.window_top);
        r.append(", Cursor ");
        let c = self.cursor(dim);
        push_cursor(&mut r, &c);
        r.append(" ");
        r.append(self.misc.as_str());
        proof {
            if self.selection_start is Some {
                assert(head =~= "Selection "@ + cursor_text(self.selection_start->0) + " "@);
            } else {
                assert(head =~= Seq::<char>::empty());
            }
            assert(r@ =~= head + "Caret "@ + cursor_text(self.caret) + ", Top "@ + cursor_text(
                self.window_top,
            ) + ", Cursor "@ + cursor_text(c) + " "@ + self.misc@);
        }
        r
    }

    /// The caret on screen, as `cursor` computes it.
    pub open spec fn cursor_spec(&self, dim: (i32, i32)) -> Cursor {
        Cursor {
            x: ((self.caret.x - 1) % (dim.0 as int) + 1) as i32,
            y: (self.caret.screen_row(dim.0 as int) - self.window_top.screen_row(dim.0 as int)
                + 1) as i32,
            y_offset: 0,
        }
    }

    /// The caret on screen: its column within its screen row, and its row
    /// counted from the top of the viewport.
    pub fn cursor(&self, dim: (i32, i32)) -> (r: Cursor)
        requires
            self.wf(),
            dim.0 >= 1,
        ensures
            r.x == (self.caret.x - 1) % (dim.0 as int) + 1,
            r.y == self.caret.screen_row(dim.0 as int) - self.window_top.screen_row(dim.0 as int)
                + 1,
            r.y_offset == 0,
    {
        proof {
            self.lemma_cursor_rows(self.caret);
            self.lemma_cursor_rows(self.window_top);
        }
        let projected_caret = self.caret.project(dim, Ghost(self.text()));
        let projected_top = self.window_top.project(dim, Ghost(self.text()));
        Cursor { x: projected_caret.x, y: projected_caret.y - projected_top.y + 1, y_offset: 0 }
    }

    proof fn lemma_cursor_rows(&self, c: Cursor)
        requires
            self.wf(),
            self.cursor_ok(c),
        ensures
            0 <= c.y_offset,
            c.y + c.y_offset + len_at(self.text(), c.y as int) <= text_size(self.text()),
    {
        if self.width() >= 1 {
            lemma_row_bound(self.text(), c.y as int, self.width());
        } else {
            lemma_row_bound(self.text(), c.y as int, 1);
        }
    }

    /// The tab-bar label: the name, marked with `*` while there are unsaved
    /// changes.
    pub fn label(&self) -> (r: String)
        ensures
            r@ == if self.contents_dirty {
                seq!['*'] + self.name@
            } else {
                self.name@
            },
    {
        let mut result = String::new();
        if self.contents_dirty {
            push_char(&mut result, '*');
        }
        result.append(self.name.as_str());
        proof {
            if self.contents_dirty {
                assert(result@ =~= seq!['*'] + self.name@);
            } else {
                assert(result@ =~= self.name@);
            }
        }
        result
    }

    fn current_line(&self) -> (r: &String)
        requires
            self.wf(),
        ensures
            r@ == self.text()[self.caret.y - 1],
    {
        &self.lines[(self.caret.y - 1) as usize]
    }

    fn tab_width(&self) -> (r: u8)
        requires
            self.config.wf(),
        ensures
            r as int == self.iw(),
            r >= 1,
    {
        self.config.indent_len()
    }

    pub(crate) fn recompute_offsets(&mut self, dim: (i32, i32))
        requires
            old(self).wf(),
            dim.0 >= 1,
        ensures
            final(self).wf(),
            final(self).last_dim == dim,
            final(self).same_document(old(self)),
            pos_of(final(self).caret) == pos_of(old(self).caret),
            pos_of(final(self).window_top) == pos_of(old(self).window_top),
            anchor_pos(final(self).selection_start) == anchor_pos(old(self).selection_start),
            final(self).selecting == old(self).selecting,
            final(self).display_dirty == old(self).display_dirty,
    {
        if dim.0 != self.last_dim.0 || dim.1 != self.last_dim.1 {
            self.caret.recompute_offset(dim, &self.lines);
            self.window_top.recompute_offset(dim, &self.lines);
            if let Some(a) = &mut self.selection_start {
                a.recompute_offset(dim, &self.lines);
            }
            self.last_dim = dim;
        }
    }

    /// Recomputes the cached offsets for `dim` and asks for a redraw.
    pub fn refresh(&mut self, dim: (i32, i32))
        requires
            old(self).wf(),
            dim.0 >= 1,
        ensures
            final(self).wf(),
            final(self).last_dim == dim,
            final(self).same_document(old(self)),
            pos_of(final(self).caret) == pos_of(old(self).caret),
            pos_of(final(self).window_top) == pos_of(old(self).window_top),
            anchor_pos(final(self).selection_start) == anchor_pos(old(self).selection_start),
            final(self).selecting == old(self).selecting,
            final(self).display_dirty,
    {
        self.recompute_offsets(dim);
        self.display_dirty = true;
    }

    /// Starts a selection at the caret, unless one is already open; the next
    /// movement extends it.
    pub fn select(&mut self)
        requires
            old(self).wf(),
        ensures
            final(self).wf(),
            final(self).same_document(old(self)),
            final(self).caret == old(self).caret,
            final(self).window_top == old(self).window_top,
            final(self).last_dim == old(self).last_dim,
            final(self).selecting,
            final(self).selection_start == match old(self).selection_start {
                Some(a) => Some(a),
                None => Some(old(self).caret),
            },
            old(self).display_dirty ==> final(self).display_dirty,
    {
        self.selecting = true;
        if self.selection_start.is_none() {
            self.selection_start = Some(self.caret.clone());
            self.display_dirty = true;
        }
    }

    /// Drops the selection.
    pub fn deselect(&mut self)
        requires
            old(self).wf(),
        ensures
            final(self).wf(),
            final(self).same_document(old(self)),
            final(self).caret == old(self).caret,
            final(self).window_top == old(self).window_top,
            final(self).last_dim == old(self).last_dim,
            !final(self).selecting,
            final(self).selection_start is None,
            old(self).display_dirty ==> final(self).display_dirty,
    {
        self.selecting = false;
        if self.selection_start.is_some() {
            self.selection_start = None;
            self.display_dirty = true;
        }
    }

    /// Before a movement: keeps the selection where `select` was just called,
    /// drops it otherwise.
    fn tweak_selection(&mut self)
        requires
            old(self).wf(),
        ensures
            final(self).wf(),
            final(self).same_document(old(self)),
            final(self).caret == old(self).caret,
            final(self).window_top == old(self).window_top,
            final(self).last_dim == old(self).last_dim,
            !final(self).selecting,
            final(self).selection_start == if old(self).selecting {
                old(self).selection_start
            } else {
                None
            },
            old(self).display_dirty ==> final(self).display_dirty,
    {
        if self.selecting {
            self.selecting = false;
            self.display_dirty = true;
        } else {
            self.deselect();
        }
    }

    /// Whether a selection is open.
    pub fn has_selection(&self) -> (r: bool)
        ensures
            r == self.selection_start is Some,
    {
        self.selection_start.is_some()
    }

    /// Moves the caret one character left, to the end of the line above
    /// from the start of a line.
    pub fn move_cursor_left(&mut self, dim: (i32, i32))
        requires
            old(self).wf(),
            dim.0 >= 1,
        ensures
            final(self).after_left(old(self), dim),
    {
        self.tweak_selection();
        self.recompute_offsets(dim);
        self.caret.move_left(dim, &self.lines);
        if self.cursor(dim).y < 1 {
            self.window_top.move_up(dim, &self.lines);
            self.display_dirty = true;
        }
    }

    /// Moves the caret one character right, to the start of the next line
    /// from the end of a line.
    pub fn move_cursor_right(&mut self, dim: (i32, i32))
        requires
            old(self).wf(),
            dim.0 >= 1,
        ensures
            final(self).after_right(old(self), dim),
    {
        self.tweak_selection();
        self.recompute_offsets(dim);
        self.caret.move_right(dim, &self.lines);
        if self.cursor(dim).y > dim.1 {
            self.window_top.move_down(dim, &self.lines);
            self.display_dirty = true;
        }
    }

    /// Moves the caret one screen row up.
    pub fn move_cursor_up(&mut self, dim: (i32, i32))
        requires
            old(self).wf(),
            dim.0 >= 1,
        ensures
            final(self).after_up(old(self), dim),
    {
        self.tweak_selection();
        self.recompute_offsets(dim);
        self.caret.move_up(dim, &self.lines);
        if self.cursor(dim).y < 1 {
            self.window_top.move_up(dim, &self.lines);
            self.display_dirty = true;
        }
    }

    /// Moves the caret one screen row down.
    pub fn move_cursor_down(&mut self, dim: (i32, i32))
        requires
            old(self).wf(),
            dim.0 >= 1,
        ensures
            final(self).after_down(old(self), dim),
    {
        self.tweak_selection();
        self.recompute_offsets(dim);
        self.caret.move_down(dim, &self.lines);
        if self.cursor(dim).y > dim.1 {
            self.window_top.move_down(dim, &self.lines);
            self.display_dirty = true;
        }
    }

    /// Moves the caret up by one viewport height; a selection that `select`
    /// opened for this move follows the caret.
    pub fn page_up(&mut self, dim: (i32, i32))
        requires
            old(self).wf(),
            dim.0 >= 1,
        ensures
            final(self).wf(),
            final(self).same_document(old(self)),
            pos_of(final(self).caret) == up_n(
                old(self).text(),
                old(self).caret.x as int,
                old(self).caret.y as int,
                dim.0 as int,
                dim.1 as int,
            ),
            !final(self).selecting,
            anchor_pos(final(self).selection_start) == if old(self).selecting {
                anchor_pos(old(self).selection_start)
            } else {
                None
            },
    {
        let keep = self.selecting;
        self.tweak_selection();
        let mut i: i32 = 0;
        while i < dim.1
            invariant
                0 <= i,
                i <= dim.1 || i == 0,
                dim.0 >= 1,
                self.wf(),
                self.same_document(old(self)),
                pos_of(self.caret) == up_n(
                    old(self).text(),
                    old(self).caret.x as int,
                    old(self).caret.y as int,
                    dim.0 as int,
                    i as int,
                ),
                !self.selecting,
                keep == old(self).selecting,
                anchor_pos(self.selection_start) == if keep {
                    anchor_pos(old(self).selection_start)
                } else {
                    None
                },
            decreases dim.1 - i,
        {
            if keep {
                self.selecting = true;
            }
            self.move_cursor_up(dim);
            i = i + 1;
        }
    }

    /// Moves the caret down by one viewport height; a selection that
    /// `select` opened for this move follows the caret.
    pub fn page_down(&mut self, dim: (i32, i32))
        requires
            old(self).wf(),
            dim.0 >= 1,
        ensures
            final(self).wf(),
            final(self).same_document(old(self)),
            pos_of(final(self).caret) == down_n(
                old(self).text(),
                old(self).caret.x as int,
                old(self).caret.y as int,
                dim.0 as int,
                dim.1 as int,
            ),
            !final(self).selecting,
            anchor_pos(final(self).selection_start) == if old(self).selecting {
                anchor_pos(old(self).selection_start)
            } else {
                None
            },
    {
        let keep = self.selecting;
        self.tweak_selection();
        let mut i: i32 = 0;
        while i < dim.1
            invariant
                0 <= i,
                i <= dim.1 || i == 0,
                dim.0 >= 1,
                self.wf(),
                self.same_document(old(self)),
                pos_of(self.caret) == down_n(
                    old(self).text(),
                    old(self).caret.x as int,
                    old(self).caret.y as int,
                    dim.0 as int,
                    i as int,
                ),
                !self.selecting,
                keep == old(self).selecting,
                anchor_pos(self.selection_start) == if keep {
                    anchor_pos(old(self).selection_start)
                } else {
                    None
                },
            decreases dim.1 - i,
        {
            if keep {
                self.selecting = true;
            }
            self.move_cursor_down(dim);
            i = i + 1;
        }
    }

    /// Moves the caret to row `target.0`, walking line by line, then to
    /// column `target.1` brought into that line.
    pub fn goto(&mut self, dim: (i32, i32), target: (i32, i32))
        requires
            old(self).wf(),
            dim.0 >= 1,
            1 <= target.0 <= old(self).lines@.len(),
        ensures
            final(self).wf(),
            final(self).same_document(old(self)),
            final(self).caret.y == target.0,
            final(self).caret.x == clamp_col(
                target.1 as int,
                len_at(old(self).text(), target.0 as int),
            ),
            final(self).selection_start is None || anchor_pos(final(self).selection_start)
                == anchor_pos(old(self).selection_start),
    {
        let (row, col) = target;
        let ghost w = dim.0 as int;
        while self.caret.y < row
            invariant
                self.caret.y <= row || self.caret.y == old(self).caret.y,
                self.wf(),
                self.same_document(old(self)),
                dim.0 >= 1,
                w == dim.0,
                1 <= row <= self.lines@.len(),
                self.selection_start is None || anchor_pos(self.selection_start) == anchor_pos(
                    old(self).selection_start,
                ),
            decreases row - self.caret.y, len_at(self.text(), self.caret.y as int) / w - (
            self.caret.x - 1) / w,
        {
            proof {
                lemma_down_progress(self.text(), self.caret.x as int, self.caret.y as int, w);
            }
            self.move_cursor_down(dim);
        }
        while self.caret.y > row
            invariant
                self.caret.y >= row,
                self.wf(),
                self.same_document(old(self)),
                dim.0 >= 1,
                w == dim.0,
                1 <= row <= self.lines@.len(),
                self.selection_start is None || anchor_pos(self.selection_start) == anchor_pos(
                    old(self).selection_start,
                ),
            decreases self.caret.y - row, (self.caret.x - 1) / w,
        {
            proof {
                lemma_up_progress(self.text(), self.caret.x as int, self.caret.y as int, w);
            }
            self.move_cursor_up(dim);
        }
        let len = self.caret.curr_len(&self.lines);
        proof {
            lemma_row_bound(self.text(), self.caret.y as int, 1);
        }
        self.caret.x = if col < 1 {
            1
        } else if col > len + 1 {
            len + 1
        } else {
            col
        };
    }

    /// Moves the viewport three screen rows up; the caret stays.
    pub fn scroll_up(&mut self, dim: (i32, i32))
        requires
            old(self).wf(),
            dim.0 >= 1,
        ensures
            final(self).wf(),
            final(self).same_document(old(self)),
            pos_of(final(self).caret) == pos_of(old(self).caret),
            anchor_pos(final(self).selection_start) == anchor_pos(old(self).selection_start),
            final(self).selecting == old(self).selecting,
            pos_of(final(self).window_top) == up_n(
                old(self).text(),
                old(self).window_top.x as int,
                old(self).window_top.y as int,
                dim.0 as int,
                3,
            ),
            final(self).display_dirty,
    {
        self.recompute_offsets(dim);
        let mut i: i32 = 0;
        while i < 3
            invariant
                0 <= i <= 3,
                dim.0 >= 1,
                self.wf(),
                self.last_dim == dim,
                self.same_document(old(self)),
                pos_of(self.caret) == pos_of(old(self).caret),
                anchor_pos(self.selection_start) == anchor_pos(old(self).selection_start),
                self.selecting == old(self).selecting,
                pos_of(self.window_top) == up_n(
                    old(self).text(),
                    old(self).window_top.x as int,
                    old(self).window_top.y as int,
                    dim.0 as int,
                    i as int,
                ),
            decreases 3 - i,
        {
            self.window_top.move_up(dim, &self.lines);
            i = i + 1;
        }
        self.display_dirty = true;
    }

    /// Moves the viewport three screen rows down; the caret stays.
    pub fn scroll_down(&mut self, dim: (i32, i32))
        requires
            old(self).wf(),
            dim.0 >= 1,
        ensures
            final(self).wf(),
            final(self).same_document(old(self)),
            pos_of(final(self).caret) == pos_of(old(self).caret),
            anchor_pos(final(self).selection_start) == anchor_pos(old(self).selection_start),
            final(self).selecting == old(self).selecting,
            pos_of(final(self).window_top) == down_n(
                old(self).text(),
                old(self).window_top.x as int,
                old(self).window_top.y as int,
                dim.0 as int,
                3,
            ),
            final(self).display_dirty,
    {
        self.recompute_offsets(dim);
        let mut i: i32 = 0;
        while i < 3
            invariant
                0 <= i <= 3,
                dim.0 >= 1,
                self.wf(),
                self.last_dim == dim,
                self.same_document(old(self)),
                pos_of(self.caret) == pos_of(old(self).caret),
                anchor_pos(self.selection_start) == anchor_pos(old(self).selection_start),
                self.selecting == old(self).selecting,
                pos_of(self.window_top) == down_n(
                    old(self).text(),
                    old(self).window_top.x as int,
                    old(self).window_top.y as int,
                    dim.0 as int,
                    i as int,
                ),
            decreases 3 - i,
        {
            self.window_top.move_down(dim, &self.lines);
            i = i + 1;
        }
        self.display_dirty = true;
    }

    /// Width of the line-number gutter: the digits of the line count.
    pub fn lineno_chars(&self) -> (r: i32)
        requires
            self.wf(),
        ensures
            r == digit_count(self.lines@.len()),
    {
        let mut n: usize = self.lines.len();
        let mut count: i32 = 1;
        proof {
            lemma_digit_count_bound(n as nat);
            lemma_text_size_nonneg(self.text());
        }
        while n >= 10
            invariant
                1 <= count,
                n >= 1,
                count + digit_count(n as nat) - 1 == digit_count(self.lines@.len()),
                digit_count(self.lines@.len()) <= MAX_TEXT,
            decreases n,
        {
            proof {
                lemma_digit_count_bound((n / 10) as nat);
            }
            n = n / 10;
            count = count + 1;
        }
        count
    }

    /// The state after moving left from `before` at viewport size `dim`.
    pub open spec fn after_left(&self, before: &File, dim: (i32, i32)) -> bool {
        &&& self.moved(before, dim, left_pos(before.text(), before.caret.x as int,
            before.caret.y as int))
        &&& self.top_follows_up(before, dim.0 as int)
    }

    /// The state after moving right.
    pub open spec fn after_right(&self, before: &File, dim: (i32, i32)) -> bool {
        &&& self.moved(before, dim, right_pos(before.text(), before.caret.x as int,
            before.caret.y as int))
        &&& self.top_follows_down(before, dim)
    }

    /// The state after moving up one screen row.
    pub open spec fn after_up(&self, before: &File, dim: (i32, i32)) -> bool {
        let w = dim.0 as int;
        &&& self.moved(before, dim, up_pos(before.text(), before.caret.x as int,
            before.caret.y as int, w))
        &&& self.top_follows_up(before, w)
    }

    /// The state after moving down one screen row.
    pub open spec fn after_down(&self, before: &File, dim: (i32, i32)) -> bool {
        let w = dim.0 as int;
        &&& self.moved(
            before,
            dim,
            down_pos(before.text(), before.caret.x as int, before.caret.y as int, w),
        )
        &&& self.top_follows_down(before, dim)
    }

    /// The state after pressing home.
    pub open spec fn after_home(&self, before: &File, dim: (i32, i32)) -> bool {
        let x = home_x(
            before.text(),
            before.caret.x as int,
            before.caret.y as int,
            dim.0 as int,
            before.iw(),
        );
        &&& self.moved(before, dim, (x, before.caret.y as int))
        &&& pos_of(self.window_top) == pos_of(before.window_top)
    }

    /// The state after pressing end.
    pub open spec fn after_end(&self, before: &File, dim: (i32, i32)) -> bool {
        let x = end_x(before.text(), before.caret.x as int, before.caret.y as int, dim.0 as int);
        &&& self.moved(before, dim, (x, before.caret.y as int))
        &&& pos_of(self.window_top) == pos_of(before.window_top)
    }

    /// Text and caret as a triple.
    pub open spec fn text_and_caret(&self) -> (Seq<Seq<char>>, int, int) {
        (self.text(), self.caret.x as int, self.caret.y as int)
    }

    /// The state after a forward delete.
    pub open spec fn after_delete(&self, before: &File) -> bool {
        &&& self.edited(before)
        &&& self.display_dirty && self.contents_dirty
        &&& before.selection_start is Some ==> self.text_and_caret() == before.cleared()
        &&& before.selection_start is None ==> {
            &&& self.text() == delete_text(
                before.text(),
                before.caret.x as int,
                before.caret.y as int,
                before.iw(),
            )
            &&& pos_of(self.caret) == pos_of(before.caret)
        }
    }

    /// The state after a backspace.
    pub open spec fn after_backspace(&self, before: &File) -> bool {
        &&& self.edited(before)
        &&& self.display_dirty && self.contents_dirty
        &&& before.selection_start is Some ==> self.text_and_caret() == before.cleared()
        &&& before.selection_start is None ==> self.text_and_caret() == backspace_result(
            before.text(),
            before.caret.x as int,
            before.caret.y as int,
            before.iw(),
        )
    }

    /// The state after typing `c`.
    pub open spec fn after_insert(&self, before: &File, c: char) -> bool {
        let (ls, x, y) = before.cleared();
        &&& self.edited(before)
        &&& self.display_dirty && self.contents_dirty
        &&& self.text() == insert_text(ls, x, y, c)
        &&& pos_of(self.caret) == (x + 1, y)
        &&& text_size(self.text()) <= text_size(before.text()) + 1
    }

    /// Whether `n` more characters fit in the document.
    pub open spec fn has_room(&self, n: int) -> bool {
        text_size(self.text()) + n <= MAX_TEXT
    }

    /// Length of the caret's line once the selection, if any, is erased: a
    /// line break there may carry up to that many spaces of indentation.
    pub open spec fn cleared_line_len(&self) -> int {
        let (ls, x, y) = self.cleared();
        ls[y - 1].len() as int
    }

    /// Whether a line break fits: room for the caret's line, once the
    /// selection is erased, and one more character.
    pub fn can_break_line(&self) -> (r: bool)
        requires
            self.wf(),
        ensures
            r == self.has_room(self.cleared_line_len() + 1),
    {
        proof {
            self.lemma_cleared_bounds();
        }
        let room = self.room();
        let len = match &self.selection_start {
            None => char_len(&self.lines[(self.caret.y - 1) as usize]),
            Some(sel) => {
                let (start, end) = if sel.is_before(&self.caret) {
                    (sel, &self.caret)
                } else {
                    (&self.caret, sel)
                };
                let ey = (end.y - 1) as usize;
                let last = char_len(&self.lines[ey]);
                proof {
                    let ls = self.text();
                    let c = erase_span(ls, pos_of(*start), pos_of(*end));
                    assert(c[start.y - 1] == ls[start.y - 1].subrange(0, start.x - 1)
                        + ls[end.y - 1].subrange(end.x - 1, ls[end.y - 1].len() as int));
                    assert(self.lines@[ey as int]@ == ls[ey as int]);
                }
                (start.x - 1) as usize + (last - (end.x - 1) as usize)
            },
        };
        len < room
    }

    /// Erasing the selection keeps the caret in the text and the text no
    /// larger; the caret's line is shorter than the whole text.
    pub proof fn lemma_cleared_bounds(&self)
        requires
            self.wf(),
        ensures
            ({
                let (ls, x, y) = self.cleared();
                &&& 1 <= y <= ls.len()
                &&& 1 <= x <= ls[y - 1].len() + 1
                &&& text_size(ls) <= text_size(self.text())
                &&& self.cleared_line_len() < text_size(ls)
            }),
    {
        let ls = self.text();
        if self.selection_start is Some {
            let a = self.selection_start->0;
            let end = later(pos_of(a), pos_of(self.caret));
            let start = earlier(pos_of(a), pos_of(self.caret));
            lemma_erase_span_size(ls, start, end);
            let c = erase_span(ls, start, end);
            assert(c[start.1 - 1] == ls[start.1 - 1].subrange(0, start.0 - 1) + ls[end.1 - 1].subrange(
                end.0 - 1,
                ls[end.1 - 1].len() as int,
            ));
            lemma_row_bound(c, start.1, 1);
        } else {
            lemma_row_bound(ls, self.caret.y as int, 1);
        }
    }

    /// Text and caret once the selection, if any, is erased.
    pub open spec fn cleared(&self) -> (Seq<Seq<char>>, int, int) {
        match self.selection_start {
            Some(a) => erase_selection(self.text(), pos_of(self.caret), pos_of(a)),
            None => (self.text(), self.caret.x as int, self.caret.y as int),
        }
    }

    /// What an edit leaves alone, and the marks it sets.
    pub open spec fn edited(&self, before: &File) -> bool {
        &&& self.wf()
        &&& self.name == before.name
        &&& self.config == before.config
        &&& self.selection_start is None
    }

    /// Replaces line `row` (counted from 0).
    fn replace_line(&mut self, row: usize, s: String)
        requires
            row < old(self).lines@.len(),
        ensures
            final(self).text() == old(self).text().update(row as int, s@),
            final(self).lines@.len() == old(self).lines@.len(),
            final(self).caret == old(self).caret,
            final(self).window_top == old(self).window_top,
            final(self).selection_start == old(self).selection_start,
            final(self).selecting == old(self).selecting,
            final(self).last_dim == old(self).last_dim,
            final(self).name == old(self).name,
            final(self).config == old(self).config,
            final(self).display_dirty == old(self).display_dirty,
            final(self).contents_dirty == old(self).contents_dirty,
    {
        self.lines.set(row, s);
        assert(self.text() =~= old(self).text().update(row as int, s@));
    }

    /// Brings the viewport's first position back into the text after an edit
    /// at row `edited` or below it, and recomputes its offset where lines
    /// before it changed.
    fn fit_top(&mut self, edited: i32)
        requires
            old(self).lines@.len() >= 1,
            text_size(old(self).text()) <= MAX_TEXT,
            old(self).config.wf(),
            old(self).cursor_ok(old(self).caret),
            old(self).selection_start is None,
            1 <= old(self).window_top.y,
            1 <= old(self).window_top.x,
            old(self).window_top.y < edited ==> old(self).cursor_ok(old(self).window_top),
            old(self).window_top.y == edited ==> old(self).window_top.synced(
                old(self).text(),
                old(self).width(),
            ) && edited <= old(self).lines@.len(),
        ensures
            final(self).wf(),
            final(self).lines == old(self).lines,
            final(self).caret == old(self).caret,
            final(self).selection_start is None,
            final(self).selecting == old(self).selecting,
            final(self).last_dim == old(self).last_dim,
            final(self).name == old(self).name,
            final(self).config == old(self).config,
            final(self).display_dirty == old(self).display_dirty,
            final(self).contents_dirty == old(self).contents_dirty,
            old(self).window_top.y < edited ==> final(self).window_top == old(self).window_top,
    {
        let top_row = self.window_top.y;
        if top_row >= edited {
            let n = self.lines.len() as i32;
            proof {
                lemma_text_size_nonneg(self.text());
            }
            if self.window_top.y > n {
                self.window_top.y = n;
            }
            let l = self.window_top.curr_len(&self.lines);
            proof {
                lemma_row_bound(self.text(), self.window_top.y as int, 1);
            }
            if self.window_top.x > l + 1 {
                self.window_top.x = l + 1;
            }
            if top_row > edited {
                if self.last_dim.0 >= 1 {
                    self.window_top.recompute_offset(self.last_dim, &self.lines);
                } else {
                    self.window_top.y_offset = 0;
                }
            }
        }
    }

    /// Forward delete at the caret, with no selection open.
    fn delete_here(&mut self)
        requires
            old(self).wf(),
            old(self).selection_start is None,
        ensures
            final(self).edited(old(self)),
            final(self).text() == delete_text(
                old(self).text(),
                old(self).caret.x as int,
                old(self).caret.y as int,
                old(self).iw(),
            ),
            pos_of(final(self).caret) == pos_of(old(self).caret),
            final(self).last_dim == old(self).last_dim,
            final(self).selecting == old(self).selecting,
            final(self).display_dirty,
            final(self).contents_dirty,
            text_size(final(self).text()) <= text_size(old(self).text()),
    {
        let ghost ls = self.text();
        let ghost iw = self.iw();
        let x = (self.caret.x - 1) as usize;
        let y = (self.caret.y - 1) as usize;
        let len = char_len(&self.lines[y]);
        assert(self.lines@[y as int]@ == ls[y as int]);
        proof {
            lemma_row_bound(ls, y + 1, 1);
        }
        if x == len {
            if y < self.lines.len() - 1 {
                let mut joined = self.lines[y].clone();
                joined.append(self.lines[y + 1].as_str());
                self.replace_line(y, joined);
                let _ = self.lines.remove(y + 1);
                proof {
                    let u = ls.update(y as int, ls[y as int] + ls[y + 1]);
                    assert(self.text() =~= u.remove(y + 1));
                    lemma_text_size_update(ls, y as int, ls[y as int] + ls[y + 1]);
                    lemma_text_size_remove(u, y + 1);
                }
            }
        } else {
            let w = self.tab_width();
            let end = self.lines[y].indent_end(w);
            let indented = match end {
                Some(s) => (x as i32) <= s - w as i32,
                None => false,
            };
            proof {
                lemma_indent_end_facts(ls[y as int], iw);
            }
            if indented {
                let mut line = self.lines[y].clone();
                line.pop_indentation(w);
                self.replace_line(y, line);
                proof {
                    lemma_text_size_update(ls, y as int, pop_indent_of(ls[y as int], iw));
                }
            } else {
                let mut line = slice(&self.lines[y], 0, x);
                let tail = slice(&self.lines[y], x + 1, len);
                line.append(tail.as_str());
                assert(line@ =~= ls[y as int].remove(x as int));
                self.replace_line(y, line);
                proof {
                    lemma_text_size_update(ls, y as int, ls[y as int].remove(x as int));
                }
            }
        }
        proof {
            let nt = self.text();
            assert(nt.len() >= 1);
            lemma_wrap_prefix(ls, nt, y as int, self.width());
            if self.window_top.y <= self.caret.y {
                lemma_wrap_prefix(ls, nt, self.window_top.y - 1, self.width());
            }
            assert(nt[y as int] == delete_text(ls, x + 1, y + 1, iw)[y as int]);
        }
        self.fit_top(self.caret.y);
        self.display_dirty = true;
        self.contents_dirty = true;
    }

    /// One backspace with no selection open.
    fn backspace_here(&mut self, dim: (i32, i32))
        requires
            old(self).wf(),
            old(self).selection_start is None,
            dim.0 >= 1,
        ensures
            final(self).edited(old(self)),
            ({
                let r = backspace_result(
                    old(self).text(),
                    old(self).caret.x as int,
                    old(self).caret.y as int,
                    old(self).iw(),
                );
                final(self).text() == r.0 && pos_of(final(self).caret) == (r.1, r.2)
            }),
            final(self).display_dirty,
            final(self).contents_dirty,
    {
        let ghost ls = self.text();
        let ghost iw = self.iw();
        let x = self.caret.x - 1;
        let w = self.tab_width();
        proof {
            lemma_indent_end_facts(ls[self.caret.y - 1], iw);
            lemma_row_bound(ls, self.caret.y as int, 1);
        }
        let e = self.current_line().indent_end(w);
        let at_boundary = match e {
            Some(s) => x <= s,
            None => false,
        };
        if x - w as i32 >= 0 && at_boundary {
            self.caret.x = self.caret.x - w as i32;
        } else {
            self.move_cursor_left(dim);
        }
        self.delete_here();
    }

    /// Erases the selection, if any: the text between its ends goes and the
    /// caret stands at the earlier end.
    fn delete_selection(&mut self, dim: (i32, i32))
        requires
            old(self).wf(),
            dim.0 >= 1,
        ensures
            final(self).edited(old(self)),
            final(self).text_and_caret() == old(self).cleared(),
            text_size(final(self).text()) <= text_size(old(self).text()),
            old(self).selection_start is None ==> *final(self) == *old(self),
            old(self).selection_start is Some ==> final(self).display_dirty
                && final(self).contents_dirty,
    {
        if self.selection_start.is_some() {
            let ghost ls = self.text();
            let sel = self.selection_start.take().unwrap();
            let (start, end) = if sel.is_before(&self.caret) {
                (sel, self.caret.clone())
            } else {
                (self.caret.clone(), sel)
            };
            let sy = (start.y - 1) as usize;
            let ey = (end.y - 1) as usize;
            let sx = (start.x - 1) as usize;
            let ex = (end.x - 1) as usize;
            assert(self.lines@[sy as int]@ == ls[sy as int]);
            assert(self.lines@[ey as int]@ == ls[ey as int]);
            let last_len = char_len(&self.lines[ey]);
            let mut joined = slice(&self.lines[sy], 0, sx);
            let tail = slice(&self.lines[ey], ex, last_len);
            joined.append(tail.as_str());
            let n = self.lines.len();
            let mut lines: Vec<String> = Vec::new();
            let mut i: usize = 0;
            while i < sy
                invariant
                    i <= sy,
                    sy < n,
                    n == self.lines@.len(),
                    lines_view(lines@) == lines_view(self.lines@).subrange(0, i as int),
                decreases sy - i,
            {
                let ghost prev = lines@;
                lines.push(self.lines[i].clone());
                assert(lines_view(lines@) =~= lines_view(prev).push(self.lines@[i as int]@));
                i = i + 1;
                assert(lines_view(lines@) =~= lines_view(self.lines@).subrange(0, i as int));
            }
            let ghost joined_view = joined@;
            lines.push(joined);
            let mut j: usize = ey + 1;
            let ghost head = lines_view(lines@);
            assert(head =~= lines_view(self.lines@).subrange(0, sy as int).push(joined_view));
            while j < n
                invariant
                    ey < j <= n,
                    n == self.lines@.len(),
                    lines_view(lines@) == head + lines_view(self.lines@).subrange(
                        ey + 1,
                        j as int,
                    ),
                decreases n - j,
            {
                let ghost prev = lines@;
                lines.push(self.lines[j].clone());
                assert(lines_view(lines@) =~= lines_view(prev).push(self.lines@[j as int]@));
                j = j + 1;
                assert(lines_view(lines@) =~= head + lines_view(self.lines@).subrange(
                    ey + 1,
                    j as int,
                ));
            }
            self.lines = lines;
            proof {
                let sp = pos_of(start);
                let ep = pos_of(end);
                assert(self.text() =~= erase_span(ls, sp, ep));
                lemma_erase_span_size(ls, sp, ep);
                let nt = self.text();
                assert(nt[sy as int] == joined_view);
                lemma_wrap_prefix(ls, nt, sy as int, self.width());
                if self.window_top.y <= start.y {
                    lemma_wrap_prefix(ls, nt, self.window_top.y - 1, self.width());
                    assert(self.window_top.y < start.y ==> nt[self.window_top.y - 1]
                        == ls[self.window_top.y - 1]);
                }
            }
            self.caret = start;
            self.fit_top(self.caret.y);
            self.display_dirty = true;
            self.contents_dirty = true;
        }
    }

    /// Forward delete: erases the selection where there is one, else deletes
    /// at the caret.
    pub fn delete(&mut self, dim: (i32, i32))
        requires
            old(self).wf(),
            dim.0 >= 1,
        ensures
            final(self).after_delete(old(self)),
            final(self).display_dirty,
            final(self).contents_dirty,
    {
        if self.selection_start.is_some() {
            self.delete_selection(dim);
        } else {
            self.delete_here();
        }
        self.display_dirty = true;
        self.contents_dirty = true;
    }

    /// Backspace: erases the selection where there is one; else steps back a
    /// character, or a whole indentation unit from an indentation boundary,
    /// and deletes forward from there.
    pub fn backspace(&mut self, dim: (i32, i32))
        requires
            old(self).wf(),
            dim.0 >= 1,
        ensures
            final(self).after_backspace(old(self)),
    {
        if self.selection_start.is_some() {
            self.delete_selection(dim);
            return ;
        }
        self.backspace_here(dim);
    }

    /// Types `c` at the caret, replacing the selection if there is one.
    pub fn insert(&mut self, dim: (i32, i32), c: char)
        requires
            old(self).wf(),
            old(self).has_room(1),
            dim.0 >= 1,
        ensures
            final(self).after_insert(old(self), c),
            final(self).last_dim == dim,
            final(self).display_dirty,
            final(self).contents_dirty,
    {
        self.delete_selection(dim);
        let ghost ls = self.text();
        let x = (self.caret.x - 1) as usize;
        let y = (self.caret.y - 1) as usize;
        let len = char_len(&self.lines[y]);
        assert(self.lines@[y as int]@ == ls[y as int]);
        let mut line = slice(&self.lines[y], 0, x);
        push_char(&mut line, c);
        let tail = slice(&self.lines[y], x, len);
        line.append(tail.as_str());
        assert(line@ =~= ls[y as int].insert(x as int, c));
        self.replace_line(y, line);
        proof {
            let nt = self.text();
            lemma_text_size_update(ls, y as int, ls[y as int].insert(x as int, c));
            lemma_wrap_prefix(ls, nt, y as int, self.width());
            if self.window_top.y <= self.caret.y {
                lemma_wrap_prefix(ls, nt, self.window_top.y - 1, self.width());
            }
        }
        self.fit_top(self.caret.y);
        self.display_dirty = true;
        self.contents_dirty = true;
        self.move_cursor_right(dim);
    }

    /// Inserts one indentation unit's worth of spaces at the caret.
    pub fn tab(&mut self, dim: (i32, i32))
        requires
            old(self).wf(),
            old(self).has_room(old(self).iw()),
            dim.0 >= 1,
        ensures
            final(self).edited(old(self)),
            ({
                let (ls, x, y) = old(self).cleared();
                let line = ls[y - 1];
                &&& final(self).text() == ls.update(
                    y - 1,
                    line.subrange(0, x - 1) + repeat(' ', old(self).iw() as nat) + line.subrange(
                        x - 1,
                        line.len() as int,
                    ),
                )
                &&& pos_of(final(self).caret) == (x + old(self).iw(), y)
            }),
            final(self).display_dirty,
            final(self).contents_dirty,
    {
        self.delete_selection(dim);
        let ghost ls = self.text();
        let ghost (x0, y0) = (self.caret.x as int, self.caret.y as int);
        let ghost line = ls[y0 - 1];
        let n = self.tab_width();
        let mut i: u8 = 0;
        assert(line.subrange(0, x0 - 1) + repeat(' ', 0) + line.subrange(x0 - 1, line.len() as int)
            =~= line);
        assert(ls.update(y0 - 1, line) =~= ls);
        while i < n
            invariant
                0 <= i <= n,
                n >= 1,
                i > 0 ==> self.display_dirty && self.contents_dirty,
                n as int == self.iw(),
                self.edited(old(self)),
                old(self).has_room(old(self).iw()),
                text_size(self.text()) == text_size(ls) + i,
                text_size(ls) <= text_size(old(self).text()),
                dim.0 >= 1,
                self.text() == ls.update(
                    y0 - 1,
                    line.subrange(0, x0 - 1) + repeat(' ', i as nat) + line.subrange(
                        x0 - 1,
                        line.len() as int,
                    ),
                ),
                pos_of(self.caret) == (x0 + i, y0),
                1 <= y0 <= ls.len(),
                1 <= x0 <= line.len() + 1,
                line == ls[y0 - 1],
            decreases n - i,
        {
            let ghost before = self.text();
            self.insert(dim, ' ');
            proof {
                let cur = line.subrange(0, x0 - 1) + repeat(' ', i as nat) + line.subrange(
                    x0 - 1,
                    line.len() as int,
                );
                let next = line.subrange(0, x0 - 1) + repeat(' ', (i + 1) as nat)
                    + line.subrange(x0 - 1, line.len() as int);
                assert(cur.insert(x0 - 1 + i, ' ') =~= next);
                assert(before[y0 - 1] == cur);
                assert(self.text() =~= ls.update(y0 - 1, next));
                lemma_text_size_update(before, y0 - 1, next);
            }
            i = i + 1;
        }
    }

    /// Breaks the line at the caret, replacing the selection if there is one.
    /// With `indent`, the new line starts with as many spaces as the
    /// indentation before the caret, and the caret lands after them.
    #[verifier::rlimit(60)]
    pub fn insert_newline(&mut self, dim: (i32, i32), indent: bool)
        requires
            old(self).wf(),
            old(self).has_room(old(self).cleared_line_len() + 1),
            dim.0 >= 1,
        ensures
            final(self).edited(old(self)),
            ({
                let (ls, x, y) = old(self).cleared();
                let n = carried_indent(ls[y - 1].subrange(0, x - 1), old(self).iw(), indent);
                &&& final(self).text() == newline_text(ls, x, y, n)
                &&& pos_of(final(self).caret) == (1 + n, y + 1)
            }),
            !indent ==> text_size(final(self).text()) <= text_size(old(self).text()) + 1,
            final(self).last_dim == dim,
            final(self).display_dirty,
            final(self).contents_dirty,
    {
        self.delete_selection(dim);
        let ghost ls = self.text();
        let ghost iw = self.iw();
        let w = self.tab_width();
        let x = (self.caret.x - 1) as usize;
        let y = (self.caret.y - 1) as usize;
        let len = char_len(&self.lines[y]);
        assert(self.lines@[y as int]@ == ls[y as int]);
        proof {
            lemma_row_bound(ls, y + 1, 1);
        }
        let before = slice(&self.lines[y], 0, x);
        let n = if indent {
            before.indent_end(w)
        } else {
            None
        };
        proof {
            lemma_indent_end_facts(before@, iw);
        }
        let mut after = String::new();
        let carried: i32 = match n {
            Some(k) => k,
            None => 0,
        };
        push_repeat(&mut after, ' ', carried as usize);
        let tail = slice(&self.lines[y], x, len);
        after.append(tail.as_str());
        let ghost nl = repeat(' ', carried as nat) + ls[y as int].subrange(x as int, len as int);
        assert(after@ =~= nl);
        self.replace_line(y, before);
        self.lines.insert(y + 1, after);
        proof {
            let u = ls.update(y as int, ls[y as int].subrange(0, x as int));
            assert(self.text() =~= u.insert(y + 1, nl));
            assert(self.text() =~= newline_text(ls, x + 1, y + 1, carried as int));
            lemma_text_size_update(ls, y as int, ls[y as int].subrange(0, x as int));
            lemma_text_size_insert(u, y + 1, nl);
            let nt = self.text();
            lemma_wrap_prefix(ls, nt, y as int, self.width());
            if self.window_top.y <= self.caret.y {
                lemma_wrap_prefix(ls, nt, self.window_top.y - 1, self.width());
            }
        }
        self.fit_top(self.caret.y);
        self.move_cursor_right(dim);
        proof {
            lemma_row_bound(self.text(), self.caret.y as int, 1);
        }
        self.caret.x = self.caret.x + carried;
        self.display_dirty = true;
        self.contents_dirty = true;
    }

    /// The selected text, from the earlier end to the later one.
    pub open spec fn selection_text(&self) -> Seq<char> {
        match self.selection_start {
            Some(a) => span_text(
                self.text(),
                earlier(pos_of(a), pos_of(self.caret)),
                later(pos_of(a), pos_of(self.caret)),
            ),
            None => Seq::empty(),
        }
    }

    /// The selected text; empty where there is no selection.
    pub fn selected_text(&self) -> (r: String)
        requires
            self.wf(),
        ensures
            r@ == self.selection_text(),
    {
        match &self.selection_start {
            Some(sel) => {
                let ghost ls = self.text();
                let (start, end) = if sel.is_before(&self.caret) {
                    (sel, &self.caret)
                } else {
                    (&self.caret, sel)
                };
                let sy = (start.y - 1) as usize;
                let ey = (end.y - 1) as usize;
                let sx = (start.x - 1) as usize;
                let ex = (end.x - 1) as usize;
                assert(self.lines@[sy as int]@ == ls[sy as int]);
                proof {
                    lemma_rows_joined_len(ls, sy as int, sy as int);
                    lemma_text_size_nonneg(ls);
                }
                let first_len = char_len(&self.lines[sy]);
                let mut result = slice(&self.lines[sy], sx, first_len);
                let mut row = sy + 1;
                while row <= ey
                    invariant
                        sy < row <= ey + 1,
                        ey < ls.len(),
                        ey < self.lines@.len(),
                        self.lines@.len() <= MAX_TEXT,
                        ls == self.text(),
                        sx <= ls[sy as int].len(),
                        result@ == rows_joined(ls, sy as int, row - 1).subrange(
                            sx as int,
                            rows_joined(ls, sy as int, row - 1).len() as int,
                        ),
                    decreases ey + 1 - row,
                {
                    proof {
                        lemma_rows_joined_len(ls, sy as int, row - 1);
                    }
                    let ghost j = rows_joined(ls, sy as int, row - 1);
                    push_char(&mut result, '\n');
                    result.append(self.lines[row].as_str());
                    assert(self.lines@[row as int]@ == ls[row as int]);
                    assert(rows_joined(ls, sy as int, row as int) == j + seq!['\n']
                        + ls[row as int]);
                    assert(result@ =~= (j + seq!['\n'] + ls[row as int]).subrange(
                        sx as int,
                        (j + seq!['\n'] + ls[row as int]).len() as int,
                    ));
                    row = row + 1;
                }
                proof {
                    lemma_rows_joined_len(ls, sy as int, ey as int);
                    if ey > sy {
                        lemma_rows_joined_len(ls, sy as int, ey - 1);
                        assert(rows_joined(ls, sy as int, ey as int).len() == rows_joined(
                            ls,
                            sy as int,
                            ey - 1,
                        ).len() + 1 + ls[ey as int].len());
                    }
                }
                let last_len = char_len(&self.lines[ey]);
                assert(self.lines@[ey as int]@ == ls[ey as int]);
                let keep = result.as_str().unicode_len() - (last_len - ex);
                let r = slice(&result, 0, keep);
                proof {
                    let full = rows_joined(ls, sy as int, ey as int);
                    assert(r@ =~= full.subrange(sx as int, full.len() - (last_len - ex)));
                }
                r
            },
            None => String::new(),
        }
    }

    /// The selection as its earlier and later end.
    pub open spec fn selection_span(&self) -> Option<((int, int), (int, int))> {
        match self.selection_start {
            Some(a) => Some(
                (earlier(pos_of(a), pos_of(self.caret)), later(pos_of(a), pos_of(self.caret))),
            ),
            None => None,
        }
    }

    /// Splits one screen row of line `line_number` into plain and selected
    /// pieces.
    fn chunk(&self, line_number: usize, line: String, offset: usize, partial: bool) -> (r: Vec<
        TextChunk,
    >)
        requires
            self.wf(),
            offset + line@.len() <= MAX_TEXT,
        ensures
            r@.map_values(|c: TextChunk| chunk_view(c)) == chunks_of(
                self.selection_span(),
                line_number as int,
                line@,
                offset as int,
                partial,
            ),
    {
        let ghost seg = line@;
        let ghost expected = chunks_of(
            self.selection_span(),
            line_number as int,
            seg,
            offset as int,
            partial,
        );
        let mut result: Vec<TextChunk> = Vec::new();
        if let Some(sel) = &self.selection_start {
            let (start, end) = if sel.is_before(&self.caret) {
                (sel, &self.caret)
            } else {
                (&self.caret, sel)
            };
            let sx = (start.x - 1) as usize;
            let ex = (end.x - 1) as usize;
            let sy = (start.y - 1) as usize;
            let ey = (end.y - 1) as usize;
            if line_number >= sy && line_number <= ey {
                let mut body = line;
                let mut last: Option<TextChunk> = None;
                let len = char_len(&body);
                let cut_tail = line_number == ey && offset + len >= ex;
                if cut_tail {
                    let cut = if ex < offset {
                        0
                    } else {
                        ex - offset
                    };
                    let tail = slice(&body, cut, len);
                    body = slice(&body, 0, cut);
                    last = Some(
                        TextChunk {
                            contents: tail,
                            foreground: Color::Reset,
                            background: Color::Reset,
                        },
                    );
                } else if !partial {
                    push_char(&mut body, ' ');
                }
                let ghost whole = body@;
                let cut_head = line_number == sy && offset < sx;
                if cut_head {
                    let body_len = char_len(&body);
                    let split = if body_len < sx - offset {
                        body_len
                    } else {
                        sx - offset
                    };
                    let before = slice(&body, 0, split);
                    let rest = slice(&body, split, body_len);
                    result.push(
                        TextChunk {
                            contents: before,
                            foreground: Color::Reset,
                            background: Color::Reset,
                        },
                    );
                    body = rest;
                }
                result.push(
                    TextChunk { contents: body, foreground: Color::Black,
                        background: Color::White },
                );
                if let Some(c) = last {
                    result.push(c);
                }
                proof {
                    if !cut_head {
                        assert(whole.subrange(0, whole.len() as int) =~= whole);
                    }
                    assert(result@.map_values(|c: TextChunk| chunk_view(c)) =~= expected);
                }
                return result;
            }
        }
        result.push(TextChunk { contents: line, foreground: Color::Reset,
            background: Color::Reset });
        proof {
            assert(result@.map_values(|c: TextChunk| chunk_view(c)) =~= expected);
        }
        result
    }

    /// The visible screen rows at viewport size `dim`, from the viewport's
    /// first position on: each row's pieces, and the line number on the first
    /// row of each line.
    pub fn chunked_text(&self, dim: (i32, i32)) -> (r: Vec<(Option<u16>, Vec<TextChunk>)>)
        requires
            self.wf(),
            dim.0 >= 1,
        ensures
            ({
                let w = dim.0 as int;
                let extra = (self.window_top.x - 1) / w;
                let height = if dim.1 < 0 {
                    0
                } else {
                    dim.1 as int
                };
                r@.map_values(|row: (Option<u16>, Vec<TextChunk>)| row_view(row)) == clip(
                    rows_between(
                        self.selection_span(),
                        self.text(),
                        self.window_top.y - 1,
                        self.lines@.len() as int,
                        w,
                    ),
                    extra,
                    height + extra,
                )
            }),
    {
        let ghost ls = self.text();
        let ghost sel = self.selection_span();
        let ghost w = dim.0 as int;
        let width = dim.0 as usize;
        let top_y = (self.window_top.y - 1) as usize;
        proof {
            lemma_floor(self.window_top.x - 1, w);
        }
        let top_extra = ((self.window_top.x - 1) / dim.0) as usize;
        let height: usize = if dim.1 < 0 {
            0
        } else {
            dim.1 as usize
        };
        let mut result: Vec<(Option<u16>, Vec<TextChunk>)> = Vec::new();
        let limit: u64 = height as u64 + top_extra as u64;
        let extra: u64 = top_extra as u64;
        let mut produced: u64 = 0;
        let mut line_number = top_y;
        proof {
            lemma_text_size_nonneg(ls);
            assert(rows_between(sel, ls, top_y as int, top_y as int, w).len() == 0);
            assert(result@.map_values(|row: (Option<u16>, Vec<TextChunk>)| row_view(row))
                =~= clip(rows_between(sel, ls, top_y as int, top_y as int, w), extra as int,
                    limit as int));
        }
        while line_number < self.lines.len() && produced < limit
            invariant
                top_y <= line_number <= self.lines@.len(),
                ls == self.text(),
                ls.len() == self.lines@.len(),
                self.wf(),
                w == dim.0,
                width == dim.0,
                1 <= width,
                sel == self.selection_span(),
                limit < 0x1_0000_0000,
                extra <= limit,
                produced <= limit + MAX_TEXT,
                produced == rows_between(sel, ls, top_y as int, line_number as int, w).len(),
                result@.map_values(|row: (Option<u16>, Vec<TextChunk>)| row_view(row)) == clip(
                    rows_between(sel, ls, top_y as int, line_number as int, w),
                    extra as int,
                    limit as int,
                ),
            decreases self.lines@.len() - line_number,
        {
            let raw = &self.lines[line_number];
            let len = char_len(raw);
            let ghost line = ls[line_number as int];
            assert(raw@ == line);
            proof {
                lemma_row_bound(ls, line_number + 1, 1);
            }
            let count = len / width + 1;
            let ghost before = rows_between(sel, ls, top_y as int, line_number as int, w);
            let ghost lr = line_rows(sel, ls, line_number as int, w);
            assert(count as int == lr.len());
            let mut k: usize = 0;
            assert(before + lr.take(0) =~= before);
            while k < count
                invariant
                    0 <= k <= count,
                    count as int == lr.len(),
                    count as int == segment_count(len as int, w),
                    len == line.len(),
                    raw@ == line,
                    line == ls[line_number as int],
                    line_number < ls.len(),
                    len <= MAX_TEXT,
                    ls == self.text(),
                    self.wf(),
                    w == dim.0,
                    width == dim.0,
                    1 <= width,
                    sel == self.selection_span(),
                    limit < 0x1_0000_0000,
                    extra <= limit,
                    produced <= limit + k,
                    k <= len + 1,
                    produced == (before + lr.take(k as int)).len(),
                    lr == line_rows(sel, ls, line_number as int, w),
                    result@.map_values(|row: (Option<u16>, Vec<TextChunk>)| row_view(row)) == clip(
                        before + lr.take(k as int),
                        extra as int,
                        limit as int,
                    ),
                decreases count - k,
            {
                proof {
                    lemma_segment_start(len as int, w, k as int);
                    assert((k + 1) * w == k * w + w) by (nonlinear_arith);
                }
                let start = k * width;
                let end = if len - start < width {
                    len
                } else {
                    start + width
                };
                let seg = slice(raw, start, end);
                let chunks = self.chunk(line_number, seg, start, k + 1 < count);
                let ghost old_view = result@.map_values(
                    |row: (Option<u16>, Vec<TextChunk>)| row_view(row),
                );
                let ghost r0 = before + lr.take(k as int);
                let ghost r1 = before + lr.take(k + 1);
                assert(r1 =~= r0.push(lr[k as int]));
                if produced >= extra && produced < limit {
                    let label = if k == 0 {
                        Some(#[verifier::truncate] (line_number as u16))
                    } else {
                        None
                    };
                    let ghost cv = chunks@.map_values(|c: TextChunk| chunk_view(c));
                    result.push((label, chunks));
                    proof {
                        assert(seg@ == line.subrange(
                            k * w,
                            min((k + 1) * w, len as int),
                        ));
                        assert(cv == lr[k as int].1);
                        assert(label == lr[k as int].0);
                        assert(row_view(result@[result@.len() - 1]) == lr[k as int]);
                        assert(result@.map_values(
                            |row: (Option<u16>, Vec<TextChunk>)| row_view(row),
                        ) =~= old_view.push(lr[k as int]));
                        assert(clip(r1, extra as int, limit as int) =~= clip(
                            r0,
                            extra as int,
                            limit as int,
                        ).push(lr[k as int]));
                    }
                } else {
                    proof {
                        assert(clip(r1, extra as int, limit as int) =~= clip(
                            r0,
                            extra as int,
                            limit as int,
                        ));
                    }
                }
                produced = produced + 1;
                k = k + 1;
            }
            proof {
                assert(lr.take(count as int) =~= lr);
                assert(rows_between(sel, ls, top_y as int, line_number + 1, w) == before + lr);
            }
            line_number = line_number + 1;
        }
        proof {
            let all = rows_between(sel, ls, top_y as int, ls.len() as int, w);
            lemma_rows_between_split(sel, ls, top_y as int, line_number as int, ls.len() as int, w);
            let part = rows_between(sel, ls, top_y as int, line_number as int, w);
            assert(clip(part, extra as int, limit as int) =~= clip(all, extra as int,
                limit as int));
        }
        result
    }

    /// Moves the caret to the end of the indentation, to column 1 from
    /// there, or to the start of a later screen row of the line.
    pub fn move_cursor_home(&mut self, dim: (i32, i32))
        requires
            old(self).wf(),
            dim.0 >= 1,
        ensures
            final(self).after_home(old(self), dim),
    {
        self.tweak_selection();
        self.recompute_offsets(dim);
        let w = self.tab_width();
        self.caret.move_home(dim, &self.lines, w);
    }

    /// Moves the caret to the end of its screen row.
    pub fn move_cursor_end(&mut self, dim: (i32, i32))
        requires
            old(self).wf(),
            dim.0 >= 1,
        ensures
            final(self).after_end(old(self), dim),
    {
        self.tweak_selection();
        self.recompute_offsets(dim);
        self.caret.move_end(dim, &self.lines);
    }
}

} // verus!
