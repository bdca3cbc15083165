//! Leading indentation of a line of text.
use vstd::prelude::*;
use crate::text::{blank, is_blank, slice, char_len};

verus! {

/// Number of whitespace characters at the start of `s`.
pub open spec fn leading_blanks(s: Seq<char>) -> nat
    decreases s.len(),
{
    if s.len() > 0 && is_blank(s[0]) {
        1 + leading_blanks(s.drop_first())
    } else {
        0
    }
}

/// End of the indentation of `s`: its leading whitespace, rounded down to a
/// multiple of `width`; `None` where that is zero.
pub open spec fn indent_end_of(s: Seq<char>, width: int) -> Option<int> {
    let lead = leading_blanks(s) as int;
    let end = lead - lead % width;
    if end > 0 {
        Some(end)
    } else {
        None
    }
}

/// `s` with the last indentation unit of its indentation removed; unchanged
/// where it has no indentation.
pub open spec fn pop_indent_of(s: Seq<char>, width: int) -> Seq<char> {
    match indent_end_of(s, width) {
        Some(end) => s.subrange(0, end - width) + s.subrange(end, s.len() as int),
        None => s,
    }
}

pub proof fn lemma_leading_blanks_bound(s: Seq<char>)
    ensures
        leading_blanks(s) <= s.len(),
        forall|j: int| 0 <= j < leading_blanks(s) ==> is_blank(#[trigger] s[j]),
        leading_blanks(s) < s.len() ==> !is_blank(s[leading_blanks(s) as int]),
    decreases s.len(),
{
    if s.len() > 0 && is_blank(s[0]) {
        lemma_leading_blanks_bound(s.drop_first());
        assert forall|j: int| 0 <= j < leading_blanks(s) implies is_blank(#[trigger] s[j]) by {
            if j > 0 {
                assert(s[j] == s.drop_first()[j - 1]);
            }
        }
    }
}

/// An indentation end is a positive multiple of the width within the line,
/// and removing a unit shortens the line by the width.
pub proof fn lemma_indent_end_facts(s: Seq<char>, w: int)
    requires
        w >= 1,
    ensures
        indent_end_of(s, w) is Some ==> {
            let e = indent_end_of(s, w)->0;
            &&& w <= e <= s.len()
            &&& pop_indent_of(s, w).len() == s.len() - w
        },
        indent_end_of(s, w) is None ==> pop_indent_of(s, w) == s,
{
    lemma_leading_blanks_bound(s);
    let lead = leading_blanks(s) as int;
    let e = lead - lead % w;
    vstd::arithmetic::div_mod::lemma_fundamental_div_mod(lead, w);
    vstd::arithmetic::div_mod::lemma_mod_bound(lead, w);
    if e > 0 {
        assert(e == w * (lead / w));
        vstd::arithmetic::div_mod::lemma_div_pos_is_pos(lead, w);
        assert(lead / w >= 1) by (nonlinear_arith)
            requires
                e == w * (lead / w),
                e > 0,
                w >= 1,
                lead / w >= 0,
        ;
        assert(e >= w) by (nonlinear_arith)
            requires
                e == w * (lead / w),
                lead / w >= 1,
                w >= 1,
        ;
    }
}

proof fn lemma_leading_blanks_split(s: Seq<char>, i: int)
    requires
        0 <= i <= s.len(),
        forall|j: int| 0 <= j < i ==> is_blank(#[trigger] s[j]),
    ensures
        leading_blanks(s) == i + leading_blanks(s.subrange(i, s.len() as int)),
    decreases i,
{
    if i > 0 {
        assert(s.drop_first().subrange(i - 1, s.drop_first().len() as int) =~= s.subrange(
            i,
            s.len() as int,
        ));
        assert forall|j: int| 0 <= j < i - 1 implies is_blank(#[trigger] s.drop_first()[j]) by {
            assert(s.drop_first()[j] == s[j + 1]);
        }
        lemma_leading_blanks_split(s.drop_first(), i - 1);
    } else {
        assert(s.subrange(0, s.len() as int) =~= s);
    }
}

/// Counts the whitespace characters at the start of `s`.
pub fn count_leading_blanks(s: &String) -> (r: usize)
    ensures
        r == leading_blanks(s@),
{
    let n = char_len(s);
    let text = s.as_str();
    let mut i: usize = 0;
    while i < n && blank(text.get_char(i))
        invariant
            i <= n,
            n == s@.len(),
            text@ == s@,
            forall|j: int| 0 <= j < i ==> is_blank(#[trigger] s@[j]),
        decreases n - i,
    {
        i = i + 1;
    }
    proof {
        lemma_leading_blanks_split(s@, i as int);
        let rest = s@.subrange(i as int, s@.len() as int);
        if i < n {
            assert(rest[0] == s@[i as int]);
        }
    }
    i
}

/// Indentation-aware operations on a line of text.
pub trait Indented {
    /// The characters of the line.
    spec fn chars(&self) -> Seq<char>;

    /// The end of the line's indentation, counted in characters and rounded
    /// down to a multiple of `indent_size`; `None` where the line has none.
    fn indent_end(&self, indent_size: u8) -> (r: Option<i32>)
        requires
            indent_size >= 1,
            self.chars().len() <= i32::MAX,
        ensures
            match r {
                Some(e) => indent_end_of(self.chars(), indent_size as int) == Some(e as int),
                None => indent_end_of(self.chars(), indent_size as int) is None,
            },
            r matches Some(e) ==> 0 < e <= self.chars().len(),
    ;

    /// Removes one indentation unit from the end of the line's indentation.
    fn pop_indentation(&mut self, indent_size: u8)
        requires
            indent_size >= 1,
            old(self).chars().len() <= i32::MAX,
        ensures
            final(self).chars() == pop_indent_of(old(self).chars(), indent_size as int),
    ;
}

impl Indented for String {
    open spec fn chars(&self) -> Seq<char> {
        self@
    }

    fn indent_end(&self, indent_size: u8) -> (r: Option<i32>) {
        let lead = count_leading_blanks(self);
        proof {
            lemma_leading_blanks_bound(self@);
        }
        let w = indent_size as usize;
        assert(lead % w <= lead) by (nonlinear_arith)
            requires
                w >= 1,
        ;
        let end = lead - lead % w;
        if end > 0 {
            Some(end as i32)
        } else {
            None
        }
    }

    fn pop_indentation(&mut self, indent_size: u8) {
        if let Some(end) = self.indent_end(indent_size) {
            let end = end as usize;
            let w = indent_size as usize;
            proof {
                let lead = leading_blanks(old(self)@) as int;
                assert(lead % (w as int) < w as int);
                assert(end as int == lead - lead % (w as int));
                assert(end as int % (w as int) == 0) by (nonlinear_arith)
                    requires
                        end as int == lead - lead % (w as int),
                        w >= 1,
                        lead >= 0,
                ;
                assert(end >= w) by (nonlinear_arith)
                    requires
                        end as int % (w as int) == 0,
                        end > 0,
                        w >= 1,
                ;
            }
            let n = char_len(self);
            let mut head = slice(self, 0, end - w);
            let tail = slice(self, end, n);
            head.append(tail.as_str());
            *self = head;
        }
    }
}

} // verus!
