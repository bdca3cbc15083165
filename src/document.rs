//! The text of a file as lines: reading it in, and writing it out on save.
use vstd::prelude::*;
use crate::text::{blank, is_blank, push_char, slice, char_len};
use crate::file::lines_view;

verus! {

/// `l` without one carriage return at its end.
pub open spec fn strip_cr(l: Seq<char>) -> Seq<char> {
    if l.len() > 0 && l.last() == '\r' {
        l.drop_last()
    } else {
        l
    }
}

/// The lines completed so far in `t`, and the line still open at its end.
pub open spec fn scan_lines(t: Seq<char>) -> (Seq<Seq<char>>, Seq<char>)
    decreases t.len(),
{
    if t.len() == 0 {
        (Seq::empty(), Seq::empty())
    } else {
        let (done, cur) = scan_lines(t.drop_last());
        if t.last() == '\n' {
            (done.push(strip_cr(cur)), Seq::empty())
        } else {
            (done, cur.push(t.last()))
        }
    }
}

/// The lines of `t`, as `BufRead::lines` reads them: split at each line
/// feed, a carriage return before it dropped, and no empty line after a final
/// line feed.
pub open spec fn read_lines(t: Seq<char>) -> Seq<Seq<char>> {
    let (done, cur) = scan_lines(t);
    if cur.len() > 0 {
        done.push(cur)
    } else {
        done
    }
}

/// `s` without its trailing whitespace.
pub open spec fn trim_end_of(s: Seq<char>) -> Seq<char>
    decreases s.len(),
{
    if s.len() > 0 && is_blank(s.last()) {
        trim_end_of(s.drop_last())
    } else {
        s
    }
}

/// The lines of `ls` with `sep` between each two.
pub open spec fn join_with(ls: Seq<Seq<char>>, sep: Seq<char>) -> Seq<char>
    decreases ls.len(),
{
    if ls.len() == 0 {
        Seq::empty()
    } else if ls.len() == 1 {
        ls[0]
    } else {
        join_with(ls.drop_last(), sep) + sep + ls.last()
    }
}

/// What a save writes: the lines, trimmed where `trim` says so, joined by
/// `sep`, with `sep` once more at the end where `final_sep` says so.
pub open spec fn saved_text(ls: Seq<Seq<char>>, sep: Seq<char>, trim: bool, final_sep: bool) -> Seq<
    char,
> {
    let body = if trim {
        ls.map_values(|l: Seq<char>| trim_end_of(l))
    } else {
        ls
    };
    join_with(body, sep) + if final_sep && ls.len() > 0 {
        sep
    } else {
        Seq::empty()
    }
}

/// Splits `text` into lines.
pub fn split_lines(text: &str) -> (r: Vec<String>)
    ensures
        lines_view(r@) == read_lines(text@),
{
    let mut result: Vec<String> = Vec::new();
    let mut cur = String::new();
    for c in it: text.chars()
        invariant
            it.seq() == text@,
            0 <= it.index() <= text@.len(),
            scan_lines(text@.take(it.index() as int)) == (lines_view(result@), cur@),
    {
        let ghost i = it.index() as int;
        proof {
            assert(text@.take(i + 1).drop_last() =~= text@.take(i));
            assert(text@.take(i + 1).last() == c);
        }
        if c == '\n' {
            let n = char_len(&cur);
            if n > 0 && cur.as_str().get_char(n - 1) == '\r' {
                cur = slice(&cur, 0, n - 1);
            }
            let ghost before = result@;
            result.push(cur);
            cur = String::new();
            proof {
                assert(lines_view(result@) =~= lines_view(before).push(result@.last()@));
            }
        } else {
            push_char(&mut cur, c);
        }
    }
    proof {
        assert(text@.take(text@.len() as int) =~= text@);
    }
    if char_len(&cur) > 0 {
        let ghost before = result@;
        result.push(cur);
        proof {
            assert(lines_view(result@) =~= lines_view(before).push(result@.last()@));
        }
    }
    result
}

/// Removes the trailing whitespace of `s`.
pub fn trim_end(s: &String) -> (r: String)
    ensures
        r@ == trim_end_of(s@),
{
    let mut k = char_len(s);
    proof {
        assert(s@.subrange(0, k as int) =~= s@);
    }
    while k > 0 && blank(s.as_str().get_char(k - 1))
        invariant
            k <= s@.len(),
            trim_end_of(s@) == trim_end_of(s@.subrange(0, k as int)),
        decreases k,
    {
        proof {
            let p = s@.subrange(0, k as int);
            assert(p.drop_last() =~= s@.subrange(0, k - 1));
        }
        k = k - 1;
    }
    slice(s, 0, k)
}

/// Lines that end in a line feed, one after another.
pub open spec fn terminated(ls: Seq<Seq<char>>) -> Seq<char>
    decreases ls.len(),
{
    if ls.len() == 0 {
        Seq::empty()
    } else {
        terminated(ls.drop_last()) + ls.last() + seq!['\n']
    }
}

/// No carriage return stands right before a line feed.
pub open spec fn no_crlf(t: Seq<char>) -> bool {
    forall|i: int| 0 <= i < t.len() - 1 ==> !(#[trigger] t[i] == '\r' && t[i + 1] == '\n')
}

proof fn lemma_scan_rebuilds(t: Seq<char>)
    requires
        no_crlf(t),
    ensures
        terminated(scan_lines(t).0) + scan_lines(t).1 == t,
    decreases t.len(),
{
    if t.len() > 0 {
        let q = t.drop_last();
        assert(no_crlf(q)) by {
            assert forall|i: int| 0 <= i < q.len() - 1 implies !(#[trigger] q[i] == '\r' && q[i + 1]
                == '\n') by {
                assert(q[i] == t[i] && q[i + 1] == t[i + 1]);
            }
        }
        lemma_scan_rebuilds(q);
        let (done, cur) = scan_lines(q);
        if t.last() == '\n' {
            if cur.len() > 0 {
                assert(q =~= terminated(done) + cur);
                assert(q.last() == cur.last());
                assert(t[t.len() - 2] == q.last());
                assert(cur.last() != '\r');
            }
            assert(strip_cr(cur) == cur);
            let nd = done.push(cur);
            assert(nd.drop_last() =~= done);
            assert(terminated(nd) + Seq::<char>::empty() =~= t);
        } else {
            assert(t =~= q.push(t.last()));
            assert(q == terminated(done) + cur);
            assert(terminated(done) + cur.push(t.last()) =~= t);
        }
    }
}

proof fn lemma_terminated_join(ls: Seq<Seq<char>>)
    requires
        ls.len() > 0,
    ensures
        terminated(ls) == join_with(ls, seq!['\n']) + seq!['\n'],
    decreases ls.len(),
{
    if ls.len() == 1 {
        assert(ls.drop_last() =~= Seq::<Seq<char>>::empty());
        assert(terminated(ls.drop_last()) == Seq::<char>::empty());
        assert(ls.last() == ls[0]);
        assert(terminated(ls) =~= ls[0] + seq!['\n']);
    } else {
        lemma_terminated_join(ls.drop_last());
        assert(terminated(ls) =~= join_with(ls, seq!['\n']) + seq!['\n']);
    }
}

/// Reading a text that ends in a line feed and holds no carriage return
/// before a line feed, then saving it untrimmed, with line feeds and a final
/// one, gives back the same text.
pub proof fn lemma_read_save_round_trip(t: Seq<char>)
    requires
        t.len() > 0,
        t.last() == '\n',
        no_crlf(t),
    ensures
        read_lines(t).len() > 0,
        saved_text(read_lines(t), seq!['\n'], false, true) == t,
{
    lemma_scan_rebuilds(t);
    let (done, cur) = scan_lines(t);
    assert(scan_lines(t).1.len() == 0);
    assert(read_lines(t) == done);
    assert(done.len() > 0) by {
        if done.len() == 0 {
            assert(terminated(done) + cur =~= Seq::<char>::empty());
        }
    }
    lemma_terminated_join(done);
}

} // verus!
