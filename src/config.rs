//! Per-file editor settings, resolved from `key = value` pairs.
use vstd::prelude::*;
use crate::text::{parse_u8, same_text, push_repeat, repeat, unsigned_value};

verus! {

pub enum IndentStyle {
    Tab,
    Space,
}

pub enum IndentSize {
    Size(u8),
    Tab,
}

pub enum EndOfLine {
    Lf,
    CrLf,
    Cr,
}

pub enum Charset {
    Latin1,
    UTF8,
    UTF16BE,
    UTF16LE,
}

pub struct Config {
    pub indent_style: IndentStyle,
    pub indent_size: IndentSize,
    pub tab_width: u8,
    pub end_of_line: EndOfLine,
    pub charset: Charset,
    pub trim_trailing_whitespace: bool,
    pub insert_final_newline: bool,
}

/// The value given to `key` in `entries`: the first pair that names it.
pub open spec fn setting(entries: Seq<(Seq<char>, Seq<char>)>, key: Seq<char>) -> Option<
    Seq<char>,
>
    decreases entries.len(),
{
    if entries.len() == 0 {
        None
    } else if entries[0].0 == key {
        Some(entries[0].1)
    } else {
        setting(entries.drop_first(), key)
    }
}

pub open spec fn pairs_view(entries: Seq<(String, String)>) -> Seq<(Seq<char>, Seq<char>)> {
    entries.map_values(|p: (String, String)| (p.0@, p.1@))
}

/// A positive width read from `v`, as a `u8`.
pub open spec fn width_value(v: Seq<char>) -> Option<u8> {
    match unsigned_value(v) {
        Some(n) => if 1 <= n <= 255 {
            Some(n as u8)
        } else {
            None
        },
        None => None,
    }
}

/// Which of two recognised words `v` is: `Some(true)` for the first,
/// `Some(false)` for the second.
pub open spec fn choice(v: Option<Seq<char>>, yes: Seq<char>, no: Seq<char>) -> Option<bool> {
    match v {
        Some(t) => if t == yes {
            Some(true)
        } else if t == no {
            Some(false)
        } else {
            None
        },
        None => None,
    }
}

pub open spec fn style_for(entries: Seq<(Seq<char>, Seq<char>)>) -> IndentStyle {
    match choice(setting(entries, "indent_style"@), "tab"@, "space"@) {
        Some(true) => IndentStyle::Tab,
        _ => IndentStyle::Space,
    }
}

pub open spec fn size_for(entries: Seq<(Seq<char>, Seq<char>)>) -> IndentSize {
    match setting(entries, "indent_size"@) {
        Some(v) => if v == "tab"@ {
            IndentSize::Tab
        } else {
            match width_value(v) {
                Some(n) => IndentSize::Size(n),
                None => IndentSize::Size(4),
            }
        },
        None => IndentSize::Size(4),
    }
}

pub open spec fn tab_width_for(entries: Seq<(Seq<char>, Seq<char>)>) -> u8 {
    match setting(entries, "tab_width"@) {
        Some(v) => match width_value(v) {
            Some(n) => n,
            None => 4u8,
        },
        None => 4u8,
    }
}

pub open spec fn end_of_line_for(entries: Seq<(Seq<char>, Seq<char>)>) -> EndOfLine {
    match setting(entries, "end_of_line"@) {
        Some(v) => if v == "cr"@ {
            EndOfLine::Cr
        } else if v == "crlf"@ {
            EndOfLine::CrLf
        } else {
            EndOfLine::Lf
        },
        None => EndOfLine::Lf,
    }
}

pub open spec fn charset_for(entries: Seq<(Seq<char>, Seq<char>)>) -> Charset {
    match setting(entries, "charset"@) {
        Some(v) => if v == "latin1"@ {
            Charset::Latin1
        } else if v == "utf-16be"@ {
            Charset::UTF16BE
        } else if v == "utf-16le"@ {
            Charset::UTF16LE
        } else {
            Charset::UTF8
        },
        None => Charset::UTF8,
    }
}

/// A `true` / `false` setting, `true` where it is absent or unrecognised.
pub open spec fn flag_for(entries: Seq<(Seq<char>, Seq<char>)>, key: Seq<char>) -> bool {
    match choice(setting(entries, key), "true"@, "false"@) {
        Some(b) => b,
        None => true,
    }
}

impl Config {
    /// The settings of a file with no configuration.
    pub open spec fn is_default(self) -> bool {
        &&& self.indent_style is Space
        &&& self.indent_size == IndentSize::Size(4)
        &&& self.tab_width == 4
        &&& self.end_of_line is Lf
        &&& self.charset is UTF8
        &&& self.trim_trailing_whitespace
        &&& self.insert_final_newline
    }

    /// The settings resolved from `entries`: each recognised value replaces
    /// the default, anything else leaves it.
    pub open spec fn resolves(self, entries: Seq<(Seq<char>, Seq<char>)>) -> bool {
        &&& self.indent_style == style_for(entries)
        &&& self.indent_size == size_for(entries)
        &&& self.tab_width == tab_width_for(entries)
        &&& self.end_of_line == end_of_line_for(entries)
        &&& self.charset == charset_for(entries)
        &&& self.trim_trailing_whitespace == flag_for(entries, "trim_trailing_whitespace"@)
        &&& self.insert_final_newline == flag_for(entries, "insert_final_newline"@)
    }

    /// Number of characters in one indentation unit.
    pub open spec fn indent_width(self) -> int {
        match self.indent_style {
            IndentStyle::Tab => 1,
            IndentStyle::Space => match self.indent_size {
                IndentSize::Tab => self.tab_width as int,
                IndentSize::Size(n) => n as int,
            },
        }
    }

    /// One indentation unit: a tab, or as many spaces as the indent size.
    pub open spec fn indent_text(self) -> Seq<char> {
        match self.indent_style {
            IndentStyle::Tab => seq!['\t'],
            IndentStyle::Space => repeat(' ', self.indent_width() as nat),
        }
    }

    /// The widths are positive.
    pub open spec fn wf(self) -> bool {
        &&& 1 <= self.tab_width
        &&& self.indent_size matches IndentSize::Size(n) ==> 1 <= n
    }

    /// Resolves the settings of a file from the `key = value` pairs that its
    /// configuration gives; `None` stands for a buffer that has no file.
    pub fn config_for(settings: Option<&Vec<(String, String)>>) -> (r: Config)
        ensures
            r.wf(),
            settings is None ==> r.is_default(),
            settings matches Some(e) ==> r.resolves(pairs_view(e@)),
    {
        match settings {
            None => Config {
                indent_style: IndentStyle::Space,
                indent_size: IndentSize::Size(4),
                tab_width: 4,
                end_of_line: EndOfLine::Lf,
                charset: Charset::UTF8,
                trim_trailing_whitespace: true,
                insert_final_newline: true,
            },
            Some(entries) => Config {
                indent_style: resolve_style(entries),
                indent_size: resolve_size(entries),
                tab_width: resolve_tab_width(entries),
                end_of_line: resolve_end_of_line(entries),
                charset: resolve_charset(entries),
                trim_trailing_whitespace: resolve_flag(entries, "trim_trailing_whitespace"),
                insert_final_newline: resolve_flag(entries, "insert_final_newline"),
            },
        }
    }

    /// One indentation unit as text.
    pub fn indent(&self) -> (r: String)
        ensures
            r@ == self.indent_text(),
    {
        match self.indent_style {
            IndentStyle::Tab => {
                let mut s = String::new();
                crate::text::push_char(&mut s, '\t');
                assert(s@ =~= seq!['\t']);
                s
            },
            IndentStyle::Space => {
                let spaces = match self.indent_size {
                    IndentSize::Tab => self.tab_width,
                    IndentSize::Size(n) => n,
                } as usize;
                let mut s = String::new();
                push_repeat(&mut s, ' ', spaces);
                assert(s@ =~= repeat(' ', spaces as nat));
                s
            },
        }
    }

    /// Number of characters in one indentation unit.
    pub fn indent_len(&self) -> (r: u8)
        ensures
            r as int == self.indent_width(),
    {
        match self.indent_style {
            IndentStyle::Tab => 1,
            IndentStyle::Space => match self.indent_size {
                IndentSize::Tab => self.tab_width,
                IndentSize::Size(n) => n,
            },
        }
    }

    /// The text that ends each line on save.
    pub fn line_sep(&self) -> (r: &'static str)
        ensures
            r@ == match self.end_of_line {
                EndOfLine::Lf => seq!['\n'],
                EndOfLine::CrLf => seq!['\r', '\n'],
                EndOfLine::Cr => seq!['\r'],
            },
    {
        proof {
            reveal_strlit("\n");
            reveal_strlit("\r\n");
            reveal_strlit("\r");
        }
        match self.end_of_line {
            EndOfLine::Lf => "\n",
            EndOfLine::CrLf => "\r\n",
            EndOfLine::Cr => "\r",
        }
    }
}

fn resolve_style(entries: &Vec<(String, String)>) -> (r: IndentStyle)
    ensures
        r == style_for(pairs_view(entries@)),
{
    if let Some(style) = lookup(entries, "indent_style") {
        if same_text(style.as_str(), "tab") {
            return IndentStyle::Tab;
        }
    }
    IndentStyle::Space
}

fn resolve_size(entries: &Vec<(String, String)>) -> (r: IndentSize)
    ensures
        r == size_for(pairs_view(entries@)),
        r matches IndentSize::Size(n) ==> 1 <= n,
{
    if let Some(size) = lookup(entries, "indent_size") {
        if same_text(size.as_str(), "tab") {
            return IndentSize::Tab;
        } else if let Some(n) = parse_width(size.as_str()) {
            return IndentSize::Size(n);
        }
    }
    IndentSize::Size(4)
}

fn resolve_tab_width(entries: &Vec<(String, String)>) -> (r: u8)
    ensures
        r == tab_width_for(pairs_view(entries@)),
        1 <= r,
{
    if let Some(width) = lookup(entries, "tab_width") {
        if let Some(n) = parse_width(width.as_str()) {
            return n;
        }
    }
    4
}

fn resolve_end_of_line(entries: &Vec<(String, String)>) -> (r: EndOfLine)
    ensures
        r == end_of_line_for(pairs_view(entries@)),
{
    if let Some(eol) = lookup(entries, "end_of_line") {
        if same_text(eol.as_str(), "cr") {
            return EndOfLine::Cr;
        } else if same_text(eol.as_str(), "crlf") {
            return EndOfLine::CrLf;
        }
    }
    EndOfLine::Lf
}

fn resolve_charset(entries: &Vec<(String, String)>) -> (r: Charset)
    ensures
        r == charset_for(pairs_view(entries@)),
{
    if let Some(charset) = lookup(entries, "charset") {
        if same_text(charset.as_str(), "latin1") {
            return Charset::Latin1;
        } else if same_text(charset.as_str(), "utf-16be") {
            return Charset::UTF16BE;
        } else if same_text(charset.as_str(), "utf-16le") {
            return Charset::UTF16LE;
        }
    }
    Charset::UTF8
}

fn resolve_flag(entries: &Vec<(String, String)>, key: &str) -> (r: bool)
    ensures
        r == flag_for(pairs_view(entries@), key@),
{
    if let Some(v) = lookup(entries, key) {
        if same_text(v.as_str(), "false") {
            proof {
                reveal_strlit("true");
                reveal_strlit("false");
                assert("true"@.len() != "false"@.len());
            }
            return false;
        }
    }
    true
}

/// The value that `entries` gives to `key`.
fn lookup<'a>(entries: &'a Vec<(String, String)>, key: &str) -> (r: Option<&'a String>)
    ensures
        match r {
            Some(v) => setting(pairs_view(entries@), key@) == Some(v@),
            None => setting(pairs_view(entries@), key@) is None,
        },
{
    let ghost e = pairs_view(entries@);
    let mut i: usize = 0;
    assert(e.subrange(0, e.len() as int) =~= e);
    while i < entries.len()
        invariant
            i <= entries.len(),
            e == pairs_view(entries@),
            setting(e, key@) == setting(e.subrange(i as int, e.len() as int), key@),
        decreases entries.len() - i,
    {
        let ghost rest = e.subrange(i as int, e.len() as int);
        assert(rest.drop_first() =~= e.subrange(i + 1, e.len() as int));
        assert(rest[0] == (entries@[i as int].0@, entries@[i as int].1@));
        if same_text(entries[i].0.as_str(), key) {
            return Some(&entries[i].1);
        }
        i = i + 1;
    }
    None
}

/// A positive width written in decimal.
fn parse_width(s: &str) -> (r: Option<u8>)
    ensures
        r == width_value(s@),
{
    match parse_u8(s) {
        Some(n) => if n >= 1 {
            Some(n)
        } else {
            None
        },
        None => None,
    }
}

} // verus!
