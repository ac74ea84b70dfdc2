//! The permissive HTML tokenizer.
//!
//! Markup is cut into three kinds of raw tokens: open tags (with their
//! attributes and a self-closing flag), close tags, and text runs.  The
//! grammar is deliberately forgiving: tag names end at whitespace, attribute
//! values may be quoted or bare, `<!-- -->` comments, CDATA sections and
//! declarations are skipped, an unterminated construct swallows the rest of
//! the input, and an unknown entity reference stays literal text.

use vstd::prelude::*;

use crate::chars::char_from_valid_u32;
use crate::chars::spec_is_ws;
use crate::chars::valid_scalar;
use crate::events::attrs_view;

verus! {

/// The mathematical model of one raw markup token.
pub enum SpecTok {
    Open { name: Seq<char>, attrs: Seq<(Seq<char>, Seq<char>)>, self_closing: bool },
    Close { name: Seq<char> },
    Text { text: Seq<char> },
}

/// One raw markup token.
#[derive(Debug, Clone, PartialEq, Eq)]
pub enum RawTok {
    /// An open tag, with its attributes; `self_closing` marks `<... />`.
    Open { name: String, attrs: Vec<(String, String)>, self_closing: bool },
    /// A close tag.
    Close { name: String },
    /// A run of character data, entities already resolved.
    Text { text: String },
}

impl View for RawTok {
    type V = SpecTok;

    open spec fn view(&self) -> SpecTok {
        match self {
            RawTok::Open { name, attrs, self_closing } => SpecTok::Open {
                name: name@,
                attrs: attrs_view(attrs@),
                self_closing: *self_closing,
            },
            RawTok::Close { name } => SpecTok::Close { name: name@ },
            RawTok::Text { text } => SpecTok::Text { text: text@ },
        }
    }
}

/// The model of a token sequence.
pub open spec fn toks_view(ts: Seq<RawTok>) -> Seq<SpecTok> {
    ts.map_values(|t: RawTok| t@)
}

/// The first position at or after `from` holding `c`.
pub open spec fn find_char(s: Seq<char>, from: int, c: char) -> Option<int>
    decreases s.len() - from,
{
    if from < 0 || from >= s.len() {
        None
    } else if s[from] == c {
        Some(from)
    } else {
        find_char(s, from + 1, c)
    }
}

/// Whether `pat` occurs in `s` starting at position `i`.
pub open spec fn matches_at(s: Seq<char>, i: int, pat: Seq<char>) -> bool {
    0 <= i && i + pat.len() <= s.len() && s.subrange(i, i + pat.len() as int) == pat
}

/// The first position at or after `from` where `pat` occurs.
pub open spec fn find_seq(s: Seq<char>, from: int, pat: Seq<char>) -> Option<int>
    decreases s.len() - from,
{
    if from < 0 || from >= s.len() || from + pat.len() > s.len() {
        None
    } else if matches_at(s, from, pat) {
        Some(from)
    } else {
        find_seq(s, from + 1, pat)
    }
}

/// The first position at or after `from` holding a non-whitespace character,
/// or the length.
pub open spec fn ws_skip(s: Seq<char>, from: int) -> int
    decreases s.len() - from,
{
    if from < 0 || from >= s.len() {
        s.len() as int
    } else if spec_is_ws(s[from]) {
        ws_skip(s, from + 1)
    } else {
        from
    }
}

/// The first position at or after `from` holding a whitespace character, or
/// the length.
pub open spec fn ws_end(s: Seq<char>, from: int) -> int
    decreases s.len() - from,
{
    if from < 0 || from >= s.len() {
        s.len() as int
    } else if spec_is_ws(s[from]) {
        from
    } else {
        ws_end(s, from + 1)
    }
}

/// The end of an attribute name: the first whitespace or `=` at or after
/// `from`, or the length.
pub open spec fn attr_name_end(s: Seq<char>, from: int) -> int
    decreases s.len() - from,
{
    if from < 0 || from >= s.len() {
        s.len() as int
    } else if spec_is_ws(s[from]) || s[from] == '=' {
        from
    } else {
        attr_name_end(s, from + 1)
    }
}

/// The position of the `>` that closes a tag whose body starts at `from`,
/// ignoring `>` inside quoted attribute values; `q` is the quote character
/// currently open, if any.
pub open spec fn tag_end(s: Seq<char>, from: int, q: Option<char>) -> Option<int>
    decreases s.len() - from,
{
    if from < 0 || from >= s.len() {
        None
    } else {
        match q {
            Some(qc) => if s[from] == qc {
                tag_end(s, from + 1, None)
            } else {
                tag_end(s, from + 1, Some(qc))
            },
            None => if s[from] == '>' {
                Some(from)
            } else if s[from] == '"' || s[from] == '\'' {
                tag_end(s, from + 1, Some(s[from]))
            } else {
                tag_end(s, from + 1, None)
            },
        }
    }
}

/// A found position is within bounds and not before the start.
pub proof fn lemma_find_char_lb(s: Seq<char>, from: int, c: char)
    ensures
        find_char(s, from, c) is Some ==> from <= find_char(s, from, c)->0 < s.len() && s[find_char(
            s,
            from,
            c,
        )->0] == c,
    decreases s.len() - from,
{
    if !(from < 0 || from >= s.len()) && s[from] != c {
        lemma_find_char_lb(s, from + 1, c);
    }
}

/// A found occurrence is within bounds and not before the start.
pub proof fn lemma_find_seq_lb(s: Seq<char>, from: int, pat: Seq<char>)
    ensures
        find_seq(s, from, pat) is Some ==> from <= find_seq(s, from, pat)->0 && find_seq(
            s,
            from,
            pat,
        )->0 + pat.len() <= s.len(),
    decreases s.len() - from,
{
    if !(from < 0 || from >= s.len() || from + pat.len() > s.len()) && !matches_at(s, from, pat) {
        lemma_find_seq_lb(s, from + 1, pat);
    }
}

/// Skipping whitespace stays within `[from, len]`.
pub proof fn lemma_ws_skip_bounds(s: Seq<char>, from: int)
    requires
        0 <= from <= s.len(),
    ensures
        from <= ws_skip(s, from) <= s.len(),
    decreases s.len() - from,
{
    if from < s.len() && spec_is_ws(s[from]) {
        lemma_ws_skip_bounds(s, from + 1);
    }
}

/// The end of a run stays within `[from, len]`.
pub proof fn lemma_ws_end_bounds(s: Seq<char>, from: int)
    requires
        0 <= from <= s.len(),
    ensures
        from <= ws_end(s, from) <= s.len(),
    decreases s.len() - from,
{
    if from < s.len() && !spec_is_ws(s[from]) {
        lemma_ws_end_bounds(s, from + 1);
    }
}

/// The end of an attribute name stays within `[from, len]`.
pub proof fn lemma_attr_name_end_bounds(s: Seq<char>, from: int)
    requires
        0 <= from <= s.len(),
    ensures
        from <= attr_name_end(s, from) <= s.len(),
    decreases s.len() - from,
{
    if from < s.len() && !(spec_is_ws(s[from]) || s[from] == '=') {
        lemma_attr_name_end_bounds(s, from + 1);
    }
}

/// A found tag end is within bounds and not before the start.
pub proof fn lemma_tag_end_lb(s: Seq<char>, from: int, q: Option<char>)
    ensures
        tag_end(s, from, q) is Some ==> from <= tag_end(s, from, q)->0 < s.len(),
    decreases s.len() - from,
{
    if !(from < 0 || from >= s.len()) {
        lemma_tag_end_lb(s, from + 1, None);
        lemma_tag_end_lb(s, from + 1, Some(s[from]));
        match q {
            Some(qc) => lemma_tag_end_lb(s, from + 1, Some(qc)),
            None => (),
        }
    }
}

/// True for a decimal digit.
pub open spec fn spec_is_digit(c: char) -> bool {
    ('0' as u32) <= (c as u32) && (c as u32) <= ('9' as u32)
}

/// The value of a decimal digit.
pub open spec fn digit_val(c: char) -> nat {
    ((c as u32) - ('0' as u32)) as nat
}

/// The hexadecimal value of a character, if it is a hex digit.
pub open spec fn hex_digit_val(c: char) -> Option<nat> {
    if spec_is_digit(c) {
        Some(digit_val(c))
    } else if ('a' as u32) <= (c as u32) && (c as u32) <= ('f' as u32) {
        Some((((c as u32) - ('a' as u32)) + 10) as nat)
    } else if ('A' as u32) <= (c as u32) && (c as u32) <= ('F' as u32) {
        Some((((c as u32) - ('A' as u32)) + 10) as nat)
    } else {
        None
    }
}

/// The value of a decimal digit string, `None` if empty or not all digits.
pub open spec fn dec_val(t: Seq<char>) -> Option<nat>
    decreases t.len(),
{
    if t.len() == 0 {
        None
    } else if !spec_is_digit(t.last()) {
        None
    } else if t.len() == 1 {
        Some(digit_val(t.last()))
    } else {
        match dec_val(t.drop_last()) {
            Some(v) => Some(v * 10 + digit_val(t.last())),
            None => None,
        }
    }
}

/// The value of a hexadecimal digit string, `None` if empty or not all hex
/// digits.
pub open spec fn hex_val(t: Seq<char>) -> Option<nat>
    decreases t.len(),
{
    if t.len() == 0 {
        None
    } else {
        match hex_digit_val(t.last()) {
            None => None,
            Some(d) => if t.len() == 1 {
                Some(d)
            } else {
                match hex_val(t.drop_last()) {
                    Some(v) => Some(v * 16 + d),
                    None => None,
                }
            },
        }
    }
}

/// The character an entity reference `&name;` stands for: one of the five
/// named references, or a decimal (`#n`) or hexadecimal (`#xn`) character
/// reference to a valid scalar value; `None` leaves the reference literal.
pub open spec fn entity_char(name: Seq<char>) -> Option<char> {
    if name == seq!['a', 'm', 'p'] {
        Some('&')
    } else if name == seq!['l', 't'] {
        Some('<')
    } else if name == seq!['g', 't'] {
        Some('>')
    } else if name == seq!['q', 'u', 'o', 't'] {
        Some('"')
    } else if name == seq!['a', 'p', 'o', 's'] {
        Some('\'')
    } else if name.len() >= 2 && name[0] == '#' && (name[1] == 'x' || name[1] == 'X') {
        match hex_val(name.subrange(2, name.len() as int)) {
            Some(v) => if v <= 0x10FFFF && valid_scalar(v as u32) {
                Some((v as u32) as char)
            } else {
                None
            },
            None => None,
        }
    } else if name.len() >= 1 && name[0] == '#' {
        match dec_val(name.subrange(1, name.len() as int)) {
            Some(v) => if v <= 0x10FFFF && valid_scalar(v as u32) {
                Some((v as u32) as char)
            } else {
                None
            },
            None => None,
        }
    } else {
        None
    }
}

/// Text with entity references resolved, starting at position `i`; an `&`
/// that opens no known reference stays as it is.
pub open spec fn spec_unescape(t: Seq<char>, i: int) -> Seq<char>
    decreases t.len() - i,
    via spec_unescape_dec
{
    if i < 0 || i >= t.len() {
        Seq::empty()
    } else if t[i] == '&' {
        match find_char(t, i + 1, ';') {
            Some(j) => match entity_char(t.subrange(i + 1, j)) {
                Some(c) => seq![c] + spec_unescape(t, j + 1),
                None => seq!['&'] + spec_unescape(t, i + 1),
            },
            None => seq!['&'] + spec_unescape(t, i + 1),
        }
    } else {
        seq![t[i]] + spec_unescape(t, i + 1)
    }
}

#[via_fn]
proof fn spec_unescape_dec(t: Seq<char>, i: int) {
    if 0 <= i < t.len() {
        lemma_find_char_lb(t, i + 1, ';');
    }
}

/// The attributes in a tag body from position `from` on: names run to
/// whitespace or `=`; values are quoted with `"` or `'`, or bare up to
/// whitespace; a name without `=` gets the empty value; an unterminated
/// quote takes the rest of the body.
pub open spec fn parse_attrs(t: Seq<char>, from: int) -> Seq<(Seq<char>, Seq<char>)>
    decreases t.len() - from,
    via parse_attrs_dec
{
    if from < 0 || from >= t.len() {
        Seq::empty()
    } else if spec_is_ws(t[from]) || t[from] == '=' {
        parse_attrs(t, from + 1)
    } else {
        let e = attr_name_end(t, from);
        let name = t.subrange(from, e);
        let p = ws_skip(t, e);
        if p < t.len() && t[p] == '=' {
            let q = ws_skip(t, p + 1);
            if q >= t.len() {
                seq![(name, Seq::<char>::empty())]
            } else if t[q] == '"' || t[q] == '\'' {
                match find_char(t, q + 1, t[q]) {
                    Some(r) => seq![(name, t.subrange(q + 1, r))] + parse_attrs(t, r + 1),
                    None => seq![(name, t.subrange(q + 1, t.len() as int))],
                }
            } else {
                let r = ws_end(t, q);
                seq![(name, t.subrange(q, r))] + parse_attrs(t, r)
            }
        } else {
            seq![(name, Seq::<char>::empty())] + parse_attrs(t, e)
        }
    }
}

#[via_fn]
proof fn parse_attrs_dec(t: Seq<char>, from: int) {
    if 0 <= from < t.len() && !(spec_is_ws(t[from]) || t[from] == '=') {
        lemma_attr_name_end_bounds(t, from + 1);
        assert(attr_name_end(t, from) == attr_name_end(t, from + 1));
        let e = attr_name_end(t, from);
        assert(e > from);
        lemma_ws_skip_bounds(t, e);
        let p = ws_skip(t, e);
        if p < t.len() && t[p] == '=' {
            lemma_ws_skip_bounds(t, p + 1);
            let q = ws_skip(t, p + 1);
            if q < t.len() {
                lemma_find_char_lb(t, q + 1, t[q]);
                lemma_ws_end_bounds(t, q);
            }
        }
    }
}

/// The token an open tag stands for: `inner` is the text between `<` and
/// `>`; a trailing `/` marks it self-closing; the name runs to the first
/// whitespace; the rest holds the attributes.
pub open spec fn open_tok(inner: Seq<char>) -> SpecTok {
    let sc = inner.len() > 0 && inner.last() == '/';
    let body = if sc {
        inner.drop_last()
    } else {
        inner
    };
    let e = ws_end(body, 0);
    SpecTok::Open { name: body.subrange(0, e), attrs: parse_attrs(body, e), self_closing: sc }
}

/// The name of a close tag: `inner` is the text between `</` and `>`; the
/// name runs to the first whitespace.
pub open spec fn close_name(inner: Seq<char>) -> Seq<char> {
    inner.subrange(0, ws_end(inner, 0))
}

/// The position after a `<!` construct starting at `i`: comments run to
/// `-->`, CDATA sections to `]]>`, other declarations to the first `>`; an
/// unterminated construct runs to the end.
pub open spec fn bang_end(s: Seq<char>, i: int) -> int {
    if matches_at(s, i + 2, seq!['-', '-']) {
        match find_seq(s, i + 4, seq!['-', '-', '>']) {
            Some(j) => j + 3,
            None => s.len() as int,
        }
    } else if matches_at(s, i + 2, seq!['[', 'C', 'D', 'A', 'T', 'A', '[']) {
        match find_seq(s, i + 9, seq![']', ']', '>']) {
            Some(j) => j + 3,
            None => s.len() as int,
        }
    } else {
        match find_char(s, i + 2, '>') {
            Some(j) => j + 1,
            None => s.len() as int,
        }
    }
}

/// A skipped `<!` construct ends after `i` and within the input.
pub proof fn lemma_bang_end_bounds(s: Seq<char>, i: int)
    requires
        0 <= i < s.len(),
    ensures
        i < bang_end(s, i) <= s.len(),
{
    lemma_find_seq_lb(s, i + 4, seq!['-', '-', '>']);
    lemma_find_seq_lb(s, i + 9, seq![']', ']', '>']);
    lemma_find_char_lb(s, i + 2, '>');
}

/// The token stream of the markup text from position `i` on.
pub open spec fn spec_scan(s: Seq<char>, i: int) -> Seq<SpecTok>
    decreases s.len() - i,
    via spec_scan_dec
{
    if i < 0 || i >= s.len() {
        Seq::empty()
    } else if s[i] == '<' {
        if i + 1 >= s.len() {
            Seq::empty()
        } else if s[i + 1] == '/' {
            match find_char(s, i + 2, '>') {
                Some(j) => seq![SpecTok::Close { name: close_name(s.subrange(i + 2, j)) }]
                    + spec_scan(s, j + 1),
                None => Seq::empty(),
            }
        } else if s[i + 1] == '!' {
            spec_scan(s, bang_end(s, i))
        } else if s[i + 1] == '?' {
            match find_char(s, i + 2, '>') {
                Some(j) => spec_scan(s, j + 1),
                None => Seq::empty(),
            }
        } else {
            match tag_end(s, i + 1, None) {
                Some(j) => seq![open_tok(s.subrange(i + 1, j))] + spec_scan(s, j + 1),
                None => Seq::empty(),
            }
        }
    } else {
        let j = match find_char(s, i, '<') {
            Some(j) => j,
            None => s.len() as int,
        };
        seq![SpecTok::Text { text: spec_unescape(s.subrange(i, j), 0) }] + spec_scan(s, j)
    }
}

#[via_fn]
proof fn spec_scan_dec(s: Seq<char>, i: int) {
    if 0 <= i < s.len() {
        if s[i] == '<' {
            lemma_find_char_lb(s, i + 2, '>');
            lemma_tag_end_lb(s, i + 1, None);
            lemma_bang_end_bounds(s, i);
        } else {
            lemma_find_char_lb(s, i, '<');
        }
    }
}

/// Finds the first occurrence of `c` at or after `from`.
pub(crate) fn find_char_exec(s: &Vec<char>, from: usize, c: char) -> (r: Option<usize>)
    ensures
        r is Some ==> find_char(s@, from as int, c) == Some(r->0 as int),
        r is None ==> find_char(s@, from as int, c) is None,
{
    let n = s.len();
    let mut i = from;
    while i < n
        invariant
            n == s@.len(),
            from <= i,
            find_char(s@, from as int, c) == find_char(s@, i as int, c),
        decreases n - i,
    {
        if s[i] == c {
            return Some(i);
        }
        i = i + 1;
    }
    None
}

/// Whether `pat` occurs in `s` starting at `i`.
pub(crate) fn matches_at_exec(s: &Vec<char>, i: usize, pat: &Vec<char>) -> (r: bool)
    ensures
        r == matches_at(s@, i as int, pat@),
{
    let n = s.len();
    let m = pat.len();
    if i > n || m > n - i {
        return false;
    }
    let mut j: usize = 0;
    while j < m
        invariant
            n == s@.len(),
            m == pat@.len(),
            i + m <= n,
            j <= m,
            forall|k: int| 0 <= k < j ==> s@[i + k] == pat@[k],
        decreases m - j,
    {
        if s[i + j] != pat[j] {
            proof {
                assert(s@.subrange(i as int, i + m as int)[j as int] == s@[i + j]);
            }
            return false;
        }
        j = j + 1;
    }
    proof {
        assert(s@.subrange(i as int, i + m as int) =~= pat@);
    }
    true
}

/// Finds the first occurrence of `pat` at or after `from`.
pub(crate) fn find_seq_exec(s: &Vec<char>, from: usize, pat: &Vec<char>) -> (r: Option<usize>)
    ensures
        r is Some ==> find_seq(s@, from as int, pat@) == Some(r->0 as int),
        r is None ==> find_seq(s@, from as int, pat@) is None,
{
    let n = s.len();
    let mut i = from;
    while i < n
        invariant
            n == s@.len(),
            from <= i,
            find_seq(s@, from as int, pat@) == find_seq(s@, i as int, pat@),
        decreases n - i,
    {
        if matches_at_exec(s, i, pat) {
            return Some(i);
        }
        i = i + 1;
    }
    None
}

/// Skips whitespace from `from` on.
fn ws_skip_exec(s: &Vec<char>, from: usize) -> (r: usize)
    requires
        from <= s@.len(),
    ensures
        r as int == ws_skip(s@, from as int),
        from <= r <= s@.len(),
{
    let n = s.len();
    let mut i = from;
    while i < n && (s[i] == ' ' || s[i] == '\t' || s[i] == '\n' || s[i] == '\r')
        invariant
            n == s@.len(),
            from <= i <= n,
            ws_skip(s@, from as int) == ws_skip(s@, i as int),
        decreases n - i,
    {
        i = i + 1;
    }
    i
}

/// Finds the first whitespace character at or after `from`.
fn ws_end_exec(s: &Vec<char>, from: usize) -> (r: usize)
    requires
        from <= s@.len(),
    ensures
        r as int == ws_end(s@, from as int),
        from <= r <= s@.len(),
{
    let n = s.len();
    let mut i = from;
    while i < n && !(s[i] == ' ' || s[i] == '\t' || s[i] == '\n' || s[i] == '\r')
        invariant
            n == s@.len(),
            from <= i <= n,
            ws_end(s@, from as int) == ws_end(s@, i as int),
        decreases n - i,
    {
        i = i + 1;
    }
    i
}

/// Finds the end of an attribute name starting at `from`.
fn attr_name_end_exec(s: &Vec<char>, from: usize) -> (r: usize)
    requires
        from <= s@.len(),
    ensures
        r as int == attr_name_end(s@, from as int),
        from <= r <= s@.len(),
{
    let n = s.len();
    let mut i = from;
    while i < n && !(s[i] == ' ' || s[i] == '\t' || s[i] == '\n' || s[i] == '\r' || s[i] == '=')
        invariant
            n == s@.len(),
            from <= i <= n,
            attr_name_end(s@, from as int) == attr_name_end(s@, i as int),
        decreases n - i,
    {
        i = i + 1;
    }
    i
}

/// Finds the `>` closing a tag whose body starts at `from`, skipping quoted
/// attribute values.
fn tag_end_exec(s: &Vec<char>, from: usize) -> (r: Option<usize>)
    ensures
        r is Some ==> tag_end(s@, from as int, None) == Some(r->0 as int),
        r is None ==> tag_end(s@, from as int, None) is None,
{
    let n = s.len();
    let mut i = from;
    let mut q: Option<char> = None;
    while i < n
        invariant
            n == s@.len(),
            from <= i,
            tag_end(s@, from as int, None) == tag_end(s@, i as int, q),
        decreases n - i,
    {
        match q {
            Some(qc) => {
                if s[i] == qc {
                    q = None;
                }
                i = i + 1;
            },
            None => {
                if s[i] == '>' {
                    return Some(i);
                } else if s[i] == '"' || s[i] == '\'' {
                    q = Some(s[i]);
                    i = i + 1;
                } else {
                    i = i + 1;
                }
            },
        }
    }
    None
}

/// Reads a decimal digit string; the value is clamped just above the
/// largest scalar once it can no longer name a character.
fn dec_val_exec(v: &Vec<char>) -> (r: Option<u32>)
    ensures
        r is Some == dec_val(v@) is Some,
        r is Some ==> {
            let val = dec_val(v@)->0;
            &&& (val <= 0x10FFFF ==> r->0 == val)
            &&& (val > 0x10FFFF ==> r->0 == 0x110000)
        },
{
    let n = v.len();
    if n == 0 {
        return None;
    }
    let mut acc: u32 = 0;
    let mut i: usize = 0;
    while i < n
        invariant
            n == v@.len(),
            0 < n,
            i <= n,
            acc <= 0x110000,
            i > 0 ==> {
                let val = dec_val(v@.take(i as int));
                &&& val is Some
                &&& (val->0 <= 0x10FFFF ==> acc == val->0)
                &&& (val->0 > 0x10FFFF ==> acc == 0x110000)
            },
            i == 0 ==> acc == 0,
        decreases n - i,
    {
        let c = v[i];
        let u = c as u32;
        if !(48 <= u && u <= 57) {
            proof {
                lemma_dec_val_none(v@, i as int);
            }
            return None;
        }
        let d = u - 48;
        let ghost prev = dec_val(v@.take(i as int));
        let mut acc2: u32 = acc * 10 + d;
        if acc2 > 0x10FFFF {
            acc2 = 0x110000;
        }
        proof {
            assert(v@.take((i + 1) as int).drop_last() =~= v@.take(i as int));
            assert(v@.take((i + 1) as int).last() == v@[i as int]);
            if i > 0 {
                let val = prev->0;
                if val > 0x10FFFF {
                    assert(val * 10 + digit_val(v@[i as int]) > 0x10FFFF) by (nonlinear_arith)
                        requires
                            val > 0x10FFFF,
                            digit_val(v@[i as int]) >= 0,
                    ;
                }
            }
        }
        acc = acc2;
        i = i + 1;
    }
    proof {
        assert(v@.take(n as int) =~= v@);
    }
    Some(acc)
}

/// A non-digit anywhere makes the decimal value undefined.
proof fn lemma_dec_val_none(t: Seq<char>, k: int)
    requires
        0 <= k < t.len(),
        !spec_is_digit(t[k]),
    ensures
        dec_val(t) is None,
    decreases t.len(),
{
    if t.len() > 0 && k < t.len() - 1 {
        lemma_dec_val_none(t.drop_last(), k);
    }
}

/// Reads a hexadecimal digit string; the value is clamped just above the
/// largest scalar once it can no longer name a character.
fn hex_val_exec(v: &Vec<char>) -> (r: Option<u32>)
    ensures
        r is Some == hex_val(v@) is Some,
        r is Some ==> {
            let val = hex_val(v@)->0;
            &&& (val <= 0x10FFFF ==> r->0 == val)
            &&& (val > 0x10FFFF ==> r->0 == 0x110000)
        },
{
    let n = v.len();
    if n == 0 {
        return None;
    }
    let mut acc: u32 = 0;
    let mut i: usize = 0;
    while i < n
        invariant
            n == v@.len(),
            0 < n,
            i <= n,
            acc <= 0x110000,
            i > 0 ==> {
                let val = hex_val(v@.take(i as int));
                &&& val is Some
                &&& (val->0 <= 0x10FFFF ==> acc == val->0)
                &&& (val->0 > 0x10FFFF ==> acc == 0x110000)
            },
            i == 0 ==> acc == 0,
        decreases n - i,
    {
        let c = v[i];
        let u = c as u32;
        let d: u32;
        if 48 <= u && u <= 57 {
            d = u - 48;
        } else if 97 <= u && u <= 102 {
            d = u - 97 + 10;
        } else if 65 <= u && u <= 70 {
            d = u - 65 + 10;
        } else {
            proof {
                lemma_hex_val_none(v@, i as int);
            }
            return None;
        }
        assert(hex_digit_val(v@[i as int]) == Some(d as nat));
        let ghost prev = hex_val(v@.take(i as int));
        let mut acc2: u32 = acc * 16 + d;
        if acc2 > 0x10FFFF {
            acc2 = 0x110000;
        }
        proof {
            assert(v@.take((i + 1) as int).drop_last() =~= v@.take(i as int));
            assert(v@.take((i + 1) as int).last() == v@[i as int]);
            if i > 0 {
                let val = prev->0;
                if val > 0x10FFFF {
                    assert(val * 16 + (d as nat) > 0x10FFFF) by (nonlinear_arith)
                        requires
                            val > 0x10FFFF,
                    ;
                }
            }
        }
        acc = acc2;
        i = i + 1;
    }
    proof {
        assert(v@.take(n as int) =~= v@);
    }
    Some(acc)
}

/// A non-hex-digit anywhere makes the hexadecimal value undefined.
proof fn lemma_hex_val_none(t: Seq<char>, k: int)
    requires
        0 <= k < t.len(),
        hex_digit_val(t[k]) is None,
    ensures
        hex_val(t) is None,
    decreases t.len(),
{
    if t.len() > 0 && k < t.len() - 1 {
        lemma_hex_val_none(t.drop_last(), k);
    }
}

/// Resolves one entity name to its character, if it names one.
fn entity_char_exec(name: &Vec<char>) -> (r: Option<char>)
    ensures
        r == entity_char(name@),
{
    let n = name.len();
    if n == 3 && name[0] == 'a' && name[1] == 'm' && name[2] == 'p' {
        proof {
            assert(name@ =~= seq!['a', 'm', 'p']);
        }
        return Some('&');
    }
    if n == 2 && name[0] == 'l' && name[1] == 't' {
        proof {
            assert(name@ =~= seq!['l', 't']);
        }
        return Some('<');
    }
    if n == 2 && name[0] == 'g' && name[1] == 't' {
        proof {
            assert(name@ =~= seq!['g', 't']);
        }
        return Some('>');
    }
    if n == 4 && name[0] == 'q' && name[1] == 'u' && name[2] == 'o' && name[3] == 't' {
        proof {
            assert(name@ =~= seq!['q', 'u', 'o', 't']);
        }
        return Some('"');
    }
    if n == 4 && name[0] == 'a' && name[1] == 'p' && name[2] == 'o' && name[3] == 's' {
        proof {
            assert(name@ =~= seq!['a', 'p', 'o', 's']);
        }
        return Some('\'');
    }
    proof {
        assert(name@ != seq!['a', 'm', 'p']);
        assert(name@ != seq!['l', 't']);
        assert(name@ != seq!['g', 't']);
        assert(name@ != seq!['q', 'u', 'o', 't']);
        assert(name@ != seq!['a', 'p', 'o', 's']);
    }
    if n >= 2 && name[0] == '#' && (name[1] == 'x' || name[1] == 'X') {
        let digits = crate::chars::vec_range(name, 2, n);
        let v = hex_val_exec(&digits);
        match v {
            Some(u) => {
                if u <= 0x10FFFF && (u < 0xD800 || 0xE000 <= u) {
                    let c = char_from_valid_u32(u);
                    proof {
                        vstd::utf8::char_u32_cast(c, u);
                    }
                    Some(c)
                } else {
                    None
                }
            },
            None => None,
        }
    } else if n >= 1 && name[0] == '#' {
        let digits = crate::chars::vec_range(name, 1, n);
        let v = dec_val_exec(&digits);
        match v {
            Some(u) => {
                if u <= 0x10FFFF && (u < 0xD800 || 0xE000 <= u) {
                    let c = char_from_valid_u32(u);
                    proof {
                        vstd::utf8::char_u32_cast(c, u);
                    }
                    Some(c)
                } else {
                    None
                }
            },
            None => None,
        }
    } else {
        None
    }
}

/// Resolves the entity references in a text run.
fn unescape_exec(t: &Vec<char>) -> (r: String)
    ensures
        r@ == spec_unescape(t@, 0),
{
    let n = t.len();
    let mut out = String::new();
    let mut i: usize = 0;
    while i < n
        invariant
            n == t@.len(),
            i <= n,
            out@ + spec_unescape(t@, i as int) == spec_unescape(t@, 0),
        decreases n - i,
    {
        let ghost i0 = i as int;
        let ghost out0 = out@;
        if t[i] == '&' {
            match find_char_exec(t, i + 1, ';') {
                Some(j) => {
                    proof {
                        lemma_find_char_lb(t@, i0 + 1, ';');
                    }
                    let ename = crate::chars::vec_range(t, i + 1, j);
                    match entity_char_exec(&ename) {
                        Some(c) => {
                            crate::chars::push_char(&mut out, c);
                            i = j + 1;
                        },
                        None => {
                            crate::chars::push_char(&mut out, '&');
                            i = i + 1;
                        },
                    }
                },
                None => {
                    crate::chars::push_char(&mut out, '&');
                    i = i + 1;
                },
            }
        } else {
            let c = t[i];
            crate::chars::push_char(&mut out, c);
            i = i + 1;
        }
        proof {
            assert(out@ + spec_unescape(t@, i as int) =~= out0 + spec_unescape(t@, i0));
        }
    }
    proof {
        assert(out@ + spec_unescape(t@, n as int) =~= out@);
    }
    out
}

/// Parses the attributes of a tag body from `from` on.
fn parse_attrs_exec(t: &Vec<char>, from: usize) -> (r: Vec<(String, String)>)
    requires
        from <= t@.len(),
    ensures
        attrs_view(r@) == parse_attrs(t@, from as int),
{
    let n = t.len();
    let mut out: Vec<(String, String)> = Vec::new();
    let mut i = from;
    while i < n
        invariant
            n == t@.len(),
            from <= i <= n,
            attrs_view(out@) + parse_attrs(t@, i as int) == parse_attrs(t@, from as int),
        decreases n - i,
    {
        let ghost i0 = i as int;
        let ghost out0 = out@;
        let c = t[i];
        if c == ' ' || c == '\t' || c == '\n' || c == '\r' || c == '=' {
            i = i + 1;
        } else {
            let e = attr_name_end_exec(t, i);
            let name = crate::chars::string_from_range(t, i, e);
            let p = ws_skip_exec(t, e);
            if p < n && t[p] == '=' {
                let q = ws_skip_exec(t, p + 1);
                if q >= n {
                    out.push((name, String::new()));
                    i = n;
                } else if t[q] == '"' || t[q] == '\'' {
                    match find_char_exec(t, q + 1, t[q]) {
                        Some(r2) => {
                            proof {
                                lemma_find_char_lb(t@, q as int + 1, t@[q as int]);
                            }
                            let val = crate::chars::string_from_range(t, q + 1, r2);
                            out.push((name, val));
                            i = r2 + 1;
                        },
                        None => {
                            let val = crate::chars::string_from_range(t, q + 1, n);
                            out.push((name, val));
                            i = n;
                        },
                    }
                } else {
                    let r2 = ws_end_exec(t, q);
                    let val = crate::chars::string_from_range(t, q, r2);
                    out.push((name, val));
                    i = r2;
                }
            } else {
                out.push((name, String::new()));
                i = e;
            }
            proof {
                if i0 < e {
                } else {
                    assert(attr_name_end(t@, i0) == attr_name_end(t@, i0 + 1));
                }
            }
        }
        proof {
            assert(attrs_view(out@) + parse_attrs(t@, i as int) =~= out0.map_values(
                |pr: (String, String)| (pr.0@, pr.1@),
            ) + parse_attrs(t@, i0));
        }
    }
    proof {
        assert(attrs_view(out@) + parse_attrs(t@, n as int) =~= attrs_view(out@));
    }
    out
}

/// Builds the token of an open tag whose body is `s[lo..hi]`.
fn open_tok_exec(s: &Vec<char>, lo: usize, hi: usize) -> (t: RawTok)
    requires
        lo <= hi <= s@.len(),
    ensures
        t@ == open_tok(s@.subrange(lo as int, hi as int)),
{
    let inner = crate::chars::vec_range(s, lo, hi);
    let ilen = inner.len();
    let sc = ilen > 0 && inner[ilen - 1] == '/';
    let body_end = if sc {
        ilen - 1
    } else {
        ilen
    };
    let body = crate::chars::vec_range(&inner, 0, body_end);
    proof {
        if sc {
            assert(inner@.drop_last() =~= inner@.subrange(0, body_end as int));
        } else {
            assert(inner@ =~= inner@.subrange(0, body_end as int));
        }
    }
    let e = ws_end_exec(&body, 0);
    let name = crate::chars::string_from_range(&body, 0, e);
    let attrs = parse_attrs_exec(&body, e);
    RawTok::Open { name, attrs, self_closing: sc }
}

/// Skips a `<!` construct starting at `i`; `s[i]` is `<` and `s[i + 1]` is
/// `!`.
fn bang_end_exec(s: &Vec<char>, i: usize) -> (r: usize)
    requires
        i + 1 < s@.len(),
        s@[i as int] == '<',
        s@[i as int + 1] == '!',
    ensures
        r as int == bang_end(s@, i as int),
        i < r <= s@.len(),
{
    let n = s.len();
    let dash2 = vec!['-', '-'];
    let cdata = vec!['[', 'C', 'D', 'A', 'T', 'A', '['];
    let close_comment = vec!['-', '-', '>'];
    let close_cdata = vec![']', ']', '>'];
    proof {
        assert(dash2@ =~= seq!['-', '-']);
        assert(cdata@ =~= seq!['[', 'C', 'D', 'A', 'T', 'A', '[']);
        assert(close_comment@ =~= seq!['-', '-', '>']);
        assert(close_cdata@ =~= seq![']', ']', '>']);
        lemma_bang_end_bounds(s@, i as int);
    }
    if matches_at_exec(s, i + 2, &dash2) {
        match find_seq_exec(s, i + 4, &close_comment) {
            Some(j) => {
                proof {
                    lemma_find_seq_lb(s@, i as int + 4, close_comment@);
                }
                j + 3
            },
            None => n,
        }
    } else if matches_at_exec(s, i + 2, &cdata) {
        match find_seq_exec(s, i + 9, &close_cdata) {
            Some(j) => {
                proof {
                    lemma_find_seq_lb(s@, i as int + 9, close_cdata@);
                }
                j + 3
            },
            None => n,
        }
    } else {
        match find_char_exec(s, i + 2, '>') {
            Some(j) => {
                proof {
                    lemma_find_char_lb(s@, i as int + 2, '>');
                }
                j + 1
            },
            None => n,
        }
    }
}

/// Cuts markup text into its raw token stream.
pub fn scan_html(s: &Vec<char>) -> (toks: Vec<RawTok>)
    ensures
        toks_view(toks@) == spec_scan(s@, 0),
{
    let n = s.len();
    let mut toks: Vec<RawTok> = Vec::new();
    let mut i: usize = 0;
    while i < n
        invariant
            n == s@.len(),
            i <= n,
            toks_view(toks@) + spec_scan(s@, i as int) == spec_scan(s@, 0),
        decreases n - i,
    {
        let ghost i0 = i as int;
        let ghost toks0 = toks@;
        if s[i] == '<' {
            if i + 1 >= n {
                i = n;
            } else if s[i + 1] == '/' {
                match find_char_exec(s, i + 2, '>') {
                    Some(j) => {
                        proof {
                            lemma_find_char_lb(s@, i0 + 2, '>');
                        }
                        let inner = crate::chars::vec_range(s, i + 2, j);
                        let e = ws_end_exec(&inner, 0);
                        let name = crate::chars::string_from_range(&inner, 0, e);
                        proof {
                            assert(name@ == close_name(s@.subrange(i0 + 2, j as int)));
                        }
                        toks.push(RawTok::Close { name });
                        i = j + 1;
                    },
                    None => {
                        i = n;
                    },
                }
            } else if s[i + 1] == '!' {
                i = bang_end_exec(s, i);
            } else if s[i + 1] == '?' {
                match find_char_exec(s, i + 2, '>') {
                    Some(j) => {
                        proof {
                            lemma_find_char_lb(s@, i0 + 2, '>');
                        }
                        i = j + 1;
                    },
                    None => {
                        i = n;
                    },
                }
            } else {
                match tag_end_exec(s, i + 1) {
                    Some(j) => {
                        proof {
                            lemma_tag_end_lb(s@, i0 + 1, None);
                        }
                        let tok = open_tok_exec(s, i + 1, j);
                        toks.push(tok);
                        i = j + 1;
                    },
                    None => {
                        i = n;
                    },
                }
            }
        } else {
            let j = match find_char_exec(s, i, '<') {
                Some(j) => {
                    proof {
                        lemma_find_char_lb(s@, i0, '<');
                    }
                    j
                },
                None => n,
            };
            let sub = crate::chars::vec_range(s, i, j);
            let text = unescape_exec(&sub);
            toks.push(RawTok::Text { text });
            i = j;
        }
        proof {
            assert(toks_view(toks@) + spec_scan(s@, i as int) =~= toks_view(toks0) + spec_scan(
                s@,
                i0,
            ));
        }
    }
    proof {
        assert(toks_view(toks@) + spec_scan(s@, n as int) =~= toks_view(toks@));
    }
    toks
}

} // verus!
