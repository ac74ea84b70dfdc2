//! Character-level helpers shared by the slugger and the HTML scanner.

use vstd::prelude::*;
use vstd::string::StrSliceExecFns;

verus! {

/// True for ASCII letters and digits, the characters that survive slugging.
pub open spec fn spec_is_ascii_alnum(c: char) -> bool {
    ||| ('a' as u32) <= (c as u32) && (c as u32) <= ('z' as u32)
    ||| ('A' as u32) <= (c as u32) && (c as u32) <= ('Z' as u32)
    ||| ('0' as u32) <= (c as u32) && (c as u32) <= ('9' as u32)
}

/// ASCII upper-case letters are mapped to lower case; everything else is kept.
pub open spec fn spec_ascii_lower(c: char) -> char {
    if ('A' as u32) <= (c as u32) && (c as u32) <= ('Z' as u32) {
        (((c as u32) + 32) as u32) as char
    } else {
        c
    }
}

/// What a slug keeps for `c`: the text is Unicode-lower-cased and every
/// character that is not an ASCII letter or digit becomes `-`.  Composed
/// per input character: ASCII letters and digits survive, lower-cased.  Of
/// all other characters, exactly two have a Unicode lowercase that touches
/// ASCII: U+212A (the Kelvin sign) lower-cases to `k`, and U+0130 (dotted
/// capital I) lower-cases to `i` followed by a combining dot, which the
/// replacement then turns into `-`.  Every remaining character lower-cases
/// to non-ASCII characters only, so it collapses to a single `-`.
pub open spec fn slug_chars(c: char) -> Seq<char> {
    if spec_is_ascii_alnum(c) {
        seq![spec_ascii_lower(c)]
    } else if (c as u32) == 0x212A {
        seq!['k']
    } else if (c as u32) == 0x130 {
        seq!['i', '-']
    } else {
        seq!['-']
    }
}

/// Appends what the slug keeps for `c`, executable form of [`slug_chars`].
pub fn push_slug_chars(c: char, out: &mut Vec<char>)
    ensures
        final(out)@ == old(out)@ + slug_chars(c),
{
    let u = c as u32;
    if (48 <= u && u <= 57) || (97 <= u && u <= 122) {
        out.push(c);
        proof {
            assert(old(out)@ + slug_chars(c) =~= old(out)@.push(c));
        }
    } else if 65 <= u && u <= 90 {
        let r = char_from_valid_u32(u + 32);
        proof {
            vstd::utf8::char_u32_cast(r, (u + 32) as u32);
        }
        out.push(r);
        proof {
            assert(old(out)@ + slug_chars(c) =~= old(out)@.push(r));
        }
    } else if u == 0x212A {
        out.push('k');
        proof {
            assert(old(out)@ + slug_chars(c) =~= old(out)@.push('k'));
        }
    } else if u == 0x130 {
        out.push('i');
        out.push('-');
        proof {
            assert(old(out)@ + slug_chars(c) =~= old(out)@.push('i').push('-'));
        }
    } else {
        out.push('-');
        proof {
            assert(old(out)@ + slug_chars(c) =~= old(out)@.push('-'));
        }
    }
}

/// ASCII whitespace as markup grammars use it: space, tab, line feed,
/// carriage return.
pub open spec fn spec_is_ws(c: char) -> bool {
    c == ' ' || c == '\t' || c == '\n' || c == '\r'
}

/// A character with the Unicode `White_Space` property, the set `str::trim`
/// removes: the ASCII whitespace controls and space, next line, no-break
/// space, ogham space mark, the en-quad .. hair-space run, the line and
/// paragraph separators, the narrow no-break space, the medium mathematical
/// space, and the ideographic space.
pub open spec fn spec_is_unicode_ws(c: char) -> bool {
    let u = c as u32;
    ||| (0x09 <= u && u <= 0x0D)
    ||| u == 0x20
    ||| u == 0x85
    ||| u == 0xA0
    ||| u == 0x1680
    ||| (0x2000 <= u && u <= 0x200A)
    ||| u == 0x2028
    ||| u == 0x2029
    ||| u == 0x202F
    ||| u == 0x205F
    ||| u == 0x3000
}

/// Executable form of [`spec_is_unicode_ws`].
pub fn is_unicode_ws(c: char) -> (r: bool)
    ensures
        r == spec_is_unicode_ws(c),
{
    let u = c as u32;
    (0x09 <= u && u <= 0x0D) || u == 0x20 || u == 0x85 || u == 0xA0 || u == 0x1680 || (0x2000 <= u
        && u <= 0x200A) || u == 0x2028 || u == 0x2029 || u == 0x202F || u == 0x205F || u == 0x3000
}

/// Drops leading whitespace.
pub open spec fn drop_leading_ws(s: Seq<char>) -> Seq<char>
    decreases s.len(),
{
    if s.len() > 0 && spec_is_unicode_ws(s[0]) {
        drop_leading_ws(s.drop_first())
    } else {
        s
    }
}

/// Drops trailing whitespace.
pub open spec fn drop_trailing_ws(s: Seq<char>) -> Seq<char>
    decreases s.len(),
{
    if s.len() > 0 && spec_is_unicode_ws(s.last()) {
        drop_trailing_ws(s.drop_last())
    } else {
        s
    }
}

/// The text without leading and trailing whitespace.
pub open spec fn spec_trim(s: Seq<char>) -> Seq<char> {
    drop_trailing_ws(drop_leading_ws(s))
}

/// `drop_leading_ws` drops exactly the leading whitespace run.
proof fn lemma_drop_leading_ws(s: Seq<char>, lo: int)
    requires
        0 <= lo <= s.len(),
        forall|j: int| 0 <= j < lo ==> spec_is_unicode_ws(s[j]),
        lo < s.len() ==> !spec_is_unicode_ws(s[lo]),
    ensures
        drop_leading_ws(s) == s.subrange(lo, s.len() as int),
    decreases lo,
{
    if lo == 0 {
        assert(s.subrange(0, s.len() as int) =~= s);
    } else {
        assert(s.drop_first() =~= s.subrange(1, s.len() as int));
        lemma_drop_leading_ws(s.drop_first(), lo - 1);
        assert(s.drop_first().subrange(lo - 1, s.drop_first().len() as int) =~= s.subrange(
            lo,
            s.len() as int,
        ));
    }
}

/// `drop_trailing_ws` drops exactly the trailing whitespace run.
proof fn lemma_drop_trailing_ws(s: Seq<char>, hi: int)
    requires
        0 <= hi <= s.len(),
        forall|j: int| hi <= j < s.len() ==> spec_is_unicode_ws(s[j]),
        hi > 0 ==> !spec_is_unicode_ws(s[hi - 1]),
    ensures
        drop_trailing_ws(s) == s.subrange(0, hi),
    decreases s.len() - hi,
{
    if hi == s.len() {
        assert(s.subrange(0, s.len() as int) =~= s);
    } else {
        assert(s.drop_last() =~= s.subrange(0, s.len() - 1));
        lemma_drop_trailing_ws(s.drop_last(), hi);
        assert(s.drop_last().subrange(0, hi) =~= s.subrange(0, hi));
    }
}

/// Copies the text without its leading and trailing whitespace.
pub fn trim_ws_vec(v: &Vec<char>) -> (r: Vec<char>)
    ensures
        r@ == spec_trim(v@),
{
    let m = v.len();
    let mut lo: usize = 0;
    while lo < m && is_unicode_ws(v[lo])
        invariant
            lo <= m,
            m == v@.len(),
            forall|j: int| 0 <= j < lo ==> spec_is_unicode_ws(v@[j]),
        decreases m - lo,
    {
        lo = lo + 1;
    }
    let mut hi: usize = m;
    while hi > lo && is_unicode_ws(v[hi - 1])
        invariant
            lo <= hi <= m,
            m == v@.len(),
            forall|j: int| hi <= j < m ==> spec_is_unicode_ws(v@[j]),
        decreases hi,
    {
        hi = hi - 1;
    }
    let r = vec_range(v, lo, hi);
    proof {
        let t = v@.subrange(lo as int, v@.len() as int);
        lemma_drop_leading_ws(v@, lo as int);
        lemma_drop_trailing_ws(t, hi as int - lo);
        assert(t.subrange(0, hi as int - lo) =~= v@.subrange(lo as int, hi as int));
    }
    r
}

/// Relies on `String::push` from std: appends one character to the string.
#[verifier::external_body]
pub fn push_char(s: &mut String, c: char)
    ensures
        final(s)@ == old(s)@.push(c),
{
    s.push(c)
}

/// Builds an owned string out of a range of a character buffer.
pub fn string_from_range(v: &Vec<char>, from: usize, to: usize) -> (r: String)
    requires
        from <= to <= v@.len(),
    ensures
        r@ == v@.subrange(from as int, to as int),
{
    let mut r = String::new();
    let mut i: usize = from;
    while i < to
        invariant
            from <= i <= to <= v@.len(),
            r@ == v@.subrange(from as int, i as int),
        decreases to - i,
    {
        push_char(&mut r, v[i]);
        proof {
            assert(v@.subrange(from as int, (i + 1) as int) =~= v@.subrange(
                from as int,
                i as int,
            ).push(v@[i as int]));
        }
        i = i + 1;
    }
    r
}

/// Copies a range of a character buffer into a new buffer.
pub fn vec_range(v: &Vec<char>, from: usize, to: usize) -> (r: Vec<char>)
    requires
        from <= to <= v@.len(),
    ensures
        r@ == v@.subrange(from as int, to as int),
{
    let mut r: Vec<char> = Vec::new();
    let mut i: usize = from;
    while i < to
        invariant
            from <= i <= to <= v@.len(),
            r@ == v@.subrange(from as int, i as int),
        decreases to - i,
    {
        r.push(v[i]);
        proof {
            assert(v@.subrange(from as int, (i + 1) as int) =~= v@.subrange(
                from as int,
                i as int,
            ).push(v@[i as int]));
        }
        i = i + 1;
    }
    r
}

/// Builds an owned string holding exactly the given characters.
pub fn chars_to_string(v: &Vec<char>) -> (r: String)
    ensures
        r@ == v@,
{
    let r = string_from_range(v, 0, v.len());
    proof {
        assert(v@.subrange(0, v@.len() as int) =~= v@);
    }
    r
}

/// Collects the characters of a string slice into a buffer.
pub fn str_to_chars(s: &str) -> (r: Vec<char>)
    ensures
        r@ == s@,
{
    let n = s.unicode_len();
    let mut r: Vec<char> = Vec::new();
    let mut i: usize = 0;
    while i < n
        invariant
            i <= n,
            n == s@.len(),
            r@ == s@.take(i as int),
        decreases n - i,
    {
        r.push(s.get_char(i));
        proof {
            assert(s@.take((i + 1) as int) =~= s@.take(i as int).push(s@[i as int]));
        }
        i = i + 1;
    }
    proof {
        assert(s@.take(n as int) =~= s@);
    }
    r
}

/// A Unicode scalar value: what a `char` can hold.
pub open spec fn valid_scalar(u: u32) -> bool {
    u < 0xD800 || (0xE000 <= u && u <= 0x10FFFF)
}

/// Relies on `char::from_u32` from std: returns the character with the given
/// scalar value; the documentation promises `Some` exactly for valid scalar
/// values (not a surrogate, at most `char::MAX`), and that the cast back to
/// `u32` returns the argument.
#[verifier::external_body]
pub fn char_from_u32(u: u32) -> (r: Option<char>)
    ensures
        r is Some <==> valid_scalar(u),
        r is Some ==> (r->0 as u32) == u,
{
    char::from_u32(u)
}

/// The character with the given scalar value, for values already known valid.
pub fn char_from_valid_u32(u: u32) -> (r: char)
    requires
        valid_scalar(u),
    ensures
        (r as u32) == u,
{
    let r = char_from_u32(u);
    match r {
        Some(c) => c,
        None => {
            proof {
                assert(false);
            }
            ' '
        },
    }
}

} // verus!
