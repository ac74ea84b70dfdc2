//! The heading slugger: turns heading text into unique anchor identifiers.
//!
//! The base slug of a text lower-cases ASCII letters, replaces every other
//! character by `-` and trims leading and trailing `-`.  The first heading
//! with a given base slug gets the base itself as its id; the `n`-th
//! (`n > 1`) gets `base-n`.

use vstd::prelude::*;

use crate::chars::chars_to_string;
use crate::chars::push_slug_chars;
use crate::chars::slug_chars;
use crate::chars::str_to_chars;

verus! {

/// Every character mapped to what a slug keeps of it, in order.
pub open spec fn map_slug(text: Seq<char>) -> Seq<char>
    decreases text.len(),
{
    if text.len() == 0 {
        Seq::empty()
    } else {
        slug_chars(text[0]) + map_slug(text.drop_first())
    }
}

/// Mapping one more character appends what the slug keeps of it.
proof fn lemma_map_slug_push(text: Seq<char>, c: char)
    ensures
        map_slug(text.push(c)) == map_slug(text) + slug_chars(c),
    decreases text.len(),
{
    if text.len() == 0 {
        assert(text.push(c).drop_first() =~= Seq::<char>::empty());
        assert(map_slug(Seq::<char>::empty()) =~= Seq::<char>::empty());
        assert(text.push(c)[0] == c);
        assert(map_slug(text.push(c)) =~= slug_chars(c) + Seq::<char>::empty());
        assert(map_slug(text) + slug_chars(c) =~= slug_chars(c));
    } else {
        assert(text.push(c).drop_first() =~= text.drop_first().push(c));
        lemma_map_slug_push(text.drop_first(), c);
        assert(text.push(c)[0] == text[0]);
        assert(map_slug(text.push(c)) =~= slug_chars(text[0]) + (map_slug(text.drop_first())
            + slug_chars(c)));
        assert(map_slug(text) + slug_chars(c) =~= slug_chars(text[0]) + (map_slug(
            text.drop_first(),
        ) + slug_chars(c)));
    }
}

/// Drops leading `-` characters.
pub open spec fn drop_leading_dashes(s: Seq<char>) -> Seq<char>
    decreases s.len(),
{
    if s.len() > 0 && s[0] == '-' {
        drop_leading_dashes(s.drop_first())
    } else {
        s
    }
}

/// Drops trailing `-` characters.
pub open spec fn drop_trailing_dashes(s: Seq<char>) -> Seq<char>
    decreases s.len(),
{
    if s.len() > 0 && s.last() == '-' {
        drop_trailing_dashes(s.drop_last())
    } else {
        s
    }
}

/// The base slug of a heading text.
pub open spec fn slug_base(text: Seq<char>) -> Seq<char> {
    drop_trailing_dashes(drop_leading_dashes(map_slug(text)))
}

/// The decimal digit character for `d < 10`.
pub open spec fn dec_digit(d: nat) -> char {
    if d == 0 {
        '0'
    } else if d == 1 {
        '1'
    } else if d == 2 {
        '2'
    } else if d == 3 {
        '3'
    } else if d == 4 {
        '4'
    } else if d == 5 {
        '5'
    } else if d == 6 {
        '6'
    } else if d == 7 {
        '7'
    } else if d == 8 {
        '8'
    } else {
        '9'
    }
}

/// The decimal digit string of `n`, most significant digit first.
pub open spec fn dec_str(n: nat) -> Seq<char>
    decreases n,
{
    if n < 10 {
        seq![dec_digit(n)]
    } else {
        dec_str(n / 10).push(dec_digit(n % 10))
    }
}

/// The id issued for the `c`-th occurrence of base slug `b`.
pub open spec fn slug_id(b: Seq<char>, c: nat) -> Seq<char> {
    if c <= 1 {
        b
    } else {
        b + seq!['-'] + dec_str(c)
    }
}

/// What one `slugify` call returns and how it changes the occurrence table:
/// the table counts how often each base slug has been seen; the id carries
/// the new count as a suffix from the second occurrence on.
pub open spec fn spec_slugify(m: Map<Seq<char>, nat>, text: Seq<char>) -> (Seq<char>, Map<
    Seq<char>,
    nat,
>) {
    let b = slug_base(text);
    let c: nat = if m.dom().contains(b) {
        m[b] + 1
    } else {
        1
    };
    (slug_id(b, c), m.insert(b, c))
}

/// The per-parse slug table: how often each base slug has been seen.
#[derive(Debug)]
pub struct SlugState {
    entries: Vec<(String, usize)>,
}

/// The table an entry list stands for, later entries overriding earlier ones.
pub open spec fn entries_map(s: Seq<(String, usize)>) -> Map<Seq<char>, nat>
    decreases s.len(),
{
    if s.len() == 0 {
        Map::empty()
    } else {
        entries_map(s.drop_last()).insert(s.last().0@, s.last().1 as nat)
    }
}

impl View for SlugState {
    type V = Map<Seq<char>, nat>;

    closed spec fn view(&self) -> Map<Seq<char>, nat> {
        entries_map(self.entries@)
    }
}

impl SlugState {
    /// Keys are distinct, so each base slug has exactly one entry, and every
    /// recorded count is at least one occurrence.
    pub closed spec fn wf(&self) -> bool {
        &&& forall|k1: int, k2: int|
            0 <= k1 < k2 < self.entries@.len() ==> self.entries@[k1].0@ != self.entries@[k2].0@
        &&& forall|k: int| 0 <= k < self.entries@.len() ==> (#[trigger] self.entries@[k]).1 >= 1
    }

    /// The slugger starts with an empty table.
    pub fn new() -> (r: SlugState)
        ensures
            r.wf(),
            r@ == Map::<Seq<char>, nat>::empty(),
    {
        SlugState { entries: Vec::new() }
    }
}

impl Default for SlugState {
    /// The slugger starts with an empty table.
    fn default() -> (r: SlugState)
        ensures
            r.wf(),
            r@ == Map::<Seq<char>, nat>::empty(),
    {
        SlugState::new()
    }
}

impl SlugState {
    /// Produces the collision-resolved anchor id for one heading text and
    /// records the occurrence.
    pub fn slugify(&mut self, text: &str) -> (id: String)
        requires
            old(self).wf(),
            forall|b: Seq<char>|
                old(self)@.dom().contains(b) ==> old(self)@[b] < usize::MAX as nat,
        ensures
            final(self).wf(),
            id@ == spec_slugify(old(self)@, text@).0,
            final(self)@ == spec_slugify(old(self)@, text@).1,
    {
        let chars = str_to_chars(text);
        let base = slug_base_exec(&chars);
        let base_s = chars_to_string(&base);
        let ghost b = slug_base(text@);
        assert(base_s@ == b);
        // Find the entry for this base, if any.
        let mut k: usize = 0;
        let n = self.entries.len();
        let mut found: Option<usize> = None;
        while k < n
            invariant
                n == self.entries@.len(),
                k <= n,
                base_s@ == b,
                found is None ==> forall|j: int| 0 <= j < k ==> self.entries@[j].0@ != b,
                found is Some ==> {
                    &&& 0 <= found->0 < n
                    &&& self.entries@[found->0 as int].0@ == b
                },
            decreases n - k,
        {
            if found.is_none() && self.entries[k].0 == base_s {
                found = Some(k);
            }
            k = k + 1;
        }
        match found {
            None => {
                proof {
                    lemma_entries_absent(self.entries@, b);
                }
                let id = chars_to_string(&base);
                self.entries.push((base_s, 1));
                proof {
                    assert(self.entries@.drop_last() =~= old(self).entries@);
                    assert(self@ =~= old(self)@.insert(b, 1nat));
                }
                id
            },
            Some(k0) => {
                proof {
                    lemma_entries_found(self.entries@, k0 as int, b);
                }
                let c = self.entries[k0].1;
                assert(c < usize::MAX) by {
                    assert(old(self)@.dom().contains(b));
                };
                let c1 = c + 1;
                proof {
                    lemma_entries_update(self.entries@, k0 as int, base_s, c1);
                }
                self.entries[k0] = (base_s, c1);
                // Build "base-c1".
                let mut idv = base;
                idv.push('-');
                push_dec(c1, &mut idv);
                let id = chars_to_string(&idv);
                proof {
                    assert(idv@ =~= b + seq!['-'] + dec_str(c1 as nat));
                    assert(self@ =~= old(self)@.insert(b, c1 as nat));
                }
                id
            },
        }
    }
}

/// The decimal string of a number is never empty.
pub proof fn lemma_dec_str_len(n: nat)
    ensures
        dec_str(n).len() >= 1,
    decreases n,
{
    if n >= 10 {
        lemma_dec_str_len(n / 10);
    }
}

/// Distinct numbers have distinct decimal strings.
pub proof fn lemma_dec_str_injective(a: nat, b: nat)
    requires
        a != b,
    ensures
        dec_str(a) != dec_str(b),
    decreases a + b,
{
    if a < 10 && b < 10 {
        assert(dec_str(a)[0] == dec_digit(a));
        assert(dec_str(b)[0] == dec_digit(b));
        assert(dec_digit(a) != dec_digit(b));
    } else if a < 10 {
        lemma_dec_str_len(b / 10);
        assert(dec_str(b).len() >= 2);
    } else if b < 10 {
        lemma_dec_str_len(a / 10);
        assert(dec_str(a).len() >= 2);
    } else {
        if dec_str(a) == dec_str(b) {
            assert(dec_str(a).last() == dec_digit(a % 10));
            assert(dec_str(b).last() == dec_digit(b % 10));
            assert(a % 10 == b % 10);
            assert(dec_str(a).drop_last() =~= dec_str(a / 10));
            assert(dec_str(b).drop_last() =~= dec_str(b / 10));
            if a / 10 == b / 10 {
                assert(a == b) by {
                    assert(a == (a / 10) * 10 + a % 10) by (nonlinear_arith);
                    assert(b == (b / 10) * 10 + b % 10) by (nonlinear_arith);
                };
            } else {
                lemma_dec_str_injective(a / 10, b / 10);
            }
            assert(false);
        }
    }
}

/// Occurrences of one base slug get pairwise distinct ids: the first gets the
/// bare base, the `c`-th the base with the suffix `-c`, and no two of those
/// coincide.
pub proof fn lemma_slug_ids_distinct(b: Seq<char>, c1: nat, c2: nat)
    requires
        c1 >= 1,
        c2 >= 1,
        c1 != c2,
    ensures
        slug_id(b, c1) != slug_id(b, c2),
{
    lemma_dec_str_len(c1);
    lemma_dec_str_len(c2);
    if c1 <= 1 {
        assert(slug_id(b, c2).len() > b.len());
    } else if c2 <= 1 {
        assert(slug_id(b, c1).len() > b.len());
    } else {
        if slug_id(b, c1) == slug_id(b, c2) {
            let p = b + seq!['-'];
            assert((p + dec_str(c1)).subrange(
                p.len() as int,
                (p + dec_str(c1)).len() as int,
            ) =~= dec_str(c1));
            assert((p + dec_str(c2)).subrange(
                p.len() as int,
                (p + dec_str(c2)).len() as int,
            ) =~= dec_str(c2));
            lemma_dec_str_injective(c1, c2);
            assert(false);
        }
    }
}

/// Two heading texts that normalize to the same base slug receive distinct
/// ids, in whichever order the two calls come: the second call sees the
/// occurrence count the first call recorded and picks a strictly larger one.
pub proof fn lemma_same_base_distinct_ids(m: Map<Seq<char>, nat>, t1: Seq<char>, t2: Seq<char>)
    requires
        slug_base(t1) == slug_base(t2),
        forall|x: Seq<char>| m.dom().contains(x) ==> m[x] >= 1,
    ensures
        spec_slugify(m, t1).0 != spec_slugify(spec_slugify(m, t1).1, t2).0,
{
    let b = slug_base(t1);
    let c1: nat = if m.dom().contains(b) {
        m[b] + 1
    } else {
        1
    };
    let m1 = spec_slugify(m, t1).1;
    assert(m1[b] == c1);
    let c2: nat = m1[b] + 1;
    lemma_slug_ids_distinct(b, c1, c2);
}

/// A `slugify` call never lowers any recorded occurrence count, so suffixes
/// grow monotonically over a parse.
pub proof fn lemma_slug_counts_grow(m: Map<Seq<char>, nat>, text: Seq<char>, x: Seq<char>)
    ensures
        m.dom().contains(x) ==> {
            &&& spec_slugify(m, text).1.dom().contains(x)
            &&& spec_slugify(m, text).1[x] >= m[x]
        },
{
}

/// A base slug absent from every entry is absent from the table.
proof fn lemma_entries_absent(s: Seq<(String, usize)>, b: Seq<char>)
    requires
        forall|j: int| 0 <= j < s.len() ==> (#[trigger] s[j]).0@ != b,
    ensures
        !entries_map(s).dom().contains(b),
    decreases s.len(),
{
    if s.len() > 0 {
        lemma_entries_absent(s.drop_last(), b);
    }
}

/// With distinct keys, the entry for a base gives its table count.
proof fn lemma_entries_found(s: Seq<(String, usize)>, k: int, b: Seq<char>)
    requires
        0 <= k < s.len(),
        s[k].0@ == b,
        forall|k1: int, k2: int| 0 <= k1 < k2 < s.len() ==> s[k1].0@ != s[k2].0@,
    ensures
        entries_map(s).dom().contains(b),
        entries_map(s)[b] == s[k].1 as nat,
    decreases s.len(),
{
    if k == s.len() - 1 {
    } else {
        lemma_entries_found(s.drop_last(), k, b);
        assert(s.last().0@ != b);
    }
}

/// With distinct keys, overwriting one entry's count updates just its key.
proof fn lemma_entries_update(s: Seq<(String, usize)>, k: int, name: String, cc: usize)
    requires
        0 <= k < s.len(),
        name@ == s[k].0@,
        forall|k1: int, k2: int| 0 <= k1 < k2 < s.len() ==> s[k1].0@ != s[k2].0@,
    ensures
        entries_map(s.update(k, (name, cc))) =~= entries_map(s).insert(s[k].0@, cc as nat),
    decreases s.len(),
{
    let s2 = s.update(k, (name, cc));
    if k == s.len() - 1 {
        assert(s2.drop_last() =~= s.drop_last());
        assert(s2.last() == (name, cc));
    } else {
        lemma_entries_update(s.drop_last(), k, name, cc);
        assert(s2.drop_last() =~= s.drop_last().update(k, (name, cc)));
        assert(s2.last() == s.last());
        assert(s.last().0@ != s[k].0@);
    }
}

/// Maps the characters of a text to its base slug.
pub fn slug_base_exec(text: &Vec<char>) -> (r: Vec<char>)
    ensures
        r@ == slug_base(text@),
{
    let n = text.len();
    let mut mapped: Vec<char> = Vec::new();
    let mut i: usize = 0;
    while i < n
        invariant
            i <= n,
            n == text@.len(),
            mapped@ == map_slug(text@.take(i as int)),
        decreases n - i,
    {
        push_slug_chars(text[i], &mut mapped);
        proof {
            assert(text@.take((i + 1) as int) =~= text@.take(i as int).push(text@[i as int]));
            lemma_map_slug_push(text@.take(i as int), text@[i as int]);
        }
        i = i + 1;
    }
    proof {
        assert(text@.take(n as int) =~= text@);
    }
    // Trim leading and trailing dashes.
    let m = mapped.len();
    let mut lo: usize = 0;
    while lo < m && mapped[lo] == '-'
        invariant
            lo <= m,
            m == mapped@.len(),
            forall|j: int| 0 <= j < lo ==> mapped@[j] == '-',
        decreases m - lo,
    {
        lo = lo + 1;
    }
    let mut hi: usize = m;
    while hi > lo && mapped[hi - 1] == '-'
        invariant
            lo <= hi <= m,
            m == mapped@.len(),
            forall|j: int| hi <= j < m ==> mapped@[j] == '-',
        decreases hi,
    {
        hi = hi - 1;
    }
    let mut r: Vec<char> = Vec::new();
    let mut i: usize = lo;
    while i < hi
        invariant
            lo <= i <= hi <= m,
            m == mapped@.len(),
            r@ == mapped@.subrange(lo as int, i as int),
        decreases hi - i,
    {
        r.push(mapped[i]);
        proof {
            assert(mapped@.subrange(lo as int, (i + 1) as int) =~= mapped@.subrange(
                lo as int,
                i as int,
            ).push(mapped@[i as int]));
        }
        i = i + 1;
    }
    proof {
        lemma_trim_range(mapped@, lo as int, hi as int);
        assert(r@ == mapped@.subrange(lo as int, hi as int));
    }
    r
}

/// Trimming dashes is taking the subrange between the outermost non-dashes.
proof fn lemma_trim_range(s: Seq<char>, lo: int, hi: int)
    requires
        0 <= lo <= hi <= s.len(),
        forall|j: int| 0 <= j < lo ==> s[j] == '-',
        forall|j: int| hi <= j < s.len() ==> s[j] == '-',
        lo < s.len() ==> lo < hi,
        lo < hi ==> s[lo] != '-' && s[hi - 1] != '-',
    ensures
        drop_trailing_dashes(drop_leading_dashes(s)) == s.subrange(lo, hi),
{
    lemma_drop_leading(s, lo);
    let t = s.subrange(lo, s.len() as int);
    lemma_drop_trailing(t, hi - lo);
    assert(t.subrange(0, hi - lo) =~= s.subrange(lo, hi));
}

/// `drop_leading_dashes` drops exactly the leading dash run.
proof fn lemma_drop_leading(s: Seq<char>, lo: int)
    requires
        0 <= lo <= s.len(),
        forall|j: int| 0 <= j < lo ==> s[j] == '-',
        lo < s.len() ==> s[lo] != '-',
    ensures
        drop_leading_dashes(s) == s.subrange(lo, s.len() as int),
    decreases lo,
{
    if lo == 0 {
        assert(s.subrange(0, s.len() as int) =~= s);
    } else {
        assert(s[0] == '-');
        assert(s.drop_first() =~= s.subrange(1, s.len() as int));
        lemma_drop_leading(s.drop_first(), lo - 1);
        assert(s.drop_first().subrange(lo - 1, s.drop_first().len() as int) =~= s.subrange(
            lo,
            s.len() as int,
        ));
    }
}

/// `drop_trailing_dashes` drops exactly the trailing dash run.
proof fn lemma_drop_trailing(s: Seq<char>, hi: int)
    requires
        0 <= hi <= s.len(),
        forall|j: int| hi <= j < s.len() ==> s[j] == '-',
        hi > 0 ==> s[hi - 1] != '-',
    ensures
        drop_trailing_dashes(s) == s.subrange(0, hi),
    decreases s.len() - hi,
{
    if hi == s.len() {
        assert(s.subrange(0, s.len() as int) =~= s);
    } else {
        assert(s.last() == '-');
        assert(s.drop_last() =~= s.subrange(0, s.len() - 1));
        lemma_drop_trailing(s.drop_last(), hi);
        assert(s.drop_last().subrange(0, hi) =~= s.subrange(0, hi));
    }
}

/// The decimal digit character for `d < 10`, executable form.
pub fn dec_digit_exec(d: usize) -> (r: char)
    requires
        d < 10,
    ensures
        r == dec_digit(d as nat),
{
    match d {
        0 => '0',
        1 => '1',
        2 => '2',
        3 => '3',
        4 => '4',
        5 => '5',
        6 => '6',
        7 => '7',
        8 => '8',
        _ => '9',
    }
}

/// Appends the decimal digits of `n` to the buffer.
pub fn push_dec(n: usize, out: &mut Vec<char>)
    ensures
        final(out)@ == old(out)@ + dec_str(n as nat),
    decreases n,
{
    if n < 10 {
        out.push(dec_digit_exec(n));
        proof {
            assert(old(out)@ + dec_str(n as nat) =~= old(out)@.push(dec_digit(n as nat)));
        }
    } else {
        push_dec(n / 10, out);
        out.push(dec_digit_exec(n % 10));
        proof {
            assert(old(out)@ + dec_str(n as nat) =~= (old(out)@ + dec_str((n / 10) as nat)).push(
                dec_digit((n % 10) as nat),
            ));
        }
    }
}

} // verus!
