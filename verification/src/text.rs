//! Character-sequence helpers shared by the translation and headgear modules.
use vstd::prelude::*;

verus! {

/// Appends one character to a `String` (`String::push`).
/// Trusted: the standard library documents that `push` appends `c` to the end.
#[verifier::external_body]
pub fn string_push(s: &mut String, c: char)
    ensures
        final(s)@ == old(s)@.push(c),
{
    s.push(c);
}

/// The characters of a string slice, in order.
pub fn chars_of(s: &str) -> (v: Vec<char>)
    ensures
        v@ == s@,
{
    let mut v: Vec<char> = Vec::new();
    for c in it: s.chars()
        invariant
            v@ == it.seq().take(it.index() as int),
    {
        v.push(c);
    }
    v
}

} // verus!

verus! {

/// The views of a sequence of character vectors.
pub open spec fn views(v: Seq<Vec<char>>) -> Seq<Seq<char>> {
    v.map_values(|x: Vec<char>| x@)
}

/// `s` cut at every `sep`, as `str::split` cuts it: always at least one piece,
/// and the pieces hold no `sep`.
pub open spec fn split_on(s: Seq<char>, sep: char) -> Seq<Seq<char>>
    decreases s.len(),
{
    if s.len() == 0 {
        seq![Seq::<char>::empty()]
    } else {
        let p = split_on(s.drop_last(), sep);
        if s.last() == sep {
            p.push(Seq::<char>::empty())
        } else {
            p.update(p.len() - 1, p.last().push(s.last()))
        }
    }
}

pub proof fn lemma_split_on_nonempty(s: Seq<char>, sep: char)
    ensures
        split_on(s, sep).len() >= 1,
    decreases s.len(),
{
    if s.len() > 0 {
        lemma_split_on_nonempty(s.drop_last(), sep);
    }
}

/// The pieces joined back together with `sep` between neighbours.
pub open spec fn join(ps: Seq<Seq<char>>, sep: char) -> Seq<char>
    decreases ps.len(),
{
    if ps.len() == 0 {
        Seq::<char>::empty()
    } else if ps.len() == 1 {
        ps[0]
    } else {
        join(ps.drop_last(), sep) + seq![sep] + ps.last()
    }
}

/// Splits `s` at every `sep`.
pub fn split_chars(s: &[char], sep: char) -> (r: Vec<Vec<char>>)
    ensures
        views(r@) == split_on(s@, sep),
{
    let mut done: Vec<Vec<char>> = Vec::new();
    let mut cur: Vec<char> = Vec::new();
    for i in 0..s.len()
        invariant
            views(done@).push(cur@) == split_on(s@.take(i as int), sep),
    {
        proof {
            lemma_split_on_nonempty(s@.take(i as int), sep);
            assert(s@.take(i + 1).drop_last() =~= s@.take(i as int));
        }
        let ghost before = split_on(s@.take(i as int), sep);
        if s[i] == sep {
            done.push(cur);
            cur = Vec::new();
            assert(views(done@).push(cur@) =~= before.push(Seq::<char>::empty()));
        } else {
            cur.push(s[i]);
            assert(views(done@).push(cur@) =~= before.update(
                before.len() - 1,
                before.last().push(s@[i as int]),
            ));
        }
    }
    assert(s@.take(s.len() as int) =~= s@);
    done.push(cur);
    assert(views(done@) =~= split_on(s@, sep));
    done
}

/// Joins `ps` with `sep` between neighbours.
pub fn join_chars(ps: &Vec<Vec<char>>, sep: char) -> (r: Vec<char>)
    ensures
        r@ == join(views(ps@), sep),
{
    let mut r: Vec<char> = Vec::new();
    for i in 0..ps.len()
        invariant
            r@ == join(views(ps@).take(i as int), sep),
    {
        let ghost prev = views(ps@).take(i as int);
        assert(views(ps@).take(i + 1).drop_last() =~= prev);
        if i > 0 {
            r.push(sep);
        }
        let piece = &ps[i];
        for j in 0..piece.len()
            invariant
                r@ == (if i > 0 { join(prev, sep) + seq![sep] } else { join(prev, sep) })
                    + piece@.take(j as int),
        {
            r.push(piece[j]);
            assert(piece@.take(j + 1) =~= piece@.take(j as int).push(piece@[j as int]));
        }
        assert(piece@.take(piece.len() as int) =~= piece@);
        assert(r@ =~= join(views(ps@).take(i + 1), sep));
    }
    assert(views(ps@).take(ps.len() as int) =~= views(ps@));
    r
}

/// A `String` holding the characters of `cs`.
pub fn string_from_chars(cs: &[char]) -> (s: String)
    ensures
        s@ == cs@,
{
    let mut s = String::new();
    for i in 0..cs.len()
        invariant
            s@ == cs@.take(i as int),
    {
        string_push(&mut s, cs[i]);
        assert(cs@.take(i + 1) =~= cs@.take(i as int).push(cs@[i as int]));
    }
    assert(cs@.take(cs.len() as int) =~= cs@);
    s
}

/// Every character of `s` is ASCII (code point at most 0x7f).
pub open spec fn ascii_only(s: Seq<char>) -> bool {
    forall|k: int| 0 <= k < s.len() ==> #[trigger] s[k] <= '\u{7f}'
}

/// Whether every character of `s` is ASCII.
pub fn all_ascii(s: &[char]) -> (r: bool)
    ensures
        r == ascii_only(s@),
{
    for i in 0..s.len()
        invariant
            forall|k: int| 0 <= k < i ==> #[trigger] s@[k] <= '\u{7f}',
    {
        let c = s[i];
        if c > '\u{7f}' {
            assert(s@[i as int] == c);
            return false;
        }
    }
    true
}

} // verus!

verus! {

/// The position of the last `c` in `s`, if any.
pub open spec fn last_index_of(s: Seq<char>, c: char) -> Option<int>
    decreases s.len(),
{
    if s.len() == 0 {
        None
    } else if s.last() == c {
        Some(s.len() - 1)
    } else {
        last_index_of(s.drop_last(), c)
    }
}

pub proof fn lemma_last_index_of(s: Seq<char>, c: char)
    ensures
        last_index_of(s, c) matches Some(i) ==> 0 <= i < s.len() && s[i] == c && (forall|k: int|
            i < k < s.len() ==> s[k] != c),
        last_index_of(s, c) is None ==> forall|k: int| 0 <= k < s.len() ==> s[k] != c,
    decreases s.len(),
{
    if s.len() > 0 {
        lemma_last_index_of(s.drop_last(), c);
        assert(forall|k: int| 0 <= k < s.len() - 1 ==> s.drop_last()[k] == #[trigger] s[k]);
    }
}

/// Finds the position of the last `c` in `s`.
pub fn rfind_char(s: &[char], c: char) -> (r: Option<usize>)
    ensures
        r matches Some(i) ==> last_index_of(s@, c) == Some(i as int),
        r is None ==> last_index_of(s@, c) is None,
{
    let mut i = s.len();
    assert(s@.take(i as int) =~= s@);
    while i > 0
        invariant
            i <= s.len(),
            last_index_of(s@, c) == last_index_of(s@.take(i as int), c),
        decreases i,
    {
        assert(s@.take(i as int).drop_last() =~= s@.take(i - 1));
        if s[i - 1] == c {
            return Some(i - 1);
        }
        i = i - 1;
    }
    None
}

/// `s` begins with `p`.
pub open spec fn starts_with(s: Seq<char>, p: Seq<char>) -> bool {
    p.len() <= s.len() && s.take(p.len() as int) == p
}

/// Whether the part `lo..hi` of `s` begins with `p`.
pub fn has_prefix(s: &[char], lo: usize, hi: usize, p: &[char]) -> (r: bool)
    requires
        lo <= hi <= s.len(),
    ensures
        r == starts_with(s@.subrange(lo as int, hi as int), p@),
{
    if p.len() > hi - lo {
        return false;
    }
    for k in 0..p.len()
        invariant
            p.len() <= hi - lo,
            lo <= hi <= s.len(),
            forall|j: int| 0 <= j < k ==> s@[lo + j] == p@[j],
    {
        if s[lo + k] != p[k] {
            assert(s@.subrange(lo as int, hi as int).take(p.len() as int)[k as int] != p@[k as int]);
            return false;
        }
    }
    assert(s@.subrange(lo as int, hi as int).take(p.len() as int) =~= p@);
    true
}

/// `char::is_whitespace`: the characters with the Unicode `White_Space` property.
pub open spec fn is_whitespace(c: char) -> bool {
    ||| ('\u{9}' <= c && c <= '\u{d}')
    ||| c == ' '
    ||| c == '\u{85}'
    ||| c == '\u{a0}'
    ||| c == '\u{1680}'
    ||| ('\u{2000}' <= c && c <= '\u{200a}')
    ||| c == '\u{2028}'
    ||| c == '\u{2029}'
    ||| c == '\u{202f}'
    ||| c == '\u{205f}'
    ||| c == '\u{3000}'
}

pub fn is_whitespace_char(c: char) -> (r: bool)
    ensures
        r == is_whitespace(c),
{
    ('\u{9}' <= c && c <= '\u{d}') || c == ' ' || c == '\u{85}' || c == '\u{a0}' || c == '\u{1680}'
        || ('\u{2000}' <= c && c <= '\u{200a}') || c == '\u{2028}' || c == '\u{2029}' || c
        == '\u{202f}' || c == '\u{205f}' || c == '\u{3000}'
}

/// `s` without its leading whitespace.
pub open spec fn trim_start(s: Seq<char>) -> Seq<char>
    decreases s.len(),
{
    if s.len() > 0 && is_whitespace(s[0]) {
        trim_start(s.drop_first())
    } else {
        s
    }
}

/// `s` without its trailing whitespace.
pub open spec fn trim_end(s: Seq<char>) -> Seq<char>
    decreases s.len(),
{
    if s.len() > 0 && is_whitespace(s.last()) {
        trim_end(s.drop_last())
    } else {
        s
    }
}

/// `str::trim`: `s` without leading and trailing whitespace.
pub open spec fn trim(s: Seq<char>) -> Seq<char> {
    trim_end(trim_start(s))
}

proof fn lemma_trim_start_skip(s: Seq<char>, i: int)
    requires
        0 <= i <= s.len(),
        forall|k: int| 0 <= k < i ==> is_whitespace(#[trigger] s[k]),
        i == s.len() || !is_whitespace(s[i]),
    ensures
        trim_start(s) == s.skip(i),
    decreases i,
{
    if i > 0 {
        assert forall|k: int| 0 <= k < i - 1 implies is_whitespace(#[trigger] s.drop_first()[k]) by {
            assert(s.drop_first()[k] == s[k + 1]);
        }
        lemma_trim_start_skip(s.drop_first(), i - 1);
        assert(s.drop_first().skip(i - 1) =~= s.skip(i));
    } else {
        assert(s.skip(0) =~= s);
    }
}

proof fn lemma_trim_end_take(s: Seq<char>, j: int)
    requires
        0 <= j <= s.len(),
        forall|k: int| j <= k < s.len() ==> is_whitespace(#[trigger] s[k]),
        j == 0 || !is_whitespace(s[j - 1]),
    ensures
        trim_end(s) == s.take(j),
    decreases s.len() - j,
{
    if j < s.len() {
        assert forall|k: int| j <= k < s.len() - 1 implies is_whitespace(#[trigger] s.drop_last()[k]) by {
            assert(s.drop_last()[k] == s[k]);
        }
        lemma_trim_end_take(s.drop_last(), j);
        assert(s.drop_last().take(j) =~= s.take(j));
    } else {
        assert(s.take(j) =~= s);
    }
}

/// The bounds of the trimmed part of `lo..hi` in `s`.
pub fn trim_range(s: &[char], lo: usize, hi: usize) -> (r: (usize, usize))
    requires
        lo <= hi <= s.len(),
    ensures
        lo <= r.0 <= r.1 <= hi,
        s@.subrange(r.0 as int, r.1 as int) == trim(s@.subrange(lo as int, hi as int)),
{
    let ghost t = s@.subrange(lo as int, hi as int);
    let mut a = lo;
    while a < hi && is_whitespace_char(s[a])
        invariant
            lo <= a <= hi <= s.len(),
            t == s@.subrange(lo as int, hi as int),
            forall|k: int| 0 <= k < a - lo ==> is_whitespace(#[trigger] t[k]),
        decreases hi - a,
    {
        a = a + 1;
    }
    proof {
        lemma_trim_start_skip(t, a - lo);
        assert(t.skip(a - lo) =~= s@.subrange(a as int, hi as int));
    }
    let ghost u = s@.subrange(a as int, hi as int);
    let mut b = hi;
    while b > a && is_whitespace_char(s[b - 1])
        invariant
            lo <= a <= b <= hi <= s.len(),
            u == s@.subrange(a as int, hi as int),
            forall|k: int| b - a <= k < u.len() ==> is_whitespace(#[trigger] u[k]),
        decreases b - a,
    {
        b = b - 1;
    }
    proof {
        lemma_trim_end_take(u, b - a);
        assert(u.take(b - a) =~= s@.subrange(a as int, b as int));
    }
    (a, b)
}

} // verus!

verus! {

/// A copy of the part `lo..hi` of `s`.
pub fn copy_range(s: &[char], lo: usize, hi: usize) -> (r: Vec<char>)
    requires
        lo <= hi <= s.len(),
    ensures
        r@ == s@.subrange(lo as int, hi as int),
{
    let mut r: Vec<char> = Vec::new();
    for k in lo..hi
        invariant
            lo <= hi <= s.len(),
            r@ == s@.subrange(lo as int, k as int),
    {
        r.push(s[k]);
        assert(s@.subrange(lo as int, k + 1) =~= s@.subrange(lo as int, k as int).push(s@[k as int]));
    }
    r
}

/// Appends the characters of `s` to `r`.
pub fn append_chars(r: &mut Vec<char>, s: &[char])
    ensures
        final(r)@ == old(r)@ + s@,
{
    for k in 0..s.len()
        invariant
            r@ == old(r)@ + s@.take(k as int),
    {
        r.push(s[k]);
        assert(s@.take(k + 1) =~= s@.take(k as int).push(s@[k as int]));
    }
    assert(s@.take(s.len() as int) =~= s@);
}

} // verus!

verus! {

/// The part of `s` before its first `c` (all of `s` when it holds none):
/// the first piece that `str::split` gives.
pub open spec fn before_first(s: Seq<char>, c: char) -> Seq<char>
    decreases s.len(),
{
    if s.len() == 0 {
        s
    } else if s[0] == c {
        Seq::empty()
    } else {
        seq![s[0]] + before_first(s.drop_first(), c)
    }
}

proof fn lemma_before_first(s: Seq<char>, c: char, j: int)
    requires
        0 <= j <= s.len(),
        forall|k: int| 0 <= k < j ==> #[trigger] s[k] != c,
        j == s.len() || s[j] == c,
    ensures
        before_first(s, c) == s.take(j),
    decreases j,
{
    if j > 0 {
        assert forall|k: int| 0 <= k < j - 1 implies #[trigger] s.drop_first()[k] != c by {
            assert(s.drop_first()[k] == s[k + 1]);
        }
        lemma_before_first(s.drop_first(), c, j - 1);
        assert(seq![s[0]] + s.drop_first().take(j - 1) =~= s.take(j));
    } else {
        if s.len() == 0 {
            assert(s.take(0) =~= s);
        } else {
            assert(s.take(0) =~= Seq::<char>::empty());
        }
    }
}

/// The end of the part of `lo..hi` in `s` before its first `c`.
pub fn find_first(s: &[char], lo: usize, hi: usize, c: char) -> (r: usize)
    requires
        lo <= hi <= s.len(),
    ensures
        lo <= r <= hi,
        s@.subrange(lo as int, r as int) == before_first(s@.subrange(lo as int, hi as int), c),
{
    let ghost t = s@.subrange(lo as int, hi as int);
    let mut j = lo;
    while j < hi && s[j] != c
        invariant
            lo <= j <= hi <= s.len(),
            t == s@.subrange(lo as int, hi as int),
            forall|k: int| 0 <= k < j - lo ==> #[trigger] t[k] != c,
        decreases hi - j,
    {
        j = j + 1;
    }
    proof {
        lemma_before_first(t, c, j - lo);
        assert(t.take(j - lo) =~= s@.subrange(lo as int, j as int));
    }
    j
}

/// A decimal digit.
pub open spec fn is_dec_digit(c: char) -> bool {
    '0' <= c && c <= '9'
}

/// The value of a string of decimal digits.
pub open spec fn digits_value(d: Seq<char>) -> nat
    decreases d.len(),
{
    if d.len() == 0 {
        0
    } else {
        digits_value(d.drop_last()) * 10 + ((d.last() as int) - ('0' as int)) as nat
    }
}

/// The digits that `u32::from_str` reads: a leading `+` is dropped when more follows.
pub open spec fn unsigned_digits(s: Seq<char>) -> Seq<char> {
    if s.len() >= 2 && s[0] == '+' {
        s.drop_first()
    } else {
        s
    }
}

/// `str::parse::<u32>`: an optional `+`, then one or more decimal digits whose value fits.
pub open spec fn parse_u32_spec(s: Seq<char>) -> Option<u32> {
    let d = unsigned_digits(s);
    if d.len() > 0 && (forall|k: int| 0 <= k < d.len() ==> is_dec_digit(#[trigger] d[k]))
        && digits_value(d) <= u32::MAX {
        Some(digits_value(d) as u32)
    } else {
        None
    }
}

proof fn lemma_digits_value_grows(d: Seq<char>, j: int)
    requires
        0 <= j <= d.len(),
        forall|k: int| 0 <= k < d.len() ==> is_dec_digit(#[trigger] d[k]),
    ensures
        digits_value(d.take(j)) <= digits_value(d),
    decreases d.len() - j,
{
    if j < d.len() {
        lemma_digits_value_grows(d, j + 1);
        assert(d.take(j + 1).drop_last() =~= d.take(j));
        assert(is_dec_digit(d.take(j + 1).last()));
    } else {
        assert(d.take(j) =~= d);
    }
}

/// Parses the part `lo..hi` of `s` as `str::parse::<u32>` does.
pub fn parse_u32(s: &[char], lo: usize, hi: usize) -> (r: Option<u32>)
    requires
        lo <= hi <= s.len(),
    ensures
        r == parse_u32_spec(s@.subrange(lo as int, hi as int)),
{
    let ghost t = s@.subrange(lo as int, hi as int);
    let mut start = lo;
    if hi - lo >= 2 && s[lo] == '+' {
        start = lo + 1;
    }
    let ghost d = unsigned_digits(t);
    assert(d =~= s@.subrange(start as int, hi as int));
    if start == hi {
        return None;
    }
    let mut v: u64 = 0;
    let mut k = start;
    while k < hi
        invariant
            lo <= start <= k <= hi <= s.len(),
            d == s@.subrange(start as int, hi as int),
            t == s@.subrange(lo as int, hi as int),
            d == unsigned_digits(t),
            d.len() > 0,
            forall|j: int| 0 <= j < k - start ==> is_dec_digit(#[trigger] d[j]),
            v == digits_value(d.take(k - start)),
            v <= u32::MAX,
        decreases hi - k,
    {
        let c = s[k];
        assert(d[k - start] == c);
        if !('0' <= c && c <= '9') {
            return None;
        }
        let digit = (c as u32) - ('0' as u32);
        assert(d.take(k - start + 1).drop_last() =~= d.take(k - start));
        v = v * 10 + digit as u64;
        if v > 0xffff_ffffu64 {
            proof {
                assert(digits_value(d.take(k - start + 1)) == v);
                if forall|j: int| 0 <= j < d.len() ==> is_dec_digit(#[trigger] d[j]) {
                    lemma_digits_value_grows(d, k - start + 1);
                }
            }
            return None;
        }
        k = k + 1;
    }
    assert(d.take(hi - start) =~= d);
    Some(v as u32)
}

} // verus!

verus! {

/// Whether the part `lo..hi` of `s` is exactly `p`.
pub fn range_equals(s: &[char], lo: usize, hi: usize, p: &[char]) -> (r: bool)
    requires
        lo <= hi <= s.len(),
    ensures
        r == (s@.subrange(lo as int, hi as int) == p@),
{
    if hi - lo != p.len() {
        return false;
    }
    let r = has_prefix(s, lo, hi, p);
    assert(s@.subrange(lo as int, hi as int).take(p.len() as int) =~= s@.subrange(
        lo as int,
        hi as int,
    ));
    r
}

} // verus!

verus! {

/// The views of a sequence of strings.
pub open spec fn string_views(v: Seq<String>) -> Seq<Seq<char>> {
    v.map_values(|s: String| s@)
}

} // verus!

verus! {

/// `s` with every `a` replaced by `b`.
pub open spec fn replace_char(s: Seq<char>, a: char, b: char) -> Seq<char> {
    s.map_values(|c: char| if c == a { b } else { c })
}

proof fn lemma_join_extend_last(p: Seq<Seq<char>>, sep: char, c: char)
    requires
        p.len() >= 1,
    ensures
        join(p.update(p.len() - 1, p.last().push(c)), sep) == join(p, sep).push(c),
{
    let q = p.update(p.len() - 1, p.last().push(c));
    if p.len() == 1 {
    } else {
        assert(q.drop_last() =~= p.drop_last());
        assert(join(q, sep) =~= join(p, sep).push(c));
    }
}

/// Cutting at every `a` and joining with `b` replaces every `a` by `b`.
pub proof fn lemma_join_split(s: Seq<char>, a: char, b: char)
    ensures
        join(split_on(s, a), b) == replace_char(s, a, b),
    decreases s.len(),
{
    if s.len() == 0 {
        assert(join(split_on(s, a), b) =~= replace_char(s, a, b));
    } else {
        lemma_join_split(s.drop_last(), a, b);
        lemma_split_on_nonempty(s.drop_last(), a);
        let p = split_on(s.drop_last(), a);
        assert(replace_char(s, a, b) =~= replace_char(s.drop_last(), a, b).push(
            if s.last() == a { b } else { s.last() },
        ));
        if s.last() == a {
            assert(p.push(Seq::<char>::empty()).drop_last() =~= p);
            assert(join(p.push(Seq::<char>::empty()), b) =~= join(p, b) + seq![b]);
        } else {
            lemma_join_extend_last(p, b, s.last());
        }
    }
}

/// Every piece of an ASCII sequence is ASCII.
pub proof fn lemma_split_ascii(s: Seq<char>, a: char)
    requires
        ascii_only(s),
    ensures
        forall|i: int| 0 <= i < split_on(s, a).len() ==> ascii_only(#[trigger] split_on(s, a)[i]),
    decreases s.len(),
{
    if s.len() > 0 {
        assert(ascii_only(s.drop_last()));
        lemma_split_ascii(s.drop_last(), a);
        lemma_split_on_nonempty(s.drop_last(), a);
        let p = split_on(s.drop_last(), a);
        if s.last() != a {
            assert(ascii_only(p.last().push(s.last()))) by {
                assert(ascii_only(p[p.len() - 1]));
                assert(s[s.len() - 1] <= '\u{7f}');
            }
        }
    }
}

} // verus!

verus! {

/// No piece holds the separator, and no piece holds a character that `s` lacks.
pub proof fn lemma_split_pieces(s: Seq<char>, sep: char, d: char)
    ensures
        forall|i: int| 0 <= i < split_on(s, sep).len() ==> !(#[trigger] split_on(s, sep)[i]).contains(sep),
        !s.contains(d) ==> forall|i: int|
            0 <= i < split_on(s, sep).len() ==> !(#[trigger] split_on(s, sep)[i]).contains(d),
    decreases s.len(),
{
    if s.len() > 0 {
        let t = s.drop_last();
        lemma_split_pieces(t, sep, d);
        lemma_split_on_nonempty(t, sep);
        let p = split_on(t, sep);
        if !s.contains(d) {
            assert(!t.contains(d)) by {
                if t.contains(d) {
                    let k = choose|k: int| 0 <= k < t.len() && t[k] == d;
                    assert(s[k] == d);
                }
            }
        }
        if s.last() != sep {
            let q = p.last().push(s.last());
            assert(!q.contains(sep)) by {
                if q.contains(sep) {
                    let k = choose|k: int| 0 <= k < q.len() && q[k] == sep;
                    if k < p.last().len() {
                        assert(p[p.len() - 1][k] == sep);
                    }
                }
            }
            if !s.contains(d) {
                assert(!q.contains(d)) by {
                    if q.contains(d) {
                        let k = choose|k: int| 0 <= k < q.len() && q[k] == d;
                        if k < p.last().len() {
                            assert(p[p.len() - 1][k] == d);
                        } else {
                            assert(s[s.len() - 1] == d);
                        }
                    }
                }
            }
        } else {
            assert(!Seq::<char>::empty().contains(sep));
            assert(!Seq::<char>::empty().contains(d));
        }
    }
}

} // verus!

verus! {

proof fn lemma_split_append_nosep(s: Seq<char>, t: Seq<char>, sep: char)
    requires
        !t.contains(sep),
    ensures
        split_on(s + t, sep) == split_on(s, sep).update(
            split_on(s, sep).len() - 1,
            split_on(s, sep).last() + t,
        ),
    decreases t.len(),
{
    lemma_split_on_nonempty(s, sep);
    let p = split_on(s, sep);
    if t.len() == 0 {
        assert(s + t =~= s);
        assert(p.last() + t =~= p.last());
        assert(p.update(p.len() - 1, p.last()) =~= p);
    } else {
        let t1 = t.drop_last();
        assert(!t1.contains(sep)) by {
            if t1.contains(sep) {
                let k = choose|k: int| 0 <= k < t1.len() && t1[k] == sep;
                assert(t[k] == sep);
            }
        }
        assert(t.last() != sep) by {
            assert(t[t.len() - 1] == t.last());
        }
        lemma_split_append_nosep(s, t1, sep);
        assert((s + t).drop_last() =~= s + t1);
        assert((s + t).last() == t.last());
        let q = p.update(p.len() - 1, p.last() + t1);
        assert(q.last().push(t.last()) =~= p.last() + t);
        assert(q.update(q.len() - 1, q.last().push(t.last())) =~= p.update(
            p.len() - 1,
            p.last() + t,
        ));
    }
}

/// Cutting a join at its separator gives the pieces back, when no piece holds it.
pub proof fn lemma_split_join(ts: Seq<Seq<char>>, sep: char)
    requires
        ts.len() >= 1,
        forall|i: int| 0 <= i < ts.len() ==> !(#[trigger] ts[i]).contains(sep),
    ensures
        split_on(join(ts, sep), sep) == ts,
    decreases ts.len(),
{
    if ts.len() == 1 {
        lemma_split_append_nosep(Seq::empty(), ts[0], sep);
        assert(Seq::<char>::empty() + ts[0] =~= ts[0]);
        assert(Seq::<char>::empty() + ts[0] =~= ts[0]);
        assert(seq![Seq::<char>::empty()].update(0, Seq::<char>::empty() + ts[0]) =~= ts);
    } else {
        let init = ts.drop_last();
        assert(!ts[ts.len() - 1].contains(sep));
        lemma_split_join(init, sep);
        let j = join(init, sep);
        let js = j + seq![sep];
        assert(js.drop_last() =~= j);
        assert(split_on(js, sep) == split_on(j, sep).push(Seq::<char>::empty()));
        lemma_split_append_nosep(js, ts.last(), sep);
        assert(join(ts, sep) == js + ts.last());
        assert(Seq::<char>::empty() + ts.last() =~= ts.last());
        assert(init.push(Seq::<char>::empty()).update(init.len() as int, ts.last()) =~= ts);
    }
}

/// A join holds a character other than the separator only if some piece holds it.
pub proof fn lemma_join_avoids(ts: Seq<Seq<char>>, sep: char, d: char)
    requires
        d != sep,
        forall|i: int| 0 <= i < ts.len() ==> !(#[trigger] ts[i]).contains(d),
    ensures
        !join(ts, sep).contains(d),
    decreases ts.len(),
{
    if ts.len() > 1 {
        let init = ts.drop_last();
        assert(!ts[ts.len() - 1].contains(d));
        lemma_join_avoids(init, sep, d);
        let a = join(init, sep);
        let r = a + seq![sep] + ts.last();
        if r.contains(d) {
            let k = choose|k: int| 0 <= k < r.len() && r[k] == d;
            if k < a.len() {
                assert(a[k] == d);
            } else if k == a.len() {
            } else {
                assert(ts.last()[k - a.len() - 1] == d);
            }
        }
    } else if ts.len() == 1 {
        assert(!ts[0].contains(d));
    }
}

} // verus!
