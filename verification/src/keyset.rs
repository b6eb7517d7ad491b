//! Sorted, duplicate-free lists of character sequences, ordered as `str` orders them.
use vstd::prelude::*;

verus! {

/// The order of `str` and `String` (`Ord`): lexicographic by Unicode scalar value,
/// a proper prefix before the longer sequence.
pub open spec fn seq_less(a: Seq<char>, b: Seq<char>) -> bool
    decreases a.len(),
{
    if a.len() == 0 {
        b.len() > 0
    } else if b.len() == 0 {
        false
    } else if a[0] != b[0] {
        a[0] < b[0]
    } else {
        seq_less(a.drop_first(), b.drop_first())
    }
}

pub proof fn lemma_less_total(a: Seq<char>, b: Seq<char>)
    ensures
        a == b || seq_less(a, b) || seq_less(b, a),
        !(seq_less(a, b) && seq_less(b, a)),
    decreases a.len(),
{
    if a.len() > 0 && b.len() > 0 {
        lemma_less_total(a.drop_first(), b.drop_first());
        if a[0] == b[0] && a.drop_first() == b.drop_first() {
            assert(a =~= seq![a[0]] + a.drop_first());
            assert(b =~= seq![b[0]] + b.drop_first());
        }
    } else if a.len() == 0 && b.len() == 0 {
        assert(a =~= b);
    }
}

pub proof fn lemma_less_transitive(a: Seq<char>, b: Seq<char>, c: Seq<char>)
    requires
        seq_less(a, b),
        seq_less(b, c),
    ensures
        seq_less(a, c),
    decreases a.len(),
{
    if a.len() > 0 && b.len() > 0 && c.len() > 0 {
        if a[0] == b[0] && b[0] == c[0] {
            lemma_less_transitive(a.drop_first(), b.drop_first(), c.drop_first());
        }
    }
}

/// Strictly increasing in the `str` order, so free of duplicates.
pub open spec fn strictly_sorted(s: Seq<Seq<char>>) -> bool {
    forall|i: int, j: int| 0 <= i < j < s.len() ==> seq_less(#[trigger] s[i], #[trigger] s[j])
}

/// `x` put into the sorted list `s` at its place, unless it is there already.
pub open spec fn insert_sorted(s: Seq<Seq<char>>, x: Seq<char>) -> Seq<Seq<char>>
    decreases s.len(),
{
    if s.len() == 0 {
        seq![x]
    } else if seq_less(s[0], x) {
        seq![s[0]] + insert_sorted(s.drop_first(), x)
    } else if s[0] == x {
        s
    } else {
        seq![x] + s
    }
}

/// Every element of `xs`, in turn, put into the sorted list `s`.
pub open spec fn insert_all(s: Seq<Seq<char>>, xs: Seq<Seq<char>>) -> Seq<Seq<char>>
    decreases xs.len(),
{
    if xs.len() == 0 {
        s
    } else {
        insert_sorted(insert_all(s, xs.drop_last()), xs.last())
    }
}

/// The distinct elements of `xs` in increasing order.
pub open spec fn sort_dedup(xs: Seq<Seq<char>>) -> Seq<Seq<char>> {
    insert_all(Seq::empty(), xs)
}

proof fn lemma_insert_sorted_at(s: Seq<Seq<char>>, x: Seq<char>, p: int)
    requires
        0 <= p <= s.len(),
        forall|k: int| 0 <= k < p ==> seq_less(#[trigger] s[k], x),
        p == s.len() || !seq_less(s[p], x),
    ensures
        insert_sorted(s, x) == if p < s.len() && s[p] == x {
            s
        } else {
            s.insert(p, x)
        },
    decreases p,
{
    if p > 0 {
        assert forall|k: int| 0 <= k < p - 1 implies seq_less(#[trigger] s.drop_first()[k], x) by {
            assert(s.drop_first()[k] == s[k + 1]);
        }
        lemma_insert_sorted_at(s.drop_first(), x, p - 1);
        if p < s.len() && s[p] == x {
            assert(seq![s[0]] + s.drop_first() =~= s);
        } else {
            assert(seq![s[0]] + s.drop_first().insert(p - 1, x) =~= s.insert(p, x));
        }
    } else {
        if s.len() > 0 && s[0] == x {
        } else if s.len() > 0 {
            assert(seq![x] + s =~= s.insert(0, x));
        } else {
            assert(seq![x] =~= s.insert(0, x));
        }
    }
}

/// Putting an element into a sorted list keeps it sorted and adds exactly that element.
pub proof fn lemma_insert_sorted(s: Seq<Seq<char>>, x: Seq<char>)
    requires
        strictly_sorted(s),
    ensures
        strictly_sorted(insert_sorted(s, x)),
        insert_sorted(s, x).to_set() == s.to_set().insert(x),
{
    let p = choose_position(s, x);
    lemma_choose_position(s, x);
    lemma_insert_sorted_at(s, x, p);
    if p < s.len() && s[p] == x {
        assert(s.to_set() =~= s.to_set().insert(x)) by {
            assert(s[p] == x);
            assert(s.contains(x));
        }
    } else {
        let t = s.insert(p, x);
        assert forall|k: int| p < k < s.len() implies seq_less(x, #[trigger] s[k]) by {
            lemma_less_total(s[p], x);
            lemma_less_transitive(x, s[p], s[k]);
        }
        if p < s.len() {
            lemma_less_total(s[p], x);
        }
        assert forall|i: int, j: int| 0 <= i < j < t.len() implies seq_less(
            #[trigger] t[i],
            #[trigger] t[j],
        ) by {
            if j < p {
                assert(t[i] == s[i] && t[j] == s[j]);
            } else if j == p {
                assert(t[i] == s[i] && t[j] == x);
            } else if i < p {
                assert(t[i] == s[i] && t[j] == s[j - 1]);
                lemma_less_transitive(s[i], x, s[j - 1]);
            } else if i == p {
                assert(t[i] == x && t[j] == s[j - 1]);
            } else {
                assert(t[i] == s[i - 1] && t[j] == s[j - 1]);
            }
        }
        assert(t.to_set() =~= s.to_set().insert(x)) by {
            assert forall|y: Seq<char>| t.to_set().contains(y) implies s.to_set().insert(x).contains(
                y,
            ) by {
                let k = choose|k: int| 0 <= k < t.len() && t[k] == y;
                if k < p {
                    assert(s[k] == y);
                } else if k > p {
                    assert(s[k - 1] == y);
                }
            }
            assert forall|y: Seq<char>| s.to_set().insert(x).contains(y) implies t.to_set().contains(
                y,
            ) by {
                if y == x {
                    assert(t[p] == x);
                } else {
                    let k = choose|k: int| 0 <= k < s.len() && s[k] == y;
                    if k < p {
                        assert(t[k] == y);
                    } else {
                        assert(t[k + 1] == y);
                    }
                }
            }
        }
    }
}

/// The place of `x` in the sorted list `s`: the first element not before it.
spec fn choose_position(s: Seq<Seq<char>>, x: Seq<char>) -> int
    decreases s.len(),
{
    if s.len() == 0 {
        0
    } else if seq_less(s[0], x) {
        1 + choose_position(s.drop_first(), x)
    } else {
        0
    }
}

proof fn lemma_choose_position(s: Seq<Seq<char>>, x: Seq<char>)
    ensures
        0 <= choose_position(s, x) <= s.len(),
        forall|k: int| 0 <= k < choose_position(s, x) ==> seq_less(#[trigger] s[k], x),
        choose_position(s, x) == s.len() || !seq_less(s[choose_position(s, x)], x),
    decreases s.len(),
{
    if s.len() > 0 && seq_less(s[0], x) {
        lemma_choose_position(s.drop_first(), x);
        assert forall|k: int| 0 <= k < choose_position(s, x) implies seq_less(#[trigger] s[k], x) by {
            if k > 0 {
                assert(s[k] == s.drop_first()[k - 1]);
            }
        }
    }
}

} // verus!

verus! {

/// Putting a whole list into a sorted list keeps it sorted and adds exactly its elements.
pub proof fn lemma_insert_all(s: Seq<Seq<char>>, xs: Seq<Seq<char>>)
    requires
        strictly_sorted(s),
    ensures
        strictly_sorted(insert_all(s, xs)),
        insert_all(s, xs).to_set() == s.to_set() + xs.to_set(),
    decreases xs.len(),
{
    if xs.len() > 0 {
        lemma_insert_all(s, xs.drop_last());
        lemma_insert_sorted(insert_all(s, xs.drop_last()), xs.last());
        assert(xs.to_set() =~= xs.drop_last().to_set().insert(xs.last())) by {
            assert(xs =~= xs.drop_last().push(xs.last()));
            xs.drop_last().lemma_push_to_set_commute(xs.last());
        }
        assert(insert_all(s, xs).to_set() =~= s.to_set() + xs.to_set());
    }
}

/// Whether `a` comes before `b` in the `str` order.
pub fn less_chars(a: &[char], b: &[char]) -> (r: bool)
    ensures
        r == seq_less(a@, b@),
{
    let mut i: usize = 0;
    assert(a@.skip(0) =~= a@ && b@.skip(0) =~= b@);
    while i < a.len() && i < b.len()
        invariant
            i <= a.len(),
            i <= b.len(),
            seq_less(a@, b@) == seq_less(a@.skip(i as int), b@.skip(i as int)),
        decreases a.len() - i,
    {
        let ghost sa = a@.skip(i as int);
        let ghost sb = b@.skip(i as int);
        assert(sa[0] == a@[i as int] && sb[0] == b@[i as int]);
        if a[i] != b[i] {
            return a[i] < b[i];
        }
        assert(sa.drop_first() =~= a@.skip(i + 1));
        assert(sb.drop_first() =~= b@.skip(i + 1));
        i = i + 1;
    }
    i == a.len() && i < b.len()
}

/// Puts `x` into the sorted list `v` at its place, unless it is there already.
pub fn insert_unique(v: &mut Vec<Vec<char>>, x: Vec<char>)
    requires
        strictly_sorted(crate::text::views(old(v)@)),
    ensures
        crate::text::views(final(v)@) == insert_sorted(crate::text::views(old(v)@), x@),
        strictly_sorted(crate::text::views(final(v)@)),
{
    let ghost s = crate::text::views(v@);
    let mut p: usize = 0;
    while p < v.len() && less_chars(&v[p], &x)
        invariant
            p <= v.len(),
            s == crate::text::views(v@),
            forall|k: int| 0 <= k < p ==> seq_less(#[trigger] s[k], x@),
        decreases v.len() - p,
    {
        p = p + 1;
    }
    proof {
        lemma_insert_sorted_at(s, x@, p as int);
        lemma_insert_sorted(s, x@);
    }
    if p < v.len() && eq_chars(&v[p], &x) {
        return;
    }
    v.insert(p, x);
    assert(crate::text::views(v@) =~= s.insert(p as int, x@));
}

/// Whether `a` and `b` hold the same characters.
pub fn eq_chars(a: &[char], b: &[char]) -> (r: bool)
    ensures
        r == (a@ == b@),
{
    if a.len() != b.len() {
        return false;
    }
    for i in 0..a.len()
        invariant
            a.len() == b.len(),
            forall|k: int| 0 <= k < i ==> a@[k] == b@[k],
    {
        if a[i] != b[i] {
            return false;
        }
    }
    assert(a@ =~= b@);
    true
}

} // verus!

verus! {

/// Putting in one list and then another is putting in the two lists one after the other.
pub proof fn lemma_insert_all_concat(s: Seq<Seq<char>>, a: Seq<Seq<char>>, b: Seq<Seq<char>>)
    ensures
        insert_all(insert_all(s, a), b) == insert_all(s, a + b),
    decreases b.len(),
{
    if b.len() == 0 {
        assert(a + b =~= a);
    } else {
        lemma_insert_all_concat(s, a, b.drop_last());
        assert((a + b).drop_last() =~= a + b.drop_last());
    }
}

/// Putting in one more element after a list.
pub proof fn lemma_insert_all_push(s: Seq<Seq<char>>, a: Seq<Seq<char>>, x: Seq<char>)
    ensures
        insert_all(s, a.push(x)) == insert_sorted(insert_all(s, a), x),
{
    assert(a.push(x).drop_last() =~= a);
}

} // verus!

verus! {

/// Putting the elements of a sorted list one by one into an empty list rebuilds it.
pub proof fn lemma_sort_dedup_sorted(s: Seq<Seq<char>>)
    requires
        strictly_sorted(s),
    ensures
        sort_dedup(s) == s,
    decreases s.len(),
{
    if s.len() > 0 {
        let t = s.drop_last();
        assert(strictly_sorted(t));
        lemma_sort_dedup_sorted(t);
        assert(forall|k: int| 0 <= k < t.len() ==> seq_less(#[trigger] t[k], s.last()));
        lemma_insert_sorted_at(t, s.last(), t.len() as int);
        assert(t.insert(t.len() as int, s.last()) =~= s);
    }
}

} // verus!
