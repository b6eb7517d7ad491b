//! Locating well-known entries of a GRF archive by their internal path.
use vstd::prelude::*;

verus! {

/// The item resource name table inside the archive.
pub const ITEM_RES_TABLE_PATH: &'static str = "data\\idnum2itemresnametable.txt";

/// The compiled accname table inside the archive.
pub const ACCNAME_LUB_PATH: &'static str = "data\\luafiles514\\lua files\\datainfo\\accname_eng.lub";

/// The code of a character after ASCII lowercasing (`char::to_ascii_lowercase`).
pub open spec fn ascii_fold(c: char) -> int {
    if 'A' <= c && c <= 'Z' {
        c as int + 32
    } else {
        c as int
    }
}

/// `str::eq_ignore_ascii_case`: equal after ASCII lowercasing.
pub open spec fn eq_ignore_ascii_case_spec(a: Seq<char>, b: Seq<char>) -> bool {
    a.len() == b.len() && forall|k: int| 0 <= k < a.len() ==> ascii_fold(#[trigger] a[k]) == ascii_fold(
        b[k],
    )
}

fn fold_code(c: char) -> (r: u32)
    ensures
        r as int == ascii_fold(c),
{
    if 'A' <= c && c <= 'Z' {
        (c as u32) + 32
    } else {
        c as u32
    }
}

/// Whether `a` and `b` are an ASCII case-insensitive match.
pub fn eq_ignore_ascii_case(a: &[char], b: &[char]) -> (r: bool)
    ensures
        r == eq_ignore_ascii_case_spec(a@, b@),
{
    if a.len() != b.len() {
        return false;
    }
    for k in 0..a.len()
        invariant
            a.len() == b.len(),
            forall|j: int| 0 <= j < k ==> ascii_fold(#[trigger] a@[j]) == ascii_fold(b@[j]),
    {
        if fold_code(a[k]) != fold_code(b[k]) {
            assert(ascii_fold(a@[k as int]) != ascii_fold(b@[k as int]));
            return false;
        }
    }
    true
}

/// The index of the first of `paths` that matches `target` ignoring ASCII case.
pub fn find_entry_path(paths: &[String], target: &str) -> (r: Option<usize>)
    ensures
        r matches Some(i) ==> i < paths@.len() && eq_ignore_ascii_case_spec(paths@[i as int]@, target@)
            && forall|j: int| 0 <= j < i ==> !eq_ignore_ascii_case_spec(#[trigger] paths@[j]@, target@),
        r is None ==> forall|j: int|
            0 <= j < paths@.len() ==> !eq_ignore_ascii_case_spec(#[trigger] paths@[j]@, target@),
{
    let t = crate::text::chars_of(target);
    for i in 0..paths.len()
        invariant
            t@ == target@,
            forall|j: int| 0 <= j < i ==> !eq_ignore_ascii_case_spec(#[trigger] paths@[j]@, target@),
    {
        let p = crate::text::chars_of(paths[i].as_str());
        if eq_ignore_ascii_case(&p, &t) {
            return Some(i);
        }
    }
    None
}

} // verus!

verus! {

/// Two single characters match ignoring ASCII case exactly when they are equal, or one
/// is an ASCII capital `A`–`Z` and the other its small letter (32 code points on); and
/// two strings match exactly when they have the same length and match position by
/// position.
pub proof fn law_ignore_ascii_case(a: char, b: char, s: Seq<char>, t: Seq<char>)
    ensures
        eq_ignore_ascii_case_spec(seq![a], seq![b]) <==> (a == b || ('A' <= a && a <= 'Z' && b as int
            == a as int + 32) || ('A' <= b && b <= 'Z' && a as int == b as int + 32)),
        eq_ignore_ascii_case_spec(s, t) <==> (s.len() == t.len() && forall|k: int|
            0 <= k < s.len() ==> eq_ignore_ascii_case_spec(seq![#[trigger] s[k]], seq![t[k]])),
{
    assert(seq![a][0] == a && seq![b][0] == b);
    if eq_ignore_ascii_case_spec(s, t) {
        assert forall|k: int| 0 <= k < s.len() implies eq_ignore_ascii_case_spec(
            seq![#[trigger] s[k]],
            seq![t[k]],
        ) by {
            assert(seq![s[k]][0] == s[k] && seq![t[k]][0] == t[k]);
        }
    }
    if s.len() == t.len() && forall|k: int|
        0 <= k < s.len() ==> eq_ignore_ascii_case_spec(seq![#[trigger] s[k]], seq![t[k]]) {
        assert forall|k: int| 0 <= k < s.len() implies ascii_fold(#[trigger] s[k]) == ascii_fold(t[k]) by {
            assert(eq_ignore_ascii_case_spec(seq![s[k]], seq![t[k]]));
            assert(seq![s[k]][0] == s[k] && seq![t[k]][0] == t[k]);
        }
    }
}

} // verus!
