//! Small verified helpers for strings and vectors of strings.

use vstd::prelude::*;
use vstd::string::StrSliceExecFns;

verus! {

/// The character sequences of a sequence of strings.
pub open spec fn seq_views(v: Seq<String>) -> Seq<Seq<char>> {
    v.map_values(|s: String| s@)
}

/// True exactly when the two string slices hold the same characters.
pub fn str_eq(a: &str, b: &str) -> (r: bool)
    ensures
        r == (a@ == b@),
{
    let n = a.unicode_len();
    let m = b.unicode_len();
    if n != m {
        proof {
            assert(a@ != b@) by {
                if a@ == b@ {
                    assert(a@.len() == b@.len());
                }
            }
        }
        return false;
    }
    let mut i: usize = 0;
    while i < n
        invariant
            n == a@.len(),
            n == b@.len(),
            0 <= i <= n,
            forall|j: int| 0 <= j < i ==> a@[j] == b@[j],
        decreases n - i,
    {
        if a.get_char(i) != b.get_char(i) {
            return false;
        }
        i = i + 1;
    }
    proof {
        assert(a@ =~= b@);
    }
    true
}

/// True exactly when one of the strings in `v` holds the characters of `s`.
pub fn names_contain(v: &Vec<String>, s: &str) -> (r: bool)
    ensures
        r == seq_views(v@).contains(s@),
{
    let mut i: usize = 0;
    while i < v.len()
        invariant
            0 <= i <= v.len(),
            forall|j: int| 0 <= j < i ==> seq_views(v@)[j] != s@,
        decreases v.len() - i,
    {
        if str_eq(v[i].as_str(), s) {
            proof {
                assert(seq_views(v@)[i as int] == s@);
            }
            return true;
        }
        i = i + 1;
    }
    proof {
        if seq_views(v@).contains(s@) {
            let j = choose|j: int| 0 <= j < seq_views(v@).len() && seq_views(v@)[j] == s@;
            assert(seq_views(v@)[j] != s@);
        }
    }
    false
}

/// True exactly when every string of `a` also occurs in `b`.
pub fn names_subset(a: &Vec<String>, b: &Vec<String>) -> (r: bool)
    ensures
        r == forall|i: int|
            0 <= i < a@.len() ==> seq_views(b@).contains(#[trigger] seq_views(a@)[i]),
{
    let mut i: usize = 0;
    while i < a.len()
        invariant
            0 <= i <= a.len(),
            forall|j: int| 0 <= j < i ==> seq_views(b@).contains(#[trigger] seq_views(a@)[j]),
        decreases a.len() - i,
    {
        if !names_contain(b, a[i].as_str()) {
            proof {
                assert(!seq_views(b@).contains(seq_views(a@)[i as int]));
            }
            return false;
        }
        i = i + 1;
    }
    true
}

/// A copy of the vector, character for character.
pub fn clone_strings(v: &Vec<String>) -> (r: Vec<String>)
    ensures
        seq_views(r@) == seq_views(v@),
        r@.len() == v@.len(),
{
    let mut out: Vec<String> = Vec::new();
    let mut i: usize = 0;
    while i < v.len()
        invariant
            0 <= i <= v.len(),
            out@.len() == i,
            forall|j: int| 0 <= j < i ==> (#[trigger] out@[j])@ == v@[j]@,
        decreases v.len() - i,
    {
        out.push(v[i].clone());
        i = i + 1;
    }
    proof {
        assert(seq_views(out@) =~= seq_views(v@));
    }
    out
}

/// Membership in a concatenation is membership in either part.
pub proof fn lemma_add_contains<T>(a: Seq<T>, b: Seq<T>, x: T)
    ensures
        (a + b).contains(x) == (a.contains(x) || b.contains(x)),
{
    if (a + b).contains(x) {
        let i = choose|i: int| 0 <= i < (a + b).len() && (a + b)[i] == x;
        if i < a.len() {
            assert(a[i] == x);
        } else {
            assert(b[i - a.len()] == x);
        }
    }
    if a.contains(x) {
        let i = choose|i: int| 0 <= i < a.len() && a[i] == x;
        assert((a + b)[i] == x);
    }
    if b.contains(x) {
        let i = choose|i: int| 0 <= i < b.len() && b[i] == x;
        assert((a + b)[a.len() + i] == x);
    }
}

/// Appends the string unless an equal one is already listed, as a set would.
pub fn push_unique(v: &mut Vec<String>, s: String)
    ensures
        seq_views(final(v)@) == (if seq_views(old(v)@).contains(s@) {
            seq_views(old(v)@)
        } else {
            seq_views(old(v)@).push(s@)
        }),
{
    let present = names_contain(v, s.as_str());
    let ghost pre = seq_views(v@);
    let ghost sv = s@;
    if !present {
        v.push(s);
        proof {
            assert(seq_views(v@) =~= pre.push(sv));
        }
    }
}


/// Whether `a` is the ASCII-uppercase letter whose lowercase form is `b`.
pub open spec fn ascii_upper_of(a: char, b: char) -> bool {
    'A' <= a && a <= 'Z' && a as int + 32 == b as int
}

/// Case-insensitive equality of two characters, folding ASCII letters only.
pub open spec fn ascii_fold_eq_char(a: char, b: char) -> bool {
    a == b || ascii_upper_of(a, b) || ascii_upper_of(b, a)
}

/// Case-insensitive equality of two texts, folding ASCII letters only: what
/// lowercasing either side would make equal, for texts of ASCII letters,
/// digits and underscores.
pub open spec fn ascii_caseless_eq(a: Seq<char>, b: Seq<char>) -> bool {
    a.len() == b.len() && forall|i: int| 0 <= i < a.len() ==> ascii_fold_eq_char(a[i], b[i])
}

/// Decides [`ascii_caseless_eq`] for two string slices.
pub fn str_ieq(a: &str, b: &str) -> (r: bool)
    ensures
        r == ascii_caseless_eq(a@, b@),
{
    let n = a.unicode_len();
    let m = b.unicode_len();
    if n != m {
        return false;
    }
    let mut i: usize = 0;
    while i < n
        invariant
            n == a@.len(),
            n == b@.len(),
            0 <= i <= n,
            forall|j: int| 0 <= j < i ==> ascii_fold_eq_char(a@[j], b@[j]),
        decreases n - i,
    {
        let ca = a.get_char(i);
        let cb = b.get_char(i);
        let same = ca == cb || ('A' <= ca && ca <= 'Z' && (ca as u32) + 32 == (cb as u32)) || (
        'A' <= cb && cb <= 'Z' && (cb as u32) + 32 == (ca as u32));
        if !same {
            proof {
                assert(!ascii_fold_eq_char(a@[i as int], b@[i as int]));
            }
            return false;
        }
        i = i + 1;
    }
    true
}

} // verus!
