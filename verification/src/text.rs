//! Verified text helpers: exact string equality and ASCII
//! case-insensitive substring containment, the matching rule used by the
//! free-text search facet.

use vstd::prelude::*;

verus! {

/// The code point of `c` with an ASCII capital letter folded to its small
/// form; all other characters stand for themselves.
pub open spec fn lower32(c: char) -> int {
    if 'A' <= c && c <= 'Z' {
        c as int + 32
    } else {
        c as int
    }
}

fn lower_u32(c: char) -> (r: u32)
    ensures
        r as int == lower32(c),
{
    if 'A' <= c && c <= 'Z' {
        c as u32 + 32
    } else {
        c as u32
    }
}

/// `nee` occurs in `hay` at position `i`, compared case-insensitively.
pub open spec fn ci_match_at(hay: Seq<char>, nee: Seq<char>, i: int) -> bool {
    forall|j: int| 0 <= j < nee.len() ==> lower32(hay[i + j]) == lower32(#[trigger] nee[j])
}

/// `nee` occurs somewhere in `hay`, compared case-insensitively; the empty
/// needle occurs in every text.
pub open spec fn contains_ci(hay: Seq<char>, nee: Seq<char>) -> bool {
    exists|i: int| 0 <= i <= hay.len() - nee.len() && #[trigger] ci_match_at(hay, nee, i)
}

fn ci_match_at_exec(hay: &str, nee: &str, i: usize, hl: usize, nl: usize) -> (r: bool)
    requires
        hl == hay@.len(),
        nl == nee@.len(),
        i + nl <= hl,
    ensures
        r == ci_match_at(hay@, nee@, i as int),
{
    let mut j: usize = 0;
    while j < nl
        invariant
            hl == hay@.len(),
            nl == nee@.len(),
            i + nl <= hl,
            j <= nl,
            forall|t: int| 0 <= t < j ==> lower32(hay@[i + t]) == lower32(#[trigger] nee@[t]),
        decreases nl - j,
    {
        let hc = hay.get_char(i + j);
        let nc = nee.get_char(j);
        if lower_u32(hc) != lower_u32(nc) {
            return false;
        }
        j = j + 1;
    }
    true
}

/// Case-insensitive containment test on text: true exactly when the view
/// of `nee` occurs in the view of `hay` under ASCII case folding.
pub fn contains_text_ci(hay: &str, nee: &str) -> (r: bool)
    ensures
        r == contains_ci(hay@, nee@),
{
    let hl = hay.unicode_len();
    let nl = nee.unicode_len();
    if nl == 0 {
        assert(ci_match_at(hay@, nee@, 0));
        return true;
    }
    if nl > hl {
        return false;
    }
    let mut i: usize = 0;
    while i <= hl - nl
        invariant
            hl == hay@.len(),
            nl == nee@.len(),
            1 <= nl <= hl,
            i <= hl - nl + 1,
            forall|k: int| 0 <= k < i ==> !ci_match_at(hay@, nee@, k),
        decreases hl - nl - i + 1,
    {
        if ci_match_at_exec(hay, nee, i, hl, nl) {
            return true;
        }
        i = i + 1;
    }
    false
}

/// Exact string equality, decided character by character.
pub fn str_eq(a: &str, b: &str) -> (r: bool)
    ensures
        r == (a@ == b@),
{
    let al = a.unicode_len();
    let bl = b.unicode_len();
    if al != bl {
        return false;
    }
    let mut i: usize = 0;
    while i < al
        invariant
            al == a@.len(),
            bl == b@.len(),
            al == bl,
            i <= al,
            forall|t: int| 0 <= t < i ==> a@[t] == b@[t],
        decreases al - i,
    {
        if a.get_char(i) != b.get_char(i) {
            return false;
        }
        i = i + 1;
    }
    proof {
        assert(a@ =~= b@);
    }
    true
}

} // verus!

