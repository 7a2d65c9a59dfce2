//! Byte-string pattern matching for reserved-resource names.
//!
//! Wire names are byte strings; a reserved pattern matches a name when it
//! occurs in it as a contiguous substring.

use vstd::prelude::*;

verus! {

/// `pat` occurs in `hay` starting at offset `i`.
pub open spec fn match_at(hay: Seq<u8>, pat: Seq<u8>, i: int) -> bool {
    &&& 0 <= i
    &&& i + pat.len() <= hay.len()
    &&& hay.subrange(i, i + pat.len()) == pat
}

/// `pat` occurs somewhere in `hay` as a contiguous substring.
pub open spec fn contains_pattern(hay: Seq<u8>, pat: Seq<u8>) -> bool {
    exists|i: int| match_at(hay, pat, i)
}

/// Some pattern of the configured set occurs in `hay`.
pub open spec fn matches_any(hay: Seq<u8>, pats: Seq<Seq<u8>>) -> bool {
    exists|k: int| 0 <= k < pats.len() && contains_pattern(hay, pats[k])
}

/// Whether `pat` occurs in `hay` starting at offset `i`.
fn match_at_exec(hay: &Vec<u8>, pat: &Vec<u8>, i: usize) -> (r: bool)
    requires
        i + pat.len() <= hay.len(),
    ensures
        r == match_at(hay@, pat@, i as int),
{
    let mut j: usize = 0;
    while j < pat.len()
        invariant
            0 <= j <= pat.len(),
            i + pat.len() <= hay.len(),
            forall|t: int| 0 <= t < j ==> hay@[i + t] == pat@[t],
        decreases pat.len() - j,
    {
        if hay[i + j] != pat[j] {
            assert(hay@.subrange(i as int, i + pat.len())[j as int] != pat@[j as int]);
            return false;
        }
        j += 1;
    }
    assert(hay@.subrange(i as int, i + pat.len()) =~= pat@);
    true
}

/// Whether `pat` occurs anywhere in `hay`.
pub fn contains_bytes(hay: &Vec<u8>, pat: &Vec<u8>) -> (r: bool)
    ensures
        r == contains_pattern(hay@, pat@),
{
    if pat.len() > hay.len() {
        assert(forall|i: int| !match_at(hay@, pat@, i));
        return false;
    }
    if pat.len() == 0 {
        assert(hay@.subrange(0, 0) =~= pat@);
        assert(match_at(hay@, pat@, 0));
        return true;
    }
    let last: usize = hay.len() - pat.len();
    let mut i: usize = 0;
    while i <= last
        invariant
            0 <= i <= last + 1,
            last == hay.len() - pat.len(),
            1 <= pat.len() <= hay.len(),
            forall|t: int| 0 <= t < i ==> !match_at(hay@, pat@, t),
        decreases last + 1 - i,
    {
        if match_at_exec(hay, pat, i) {
            return true;
        }
        i += 1;
    }
    assert(forall|t: int| match_at(hay@, pat@, t) ==> 0 <= t <= last);
    false
}

/// The views of a vector of byte strings.
pub open spec fn views_of(pats: Seq<Vec<u8>>) -> Seq<Seq<u8>> {
    pats.map_values(|p: Vec<u8>| p@)
}

/// Whether any pattern of `pats` occurs in `hay`.
pub fn matches_any_pattern(hay: &Vec<u8>, pats: &Vec<Vec<u8>>) -> (r: bool)
    ensures
        r == matches_any(hay@, views_of(pats@)),
{
    let mut k: usize = 0;
    while k < pats.len()
        invariant
            0 <= k <= pats.len(),
            forall|t: int| 0 <= t < k ==> !contains_pattern(hay@, #[trigger] views_of(pats@)[t]),
        decreases pats.len() - k,
    {
        if contains_bytes(hay, &pats[k]) {
            assert(contains_pattern(hay@, views_of(pats@)[k as int]));
            return true;
        }
        k += 1;
    }
    false
}

} // verus!
