//! Small searches over sequences of class ids and student ids, with their
//! mathematical meaning.
use vstd::prelude::*;

verus! {

/// The index of the first occurrence of `x` in `s`, if `x` occurs.
pub open spec fn position_of(s: Seq<u16>, x: u16) -> Option<int> {
    if exists|i: int| 0 <= i < s.len() && s[i] == x {
        Some(choose|i: int| 0 <= i < s.len() && s[i] == x && forall|j: int| 0 <= j < i ==> s[j] != x)
    } else {
        None
    }
}

/// `i` is the first index at which `x` occurs in `s`.
pub open spec fn is_first_index(s: Seq<u16>, x: u16, i: int) -> bool {
    0 <= i < s.len() && s[i] == x && forall|j: int| 0 <= j < i ==> s[j] != x
}

/// The first occurrence is unique, so `position_of` names it.
pub proof fn lemma_position_of_first(s: Seq<u16>, x: u16, i: int)
    requires
        is_first_index(s, x, i),
    ensures
        position_of(s, x) == Some(i),
{
    assert(exists|k: int| 0 <= k < s.len() && s[k] == x);
    let c = choose|k: int| 0 <= k < s.len() && s[k] == x && forall|j: int| 0 <= j < k ==> s[j] != x;
    assert(is_first_index(s, x, i));
    assert(0 <= c < s.len() && s[c] == x && forall|j: int| 0 <= j < c ==> s[j] != x);
    if c < i {
        assert(s[c] != x);
    } else if i < c {
        assert(s[i] != x);
    }
}

/// When `x` occurs at `w`, `position_of` names its first occurrence.
pub proof fn lemma_first_exists(s: Seq<u16>, x: u16, w: int)
    requires
        0 <= w < s.len(),
        s[w] == x,
    ensures
        position_of(s, x) matches Some(i) && is_first_index(s, x, i),
    decreases w,
{
    if exists|g: int| 0 <= g < w && s[g] == x {
        let g = choose|g: int| 0 <= g < w && s[g] == x;
        lemma_first_exists(s, x, g);
    } else {
        assert(is_first_index(s, x, w));
        lemma_position_of_first(s, x, w);
    }
}

/// Finds the first index of `x` in `v`.
pub fn find_position(v: &Vec<u16>, x: u16) -> (r: Option<usize>)
    ensures
        match r {
            Some(i) => position_of(v@, x) == Some(i as int) && is_first_index(v@, x, i as int),
            None => position_of(v@, x) is None && !v@.contains(x),
        },
{
    let mut i: usize = 0;
    while i < v.len()
        invariant
            i <= v.len(),
            forall|j: int| 0 <= j < i ==> v@[j] != x,
        decreases v.len() - i,
    {
        if v[i] == x {
            proof {
                lemma_position_of_first(v@, x, i as int);
            }
            return Some(i);
        }
        i = i + 1;
    }
    None
}

/// Whether `x` occurs in `v`.
pub fn contains_u16(v: &Vec<u16>, x: u16) -> (r: bool)
    ensures
        r == v@.contains(x),
{
    let mut i: usize = 0;
    while i < v.len()
        invariant
            i <= v.len(),
            forall|j: int| 0 <= j < i ==> v@[j] != x,
        decreases v.len() - i,
    {
        if v[i] == x {
            return true;
        }
        i = i + 1;
    }
    false
}

/// Whether `x` occurs in a list of class ids held by reference.
pub fn contains_ref_u16(v: &[&u16], x: u16) -> (r: bool)
    ensures
        r == (exists|i: int| 0 <= i < v@.len() && *v@[i] == x),
{
    let mut i: usize = 0;
    while i < v.len()
        invariant
            i <= v@.len(),
            forall|j: int| 0 <= j < i ==> *v@[j] != x,
        decreases v@.len() - i,
    {
        if *v[i] == x {
            return true;
        }
        i = i + 1;
    }
    false
}

/// `x` occurs in the list of class ids held by reference.
pub open spec fn ref_list_contains(v: Seq<&u16>, x: u16) -> bool {
    exists|i: int| 0 <= i < v.len() && *v[i] == x
}

} // verus!
