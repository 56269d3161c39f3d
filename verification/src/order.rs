//! Ordering of positions by a two-part key, highest first, and rearranging
//! students by such an order.
use vstd::prelude::*;
use crate::student::{Student, views};

verus! {

/// The first key is lexicographically below the second.
pub open spec fn key_lt(a: (int, int), b: (int, int)) -> bool {
    a.0 < b.0 || (a.0 == b.0 && a.1 < b.1)
}

/// Inserts `x` into `s` just before the first element whose key is below
/// the key of `x`.
pub open spec fn insert_desc(s: Seq<usize>, x: usize, key: spec_fn(usize) -> (int, int)) -> Seq<usize>
    decreases s.len(),
{
    if s.len() == 0 {
        seq![x]
    } else if key_lt(key(s[0]), key(x)) {
        seq![x] + s
    } else {
        seq![s[0]] + insert_desc(s.drop_first(), x, key)
    }
}

/// `s` ordered by key, highest first, by inserting its elements one by one.
pub open spec fn sort_desc(s: Seq<usize>, key: spec_fn(usize) -> (int, int)) -> Seq<usize>
    decreases s.len(),
{
    if s.len() == 0 {
        Seq::empty()
    } else {
        insert_desc(sort_desc(s.drop_last(), key), s.last(), key)
    }
}

/// `s` is ordered by key, highest first.
pub open spec fn sorted_desc(s: Seq<usize>, key: spec_fn(usize) -> (int, int)) -> bool {
    forall|a: int, b: int| 0 <= a < b < s.len() ==> !key_lt(#[trigger] key(s[a]), #[trigger] key(s[b]))
}

/// The key function that reads keys from a sequence by position.
pub open spec fn seq_key(ks: Seq<(int, int)>) -> spec_fn(usize) -> (int, int) {
    |j: usize| ks[j as int]
}

/// Machine keys as mathematical pairs.
pub open spec fn int_keys(ks: Seq<(i128, i128)>) -> Seq<(int, int)> {
    ks.map_values(|k: (i128, i128)| (k.0 as int, k.1 as int))
}

/// The positions `0..n`.
pub open spec fn positions(n: nat) -> Seq<usize> {
    Seq::new(n, |i: int| i as usize)
}

/// Inserting splits the sequence at the first element with a lower key.
proof fn lemma_insert_desc_split(s: Seq<usize>, x: usize, key: spec_fn(usize) -> (int, int), q: int)
    requires
        0 <= q <= s.len(),
        forall|k: int| 0 <= k < q ==> !key_lt(key(#[trigger] s[k]), key(x)),
        q < s.len() ==> key_lt(key(s[q]), key(x)),
    ensures
        insert_desc(s, x, key) == s.take(q).push(x) + s.skip(q),
    decreases s.len(),
{
    if s.len() == 0 {
        assert(s.take(q).push(x) + s.skip(q) =~= seq![x]);
    } else if q == 0 {
        assert(s.take(q).push(x) + s.skip(q) =~= seq![x] + s);
    } else {
        let t = s.drop_first();
        assert forall|k: int| 0 <= k < q - 1 implies !key_lt(key(#[trigger] t[k]), key(x)) by {
            assert(t[k] == s[k + 1]);
        }
        if q - 1 < t.len() {
            assert(t[q - 1] == s[q]);
        }
        assert(!key_lt(key(s[0]), key(x)));
        lemma_insert_desc_split(t, x, key, q - 1);
        assert(seq![s[0]] + (t.take(q - 1).push(x) + t.skip(q - 1)) =~= s.take(q).push(x) + s.skip(q));
    }
}

/// Inserting keeps the elements, adds `x`, and keeps them distinct.
pub proof fn lemma_insert_desc_elements(s: Seq<usize>, x: usize, key: spec_fn(usize) -> (int, int))
    ensures
        insert_desc(s, x, key).len() == s.len() + 1,
        forall|y: usize| #[trigger] insert_desc(s, x, key).contains(y) <==> (s.contains(y) || y == x),
        s.no_duplicates() && !s.contains(x) ==> insert_desc(s, x, key).no_duplicates(),
    decreases s.len(),
{
    if s.len() > 0 && !key_lt(key(s[0]), key(x)) {
        let t = s.drop_first();
        lemma_insert_desc_elements(t, x, key);
        let r = insert_desc(t, x, key);
        assert(insert_desc(s, x, key) == seq![s[0]] + r);
        assert forall|y: usize| (seq![s[0]] + r).contains(y) <==> (s.contains(y) || y == x) by {
            if (seq![s[0]] + r).contains(y) {
                let i = choose|i: int| 0 <= i < (seq![s[0]] + r).len() && (seq![s[0]] + r)[i] == y;
                if i > 0 {
                    assert((seq![s[0]] + r)[i] == r[i - 1]);
                    assert(r[i - 1] == y);
                    assert(r.contains(y));
                    if t.contains(y) {
                        let k = choose|k: int| 0 <= k < t.len() && t[k] == y;
                        assert(s[k + 1] == y);
                    }
                } else {
                    assert(s[0] == y);
                }
            }
            if s.contains(y) {
                let k = choose|k: int| 0 <= k < s.len() && s[k] == y;
                if k == 0 {
                    assert((seq![s[0]] + r)[0] == y);
                } else {
                    assert(t[k - 1] == y);
                    assert(r.contains(y));
                    let i = choose|i: int| 0 <= i < r.len() && r[i] == y;
                    assert((seq![s[0]] + r)[i + 1] == y);
                }
            }
            if y == x {
                assert(r.contains(x));
                let i = choose|i: int| 0 <= i < r.len() && r[i] == x;
                assert((seq![s[0]] + r)[i + 1] == x);
            }
        }
        if s.no_duplicates() && !s.contains(x) {
            assert(t.no_duplicates()) by {
                assert forall|a: int, b: int| 0 <= a < t.len() && 0 <= b < t.len() && a != b implies t[a] != t[b] by {
                    assert(t[a] == s[a + 1] && t[b] == s[b + 1]);
                }
            }
            assert(!t.contains(x)) by {
                if t.contains(x) {
                    let k = choose|k: int| 0 <= k < t.len() && t[k] == x;
                    assert(s[k + 1] == x);
                }
            }
            assert(!r.contains(s[0])) by {
                if r.contains(s[0]) {
                    if t.contains(s[0]) {
                        let k = choose|k: int| 0 <= k < t.len() && t[k] == s[0];
                        assert(s[k + 1] == s[0]);
                    } else {
                        assert(s[0] == x);
                        assert(s.contains(x));
                    }
                }
            }
            let w = seq![s[0]] + r;
            assert forall|a: int, b: int| 0 <= a < w.len() && 0 <= b < w.len() && a != b implies w[a] != w[b] by {
                if a == 0 && b > 0 {
                    assert(w[b] == r[b - 1]);
                } else if b == 0 && a > 0 {
                    assert(w[a] == r[a - 1]);
                } else if a > 0 && b > 0 {
                    assert(w[a] == r[a - 1] && w[b] == r[b - 1]);
                }
            }
        }
    } else if s.len() > 0 {
        let w = seq![x] + s;
        assert(insert_desc(s, x, key) == w);
        assert forall|y: usize| w.contains(y) <==> (s.contains(y) || y == x) by {
            if w.contains(y) {
                let i = choose|i: int| 0 <= i < w.len() && w[i] == y;
                if i > 0 {
                    assert(s[i - 1] == y);
                }
            }
            if s.contains(y) {
                let k = choose|k: int| 0 <= k < s.len() && s[k] == y;
                assert(w[k + 1] == y);
            }
            assert(w[0] == x);
        }
        if s.no_duplicates() && !s.contains(x) {
            assert forall|a: int, b: int| 0 <= a < w.len() && 0 <= b < w.len() && a != b implies w[a] != w[b] by {
                if a == 0 && b > 0 {
                    assert(w[b] == s[b - 1]);
                } else if b == 0 && a > 0 {
                    assert(w[a] == s[a - 1]);
                } else if a > 0 && b > 0 {
                    assert(w[a] == s[a - 1] && w[b] == s[b - 1]);
                }
            }
        }
    } else {
        assert(insert_desc(s, x, key) == seq![x]);
        assert forall|y: usize| seq![x].contains(y) <==> (s.contains(y) || y == x) by {
            if y == x {
                assert(seq![x][0] == x);
            }
        }
    }
}

/// Sorting keeps exactly the elements, and keeps them distinct.
pub proof fn lemma_sort_desc_elements(s: Seq<usize>, key: spec_fn(usize) -> (int, int))
    ensures
        sort_desc(s, key).len() == s.len(),
        forall|y: usize| #[trigger] sort_desc(s, key).contains(y) <==> s.contains(y),
        s.no_duplicates() ==> sort_desc(s, key).no_duplicates(),
    decreases s.len(),
{
    if s.len() > 0 {
        let t = s.drop_last();
        lemma_sort_desc_elements(t, key);
        lemma_insert_desc_elements(sort_desc(t, key), s.last(), key);
        assert forall|y: usize| s.contains(y) <==> (t.contains(y) || y == s.last()) by {
            if s.contains(y) {
                let k = choose|k: int| 0 <= k < s.len() && s[k] == y;
                if k < s.len() - 1 {
                    assert(t[k] == y);
                }
            }
            if t.contains(y) {
                let k = choose|k: int| 0 <= k < t.len() && t[k] == y;
                assert(s[k] == y);
            }
            assert(s[s.len() - 1] == s.last());
        }
        if s.no_duplicates() {
            assert(t.no_duplicates()) by {
                assert forall|a: int, b: int| 0 <= a < t.len() && 0 <= b < t.len() && a != b implies t[a] != t[b] by {
                    assert(t[a] == s[a] && t[b] == s[b]);
                }
            }
            assert(!t.contains(s.last())) by {
                if t.contains(s.last()) {
                    let k = choose|k: int| 0 <= k < t.len() && t[k] == s.last();
                    assert(s[k] == s[s.len() - 1]);
                }
            }
        }
    }
}

/// Inserting into a sequence ordered by key, highest first, keeps it ordered.
pub proof fn lemma_insert_desc_sorted(s: Seq<usize>, x: usize, key: spec_fn(usize) -> (int, int))
    requires
        sorted_desc(s, key),
    ensures
        sorted_desc(insert_desc(s, x, key), key),
    decreases s.len(),
{
    if s.len() == 0 {
    } else if key_lt(key(s[0]), key(x)) {
        let r = seq![x] + s;
        assert(insert_desc(s, x, key) == r);
        assert forall|a: int, b: int| 0 <= a < b < r.len() implies !key_lt(#[trigger] key(r[a]), #[trigger] key(r[b])) by {
            if a == 0 {
                assert(r[b] == s[b - 1]);
                if b - 1 > 0 {
                    assert(!key_lt(key(s[0]), key(s[b - 1])));
                }
            } else {
                assert(r[a] == s[a - 1] && r[b] == s[b - 1]);
            }
        }
    } else {
        let t = s.drop_first();
        assert(sorted_desc(t, key)) by {
            assert forall|a: int, b: int| 0 <= a < b < t.len() implies !key_lt(#[trigger] key(t[a]), #[trigger] key(t[b])) by {
                assert(t[a] == s[a + 1] && t[b] == s[b + 1]);
            }
        }
        lemma_insert_desc_sorted(t, x, key);
        lemma_insert_desc_elements(t, x, key);
        let i2 = insert_desc(t, x, key);
        let r = seq![s[0]] + i2;
        assert(insert_desc(s, x, key) == r);
        assert forall|a: int, b: int| 0 <= a < b < r.len() implies !key_lt(#[trigger] key(r[a]), #[trigger] key(r[b])) by {
            if a == 0 {
                assert(r[b] == i2[b - 1]);
                assert(i2.contains(i2[b - 1]));
                if t.contains(i2[b - 1]) {
                    let k = choose|k: int| 0 <= k < t.len() && t[k] == i2[b - 1];
                    assert(s[k + 1] == t[k]);
                    assert(!key_lt(key(s[0]), key(s[k + 1])));
                }
            } else {
                assert(r[a] == i2[a - 1] && r[b] == i2[b - 1]);
            }
        }
    }
}

/// Sorting orders the sequence by key, highest first.
pub proof fn lemma_sort_desc_sorted(s: Seq<usize>, key: spec_fn(usize) -> (int, int))
    ensures
        sorted_desc(sort_desc(s, key), key),
    decreases s.len(),
{
    if s.len() > 0 {
        lemma_sort_desc_sorted(s.drop_last(), key);
        lemma_insert_desc_sorted(sort_desc(s.drop_last(), key), s.last(), key);
    }
}

/// The positions `0..n` are distinct and exactly those below `n`.
pub proof fn lemma_positions(n: nat)
    requires
        n <= usize::MAX,
    ensures
        positions(n).len() == n,
        positions(n).no_duplicates(),
        forall|y: usize| positions(n).contains(y) <==> y < n,
{
    assert forall|a: int, b: int| 0 <= a < positions(n).len() && 0 <= b < positions(n).len() && a != b
        implies positions(n)[a] != positions(n)[b] by {
        assert(positions(n)[a] == a as usize && positions(n)[b] == b as usize);
    }
    assert forall|y: usize| positions(n).contains(y) <==> y < n by {
        if y < n {
            assert(positions(n)[y as int] == y);
        }
    }
}

/// The positions `0..n`.
pub fn position_list(n: usize) -> (r: Vec<usize>)
    ensures
        r@ == positions(n as nat),
{
    let mut r: Vec<usize> = Vec::new();
    let mut k: usize = 0;
    while k < n
        invariant
            k <= n,
            r@ == positions(k as nat),
        decreases n - k,
    {
        r.push(k);
        assert(r@ =~= positions((k + 1) as nat));
        k = k + 1;
    }
    r
}

/// Orders the elements of `items` by the keys `keys[item]`, highest first;
/// elements with equal keys keep their relative order.
pub fn sort_by_key_desc(items: &Vec<usize>, keys: &Vec<(i128, i128)>) -> (r: Vec<usize>)
    requires
        forall|k: int| 0 <= k < items@.len() ==> #[trigger] items@[k] < keys@.len(),
    ensures
        r@ == sort_desc(items@, seq_key(int_keys(keys@))),
{
    let ghost key = seq_key(int_keys(keys@));
    let mut r: Vec<usize> = Vec::new();
    let mut i: usize = 0;
    while i < items.len()
        invariant
            i <= items.len(),
            key == seq_key(int_keys(keys@)),
            forall|k: int| 0 <= k < items@.len() ==> #[trigger] items@[k] < keys@.len(),
            r@ == sort_desc(items@.take(i as int), key),
            forall|k: int| 0 <= k < r@.len() ==> #[trigger] r@[k] < keys@.len(),
        decreases items.len() - i,
    {
        let x = items[i];
        let kx = keys[x];
        assert(key(x) == (kx.0 as int, kx.1 as int));
        let mut q: usize = 0;
        while q < r.len() && !(keys[r[q]].0 < kx.0 || (keys[r[q]].0 == kx.0 && keys[r[q]].1 < kx.1))
            invariant
                q <= r.len(),
                key == seq_key(int_keys(keys@)),
                x < keys@.len(),
                kx == keys@[x as int],
                forall|k: int| 0 <= k < r@.len() ==> #[trigger] r@[k] < keys@.len(),
                forall|k: int| 0 <= k < q ==> !key_lt(key(#[trigger] r@[k]), key(x)),
            decreases r.len() - q,
        {
            assert(key(r@[q as int]) == (keys@[r@[q as int] as int].0 as int, keys@[r@[q as int] as int].1 as int));
            q = q + 1;
        }
        proof {
            lemma_insert_desc_split(r@, x, key, q as int);
            assert(items@.take(i + 1).drop_last() == items@.take(i as int));
            assert(items@.take(i + 1).last() == x);
        }
        let ghost before = r@;
        r.insert(q, x);
        assert(r@ == before.take(q as int).push(x) + before.skip(q as int));
        i = i + 1;
    }
    assert(items@.take(items@.len() as int) == items@);
    r
}

/// The students rearranged so that position `k` holds the student that was
/// at position `perm[k]`.
pub fn apply_permutation(students: Vec<Student>, perm: &Vec<usize>) -> (r: Vec<Student>)
    requires
        perm@.len() == students@.len(),
        perm@.no_duplicates(),
        forall|k: int| 0 <= k < perm@.len() ==> #[trigger] perm@[k] < students@.len(),
    ensures
        r@ == perm@.map_values(|j: usize| students@[j as int]),
        views(r@) == perm@.map_values(|j: usize| views(students@)[j as int]),
{
    let ghost orig = views(students@);
    let n = students.len();
    let mut slots: Vec<Option<Student>> = Vec::new();
    let mut students = students;
    let ghost all = students@;
    // Move each student into its own slot, in order.
    let mut rest: Vec<Student> = Vec::new();
    while students.len() > 0
        invariant
            students@.len() + rest@.len() == n,
            all.len() == n,
            rest@ == all.subrange(students@.len() as int, n as int).reverse(),
            students@ == all.subrange(0, students@.len() as int),
        decreases students.len(),
    {
        let s = students.pop().unwrap();
        rest.push(s);
        assert(students@ == all.subrange(0, students@.len() as int));
        assert(rest@ =~= all.subrange(students@.len() as int, n as int).reverse());
    }
    // `rest` now holds the students in reverse order.
    while rest.len() > 0
        invariant
            rest@.len() + slots@.len() == n,
            all.len() == n,
            rest@ == all.subrange(slots@.len() as int, n as int).reverse(),
            forall|k: int| 0 <= k < slots@.len() ==> (#[trigger] slots@[k]) == Some(all[k]),
        decreases rest.len(),
    {
        let s = rest.pop().unwrap();
        assert(s == all[slots@.len() as int]);
        slots.push(Some(s));
        assert(rest@ =~= all.subrange(slots@.len() as int, n as int).reverse());
    }
    let mut r: Vec<Student> = Vec::new();
    let mut k: usize = 0;
    while k < perm.len()
        invariant
            k <= perm@.len(),
            perm@.len() == n,
            slots@.len() == n,
            all.len() == n,
            orig == views(all),
            perm@.no_duplicates(),
            forall|q: int| 0 <= q < perm@.len() ==> #[trigger] perm@[q] < n,
            forall|t: int| 0 <= t < n ==> (#[trigger] slots@[t] is Some <==> !perm@.take(k as int).contains(t as usize)),
            forall|t: int| 0 <= t < n && slots@[t] is Some ==> slots@[t] == Some(#[trigger] all[t]),
            r@.len() == k,
            forall|q: int| 0 <= q < k ==> #[trigger] r@[q] == all[perm@[q] as int],
        decreases perm.len() - k,
    {
        let j = perm[k];
        assert(!perm@.take(k as int).contains(j)) by {
            if perm@.take(k as int).contains(j) {
                let q = choose|q: int| 0 <= q < k && perm@.take(k as int)[q] == j;
                assert(perm@[q] == perm@[k as int]);
            }
        }
        let s = slots[j].take().unwrap();
        assert(s == all[j as int]);
        r.push(s);
        proof {
            assert forall|t: int| 0 <= t < n implies (#[trigger] slots@[t] is Some <==> !perm@.take(k + 1).contains(t as usize)) by {
                if perm@.take(k + 1).contains(t as usize) {
                    let q = choose|q: int| 0 <= q < k + 1 && #[trigger] perm@.take(k + 1)[q] == t as usize;
                    if q < k {
                        assert(perm@.take(k as int)[q] == t as usize);
                    }
                }
                if perm@.take(k as int).contains(t as usize) {
                    let q = choose|q: int| 0 <= q < k && #[trigger] perm@.take(k as int)[q] == t as usize;
                    assert(perm@.take(k + 1)[q] == t as usize);
                }
                if t == j as int {
                    assert(perm@.take(k + 1)[k as int] == j);
                }
            }
        }
        k = k + 1;
    }
    assert(r@ =~= perm@.map_values(|j: usize| all[j as int]));
    assert(views(r@) =~= perm@.map_values(|j: usize| orig[j as int]));
    r
}

} // verus!
