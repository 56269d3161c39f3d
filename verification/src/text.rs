//! Text fields: dropping leading white space, reading decimal numbers as
//! Rust's `FromStr` does for integers, and finding a piece of text.
use vstd::prelude::*;

verus! {

/// The Unicode `White_Space` property (as `char::is_whitespace` uses it).
pub open spec fn white_space(c: char) -> bool {
    let u = c as u32;
    ||| 0x09 <= u <= 0x0d
    ||| u == 0x20
    ||| u == 0x85
    ||| u == 0xa0
    ||| u == 0x1680
    ||| 0x2000 <= u <= 0x200a
    ||| u == 0x2028
    ||| u == 0x2029
    ||| u == 0x202f
    ||| u == 0x205f
    ||| u == 0x3000
}

/// `s` without its leading white space.
pub open spec fn trimmed(s: Seq<char>) -> Seq<char>
    decreases s.len(),
{
    if s.len() > 0 && white_space(s[0]) {
        trimmed(s.drop_first())
    } else {
        s
    }
}

/// An ASCII decimal digit.
pub open spec fn is_digit(c: char) -> bool {
    0x30 <= (c as u32) <= 0x39
}

/// Every character of `s` is a digit.
pub open spec fn all_digits(s: Seq<char>) -> bool {
    forall|i: int| 0 <= i < s.len() ==> is_digit(#[trigger] s[i])
}

/// The value of a string of digits.
pub open spec fn digits_value(s: Seq<char>) -> int
    decreases s.len(),
{
    if s.len() == 0 {
        0
    } else {
        10 * digits_value(s.drop_last()) + ((s.last() as u32) - 0x30)
    }
}

/// The value of an unsigned numeral: an optional `+`, then one or more
/// digits.
pub open spec fn unsigned_numeral(s: Seq<char>) -> Option<int> {
    let body = if s.len() > 0 && s[0] == '+' { s.drop_first() } else { s };
    if body.len() > 0 && all_digits(body) {
        Some(digits_value(body))
    } else {
        None
    }
}

/// The value of a signed numeral: an optional `+` or `-`, then one or more
/// digits.
pub open spec fn signed_numeral(s: Seq<char>) -> Option<int> {
    if s.len() > 0 && s[0] == '-' {
        let body = s.drop_first();
        if body.len() > 0 && all_digits(body) {
            Some(-digits_value(body))
        } else {
            None
        }
    } else {
        unsigned_numeral(s)
    }
}

/// `v`, when it is a number between `lo` and `hi`.
pub open spec fn within(v: Option<int>, lo: int, hi: int) -> Option<int> {
    match v {
        Some(x) => if lo <= x <= hi { Some(x) } else { None },
        None => None,
    }
}

/// `needle` occurs in `hay` starting at position `i`.
pub open spec fn occurs_at(hay: Seq<char>, needle: Seq<char>, i: int) -> bool {
    0 <= i && i + needle.len() <= hay.len() && hay.subrange(i, i + needle.len()) == needle
}

/// `needle` occurs somewhere in `hay`.
pub open spec fn occurs_in(hay: Seq<char>, needle: Seq<char>) -> bool {
    exists|i: int| occurs_at(hay, needle, i)
}

/// Whether `c` is white space.
pub fn is_white_space(c: char) -> (r: bool)
    ensures
        r == white_space(c),
{
    let u = c as u32;
    (0x09 <= u && u <= 0x0d) || u == 0x20 || u == 0x85 || u == 0xa0 || u == 0x1680 || (0x2000 <= u && u <= 0x200a)
        || u == 0x2028 || u == 0x2029 || u == 0x202f || u == 0x205f || u == 0x3000
}

proof fn lemma_trimmed_skip(s: Seq<char>, k: int)
    requires
        0 <= k < s.len(),
        white_space(s[k]),
    ensures
        trimmed(s.skip(k)) == trimmed(s.skip(k + 1)),
{
    assert(s.skip(k).drop_first() =~= s.skip(k + 1));
}

/// `s` without its leading white space.
pub fn trim_start(s: &str) -> (r: String)
    ensures
        r@ == trimmed(s@),
{
    let n = s.unicode_len();
    let mut k: usize = 0;
    assert(s@.skip(0) =~= s@);
    while k < n && is_white_space(s.get_char(k))
        invariant
            k <= n,
            n == s@.len(),
            trimmed(s@) == trimmed(s@.skip(k as int)),
        decreases n - k,
    {
        proof {
            lemma_trimmed_skip(s@, k as int);
        }
        k = k + 1;
    }
    let rest = s.substring_char(k, n);
    assert(rest@ =~= s@.skip(k as int));
    proof {
        if k < n {
            assert(s@.skip(k as int)[0] == s@[k as int]);
        }
    }
    String::from_str(rest)
}

/// A digit string that is a prefix of a longer one has no larger value.
pub proof fn lemma_digits_prefix(s: Seq<char>, k: int)
    requires
        0 <= k <= s.len(),
        all_digits(s),
    ensures
        digits_value(s.take(k)) <= digits_value(s),
        0 <= digits_value(s.take(k)),
    decreases s.len(),
{
    if s.len() > 0 {
        let t = s.drop_last();
        assert(all_digits(t)) by {
            assert forall|i: int| 0 <= i < t.len() implies is_digit(#[trigger] t[i]) by {
                assert(t[i] == s[i]);
            }
        }
        assert(is_digit(s[s.len() - 1]));
        if k < s.len() {
            lemma_digits_prefix(t, k);
            assert(t.take(k) =~= s.take(k));
            lemma_digits_prefix(t, t.len() as int);
            assert(t.take(t.len() as int) =~= t);
        } else {
            assert(s.take(k) =~= s);
            lemma_digits_prefix(t, t.len() as int);
            assert(t.take(t.len() as int) =~= t);
        }
    }
}

/// The value of the digits of `s` from position `from` on, when they are all
/// digits, there is at least one, and the value is at most `max`.
fn digits_from(s: &str, from: usize, max: u64) -> (r: Option<u64>)
    requires
        from <= s@.len(),
    ensures
        ({
            let body = s@.skip(from as int);
            match r {
                Some(v) => body.len() > 0 && all_digits(body) && v == digits_value(body) && v <= max,
                None => !(body.len() > 0 && all_digits(body) && digits_value(body) <= max),
            }
        }),
{
    let n = s.unicode_len();
    let ghost body = s@.skip(from as int);
    if from >= n {
        return None;
    }
    let mut acc: u64 = 0;
    let mut k: usize = from;
    while k < n
        invariant
            from <= k <= n,
            n == s@.len(),
            body == s@.skip(from as int),
            all_digits(body.take(k - from)),
            acc == digits_value(body.take(k - from)),
            acc <= max,
        decreases n - k,
    {
        let c = s.get_char(k);
        let u = c as u32;
        assert(body[k - from] == c);
        if !(0x30 <= u && u <= 0x39) {
            assert(!all_digits(body)) by {
                assert(!is_digit(body[k - from]));
            }
            return None;
        }
        let next: u128 = (acc as u128) * 10 + ((u - 0x30) as u128);
        assert(body.take(k + 1 - from).drop_last() =~= body.take(k - from));
        assert(body.take(k + 1 - from).last() == c);
        assert(all_digits(body.take(k + 1 - from))) by {
            assert forall|i: int| 0 <= i < body.take(k + 1 - from).len() implies is_digit(#[trigger] body.take(k + 1 - from)[i]) by {
                if i < k - from {
                    assert(body.take(k + 1 - from)[i] == body.take(k - from)[i]);
                }
            }
        }
        assert(next == digits_value(body.take(k + 1 - from)));
        if next > max as u128 {
            proof {
                if all_digits(body) {
                    lemma_digits_prefix(body, k + 1 - from);
                }
            }
            return None;
        }
        acc = next as u64;
        k = k + 1;
    }
    assert(body.take(n - from) =~= body);
    Some(acc)
}

/// The unsigned number that `s` spells, when it spells one that is at most
/// `max`.
pub fn parse_unsigned(s: &str, max: u64) -> (r: Option<u64>)
    ensures
        r matches Some(v) ==> unsigned_numeral(s@) == Some(v as int),
        r is Some <==> within(unsigned_numeral(s@), 0, max as int) is Some,
{
    let n = s.unicode_len();
    if n > 0 && s.get_char(0) == '+' {
        assert(s@.skip(1) =~= s@.drop_first());
        digits_from(s, 1, max)
    } else {
        assert(s@.skip(0) =~= s@);
        proof {
            if unsigned_numeral(s@) is Some {
                let v = digits_value(s@);
                assert(0 <= v) by {
                    lemma_digits_prefix(s@, 0);
                }
            }
        }
        digits_from(s, 0, max)
    }
}

/// The `i32` that `s` spells, when it spells one.
pub fn parse_i32(s: &str) -> (r: Option<i32>)
    ensures
        r matches Some(v) ==> signed_numeral(s@) == Some(v as int),
        r is Some <==> within(signed_numeral(s@), i32::MIN as int, i32::MAX as int) is Some,
{
    let n = s.unicode_len();
    if n > 0 && s.get_char(0) == '-' {
        assert(s@.skip(1) =~= s@.drop_first());
        match digits_from(s, 1, 0x8000_0000) {
            Some(v) => Some((0 - (v as i64)) as i32),
            None => {
                proof {
                    let body = s@.drop_first();
                    if body.len() > 0 && all_digits(body) {
                        lemma_digits_prefix(body, 0);
                    }
                }
                None
            },
        }
    } else {
        proof {
            lemma_unsigned_nonnegative(s@);
        }
        match parse_unsigned(s, 0x7fff_ffff) {
            Some(v) => Some(v as i32),
            None => None,
        }
    }
}

/// An unsigned numeral has a value of zero or more.
pub proof fn lemma_unsigned_nonnegative(s: Seq<char>)
    ensures
        unsigned_numeral(s) matches Some(v) ==> v >= 0,
{
    let body = if s.len() > 0 && s[0] == '+' { s.drop_first() } else { s };
    if body.len() > 0 && all_digits(body) {
        lemma_digits_prefix(body, 0);
    }
}

/// Whether `needle` occurs in `hay`.
pub fn contains_text(hay: &str, needle: &str) -> (r: bool)
    ensures
        r == occurs_in(hay@, needle@),
{
    let n = hay.unicode_len();
    let m = needle.unicode_len();
    if m > n {
        assert(!occurs_in(hay@, needle@));
        return false;
    }
    let mut i: usize = 0;
    while i <= n - m
        invariant
            i <= n - m + 1,
            n == hay@.len(),
            m == needle@.len(),
            m <= n,
            forall|j: int| 0 <= j < i ==> !occurs_at(hay@, needle@, j),
        decreases n - m + 1 - i,
    {
        let mut k: usize = 0;
        while k < m && hay.get_char(i + k) == needle.get_char(k)
            invariant
                k <= m,
                i + m <= n,
                n == hay@.len(),
                m == needle@.len(),
                forall|q: int| 0 <= q < k ==> hay@[i + q] == needle@[q],
            decreases m - k,
        {
            k = k + 1;
        }
        if k == m {
            assert(hay@.subrange(i as int, i + m) =~= needle@);
            assert(occurs_at(hay@, needle@, i as int));
            return true;
        }
        assert(!occurs_at(hay@, needle@, i as int)) by {
            if hay@.subrange(i as int, i + m) == needle@ {
                assert(hay@.subrange(i as int, i + m)[k as int] == hay@[i + k]);
            }
        }
        i = i + 1;
    }
    assert(!occurs_in(hay@, needle@)) by {
        if occurs_in(hay@, needle@) {
            let j = choose|j: int| occurs_at(hay@, needle@, j);
            assert(j <= n - m);
        }
    }
    false
}

} // verus!
