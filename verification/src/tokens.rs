//! Character-level scanning used by the entry selector: white space,
//! trimming, splitting on a separator and reading unsigned numbers.
use vstd::prelude::*;
use vstd::string::StrSliceExecFns;

verus! {

/// Whether `c` has the Unicode `White_Space` property (what `char::is_whitespace`
/// and `str::trim` go by).
pub open spec fn is_ws(c: char) -> bool {
    let u = c as u32;
    ||| 0x09 <= u <= 0x0d
    ||| u == 0x20
    ||| u == 0x85
    ||| u == 0xa0
    ||| u == 0x1680
    ||| 0x2000 <= u <= 0x200a
    ||| u == 0x2028
    ||| u == 0x2029
    ||| u == 0x202f
    ||| u == 0x205f
    ||| u == 0x3000
}

/// `s` without its leading white space.
pub open spec fn trim_start(s: Seq<char>) -> Seq<char>
    decreases s.len(),
{
    if s.len() > 0 && is_ws(s[0]) {
        trim_start(s.drop_first())
    } else {
        s
    }
}

/// `s` without its trailing white space.
pub open spec fn trim_end(s: Seq<char>) -> Seq<char>
    decreases s.len(),
{
    if s.len() > 0 && is_ws(s.last()) {
        trim_end(s.drop_last())
    } else {
        s
    }
}

/// `s` without leading and trailing white space.
pub open spec fn trim(s: Seq<char>) -> Seq<char> {
    trim_end(trim_start(s))
}

/// The pieces of `s` between occurrences of `sep`, empty pieces included
/// (as `str::split` gives them); the empty sequence has one empty piece.
pub open spec fn split_on(s: Seq<char>, sep: char) -> Seq<Seq<char>>
    decreases s.len(),
{
    if s.len() == 0 {
        seq![Seq::empty()]
    } else {
        let rest = split_on(s.drop_first(), sep);
        if s[0] == sep {
            seq![Seq::<char>::empty()] + rest
        } else {
            rest.update(0, seq![s[0]] + rest[0])
        }
    }
}

/// The position of the first `c` in `s`, if there is one.
pub open spec fn first_index(s: Seq<char>, c: char) -> Option<int>
    decreases s.len(),
{
    if s.len() == 0 {
        None
    } else if s[0] == c {
        Some(0)
    } else {
        match first_index(s.drop_first(), c) {
            Some(i) => Some(i + 1),
            None => None,
        }
    }
}

/// Whether `c` is an ASCII decimal digit.
pub open spec fn is_digit(c: char) -> bool {
    '0' as u32 <= c as u32 <= '9' as u32
}

/// The number written by the decimal digits `ds`.
pub open spec fn digits_value(ds: Seq<char>) -> nat
    decreases ds.len(),
{
    if ds.len() == 0 {
        0
    } else {
        digits_value(ds.drop_last()) * 10 + (ds.last() as u32 - '0' as u32) as nat
    }
}

/// `t` without one leading `+` sign, if it has one.
pub open spec fn unsigned_digits(t: Seq<char>) -> Seq<char> {
    if t.len() > 0 && t[0] == '+' {
        t.drop_first()
    } else {
        t
    }
}

/// What `t.parse::<usize>()` gives: an optional `+` followed by one or more
/// decimal digits whose value fits in `usize`.
pub open spec fn parse_usize(t: Seq<char>) -> Option<nat> {
    let ds = unsigned_digits(t);
    if ds.len() > 0 && (forall|i: int| 0 <= i < ds.len() ==> is_digit(#[trigger] ds[i]))
        && digits_value(ds) <= usize::MAX {
        Some(digits_value(ds))
    } else {
        None
    }
}

/// The characters of `s`, in order.
pub fn to_chars(s: &str) -> (v: Vec<char>)
    ensures
        v@ == s@,
{
    let n = s.unicode_len();
    let mut v: Vec<char> = Vec::new();
    for i in 0..n
        invariant
            n == s@.len(),
            v@ == s@.take(i as int),
    {
        let c = s.get_char(i);
        v.push(c);
        proof {
            assert(s@.take(i as int).push(c) =~= s@.take(i + 1));
        }
    }
    proof {
        assert(s@.take(n as int) =~= s@);
    }
    v
}

/// Whether `c` is white space (`char::is_whitespace`).
pub fn is_white_space(c: char) -> (r: bool)
    ensures
        r == is_ws(c),
{
    let u = c as u32;
    (0x09 <= u && u <= 0x0d) || u == 0x20 || u == 0x85 || u == 0xa0 || u == 0x1680 || (0x2000
        <= u && u <= 0x200a) || u == 0x2028 || u == 0x2029 || u == 0x202f || u == 0x205f || u
        == 0x3000
}

proof fn lemma_trim_start_step(s: Seq<char>, a: int, b: int)
    requires
        0 <= a < b <= s.len(),
        is_ws(s[a]),
    ensures
        trim_start(s.subrange(a, b)) == trim_start(s.subrange(a + 1, b)),
{
    assert(s.subrange(a, b).drop_first() =~= s.subrange(a + 1, b));
}

proof fn lemma_trim_end_step(s: Seq<char>, a: int, b: int)
    requires
        0 <= a < b <= s.len(),
        is_ws(s[b - 1]),
    ensures
        trim_end(s.subrange(a, b)) == trim_end(s.subrange(a, b - 1)),
{
    assert(s.subrange(a, b).drop_last() =~= s.subrange(a, b - 1));
}

/// The bounds of `s[lo..hi]` with leading and trailing white space removed.
pub fn trim_bounds(s: &Vec<char>, lo: usize, hi: usize) -> (r: (usize, usize))
    requires
        lo <= hi <= s@.len(),
    ensures
        lo <= r.0 <= r.1 <= hi,
        s@.subrange(r.0 as int, r.1 as int) == trim(s@.subrange(lo as int, hi as int)),
{
    let mut a = lo;
    while a < hi && is_white_space(s[a])
        invariant
            lo <= a <= hi <= s@.len(),
            trim_start(s@.subrange(lo as int, hi as int)) == trim_start(
                s@.subrange(a as int, hi as int),
            ),
        decreases hi - a,
    {
        proof {
            lemma_trim_start_step(s@, a as int, hi as int);
        }
        a = a + 1;
    }
    proof {
        if a < hi {
            assert(s@.subrange(a as int, hi as int)[0] == s@[a as int]);
        }
        assert(trim_start(s@.subrange(a as int, hi as int)) == s@.subrange(a as int, hi as int));
    }
    let mut b = hi;
    while b > a && is_white_space(s[b - 1])
        invariant
            lo <= a <= b <= hi <= s@.len(),
            trim(s@.subrange(lo as int, hi as int)) == trim_end(s@.subrange(a as int, b as int)),
        decreases b - a,
    {
        proof {
            lemma_trim_end_step(s@, a as int, b as int);
        }
        b = b - 1;
    }
    proof {
        if b > a {
            assert(s@.subrange(a as int, b as int).last() == s@[b - 1]);
        }
    }
    (a, b)
}

/// The first position in `[lo, hi)` holding `c`, or `hi` when there is none.
pub fn find_char(s: &Vec<char>, c: char, lo: usize, hi: usize) -> (k: usize)
    requires
        lo <= hi <= s@.len(),
    ensures
        lo <= k <= hi,
        forall|j: int| lo <= j < k ==> s@[j] != c,
        k < hi ==> s@[k as int] == c,
{
    let mut k = lo;
    while k < hi && s[k] != c
        invariant
            lo <= k <= hi <= s@.len(),
            forall|j: int| lo <= j < k ==> s@[j] != c,
        decreases hi - k,
    {
        k = k + 1;
    }
    k
}

/// `first_index` of a sequence whose first `c` is at `k` (or that has none
/// when `k` is its length).
pub proof fn lemma_first_index(t: Seq<char>, c: char, k: int)
    requires
        0 <= k <= t.len(),
        forall|j: int| 0 <= j < k ==> t[j] != c,
        k < t.len() ==> t[k] == c,
    ensures
        first_index(t, c) == (if k < t.len() { Some(k) } else { None::<int> }),
    decreases k,
{
    if k > 0 {
        let u = t.drop_first();
        assert forall|j: int| 0 <= j < k - 1 implies u[j] != c by {
            assert(u[j] == t[j + 1]);
        }
        if k < t.len() {
            assert(u[k - 1] == t[k]);
        }
        lemma_first_index(u, c, k - 1);
    }
}

/// Splitting a sequence whose first separator is at `k` (or that has none
/// when `k` is its length) gives its first `k` characters, then the pieces
/// of what follows the separator.
pub proof fn lemma_split_first(t: Seq<char>, sep: char, k: int)
    requires
        0 <= k <= t.len(),
        forall|j: int| 0 <= j < k ==> t[j] != sep,
        k < t.len() ==> t[k] == sep,
    ensures
        split_on(t, sep) == seq![t.take(k)] + (if k < t.len() {
            split_on(t.skip(k + 1), sep)
        } else {
            Seq::empty()
        }),
    decreases k,
{
    if k == 0 {
        assert(t.take(0) =~= Seq::<char>::empty());
        if t.len() == 0 {
            assert(split_on(t, sep) =~= seq![t.take(0)]);
        } else {
            assert(t.drop_first() =~= t.skip(1));
            assert(split_on(t, sep) =~= seq![t.take(0)] + split_on(t.skip(1), sep));
        }
    } else {
        let u = t.drop_first();
        assert forall|j: int| 0 <= j < k - 1 implies u[j] != sep by {
            assert(u[j] == t[j + 1]);
        }
        if k < t.len() {
            assert(u[k - 1] == t[k]);
            assert(u.skip(k) =~= t.skip(k + 1));
        }
        lemma_split_first(u, sep, k - 1);
        assert(seq![t[0]] + u.take(k - 1) =~= t.take(k));
        let tail = if k < t.len() {
            split_on(t.skip(k + 1), sep)
        } else {
            Seq::empty()
        };
        assert(split_on(u, sep) == seq![u.take(k - 1)] + tail);
        assert(split_on(t, sep) =~= seq![t.take(k)] + tail);
    }
}

proof fn lemma_digits_value_prefix(ds: Seq<char>, j: int)
    requires
        0 <= j <= ds.len(),
        forall|i: int| 0 <= i < ds.len() ==> is_digit(#[trigger] ds[i]),
    ensures
        digits_value(ds.take(j)) <= digits_value(ds),
    decreases ds.len() - j,
{
    if j < ds.len() {
        lemma_digits_value_prefix(ds, j + 1);
        assert(ds.take(j + 1).drop_last() =~= ds.take(j));
        assert(is_digit(ds[j]));
    }
    else {
        assert(ds.take(j) =~= ds);
    }
}

/// `s[lo..hi].parse::<usize>()`, as an option.
pub fn parse_usize_range(s: &Vec<char>, lo: usize, hi: usize) -> (r: Option<usize>)
    requires
        lo <= hi <= s@.len(),
    ensures
        match parse_usize(s@.subrange(lo as int, hi as int)) {
            Some(n) => r == Some(n as usize),
            None => r is None,
        },
{
    let ghost t = s@.subrange(lo as int, hi as int);
    let mut start = lo;
    if lo < hi && s[lo] == '+' {
        start = lo + 1;
    }
    let ghost ds = s@.subrange(start as int, hi as int);
    proof {
        assert(unsigned_digits(t) =~= ds);
    }
    if start == hi {
        return None;
    }
    let mut v: usize = 0;
    let mut i = start;
    while i < hi
        invariant
            lo <= start <= i <= hi <= s@.len(),
            ds == s@.subrange(start as int, hi as int),
            t == s@.subrange(lo as int, hi as int),
            unsigned_digits(t) == ds,
            forall|j: int| start <= j < i ==> is_digit(#[trigger] s@[j]),
            v == digits_value(ds.take(i - start)),
        decreases hi - i,
    {
        let c = s[i];
        let u = c as u32;
        if !('0' as u32 <= u && u <= '9' as u32) {
            proof {
                assert(ds[i - start] == s@[i as int]);
                assert(!is_digit(ds[i - start]));
            }
            return None;
        }
        let d = (u - '0' as u32) as usize;
        proof {
            assert(ds.take(i - start + 1).drop_last() =~= ds.take(i - start));
            assert(ds[i - start] == s@[i as int]);
            assert(ds.take(i - start + 1).last() == c);
        }
        match v.checked_mul(10) {
            Some(w) => match w.checked_add(d) {
                Some(x) => {
                    v = x;
                },
                None => {
                    proof {
                        if forall|j: int| 0 <= j < ds.len() ==> is_digit(#[trigger] ds[j]) {
                            lemma_digits_value_prefix(ds, i - start + 1);
                        }
                    }
                    return None;
                },
            },
            None => {
                proof {
                    if forall|j: int| 0 <= j < ds.len() ==> is_digit(#[trigger] ds[j]) {
                        lemma_digits_value_prefix(ds, i - start + 1);
                    }
                }
                return None;
            },
        }
        i = i + 1;
    }
    proof {
        assert(ds.take(hi - start) =~= ds);
        assert forall|j: int| 0 <= j < ds.len() implies is_digit(#[trigger] ds[j]) by {
            assert(ds[j] == s@[start + j]);
        }
    }
    Some(v)
}

/// Parsing reads decimal: a single digit is its own value, and one more
/// digit after a parsed number multiplies it by ten and adds the digit
/// (while the result fits in `usize`).
pub proof fn law_parse_usize_decimal(t: Seq<char>, c: char)
    requires
        is_digit(c),
    ensures
        parse_usize(seq![c]) == Some((c as u32 - '0' as u32) as nat),
        parse_usize(t) matches Some(v) ==> (v * 10 + (c as u32 - '0' as u32) <= usize::MAX
            ==> parse_usize(t.push(c)) == Some((v * 10 + (c as u32 - '0' as u32)) as nat)),
        parse_usize(t) matches Some(v) ==> (v * 10 + (c as u32 - '0' as u32) > usize::MAX
            ==> parse_usize(t.push(c)) is None),
{
    let one = seq![c];
    assert(unsigned_digits(one) =~= one) by {
        assert(one[0] != '+');
    }
    assert(one.drop_last() =~= Seq::<char>::empty());
    assert(digits_value(one) == digits_value(one.drop_last()) * 10 + (c as u32 - '0' as u32) as nat);
    if parse_usize(t) is Some {
        let ds = unsigned_digits(t);
        let t2 = t.push(c);
        assert(t.len() > 0);
        assert(t2[0] == t[0]);
        assert(unsigned_digits(t2) =~= ds.push(c));
        let ds2 = ds.push(c);
        assert(ds2.drop_last() =~= ds);
        assert(ds2.last() == c);
        assert(digits_value(ds2) == digits_value(ds) * 10 + (c as u32 - '0' as u32) as nat);
        assert forall|i: int| 0 <= i < ds2.len() implies is_digit(#[trigger] ds2[i]) by {
            if i < ds.len() {
                assert(ds2[i] == ds[i]);
            }
        }
    }
}

/// Parsing accepts nothing but digits after at most one leading `+`: an
/// empty text, a lone `+` and any text with another character are refused,
/// and a leading `+` does not change the value.
pub proof fn law_parse_usize_refuses(t: Seq<char>, k: int)
    ensures
        parse_usize(Seq::<char>::empty()) is None,
        parse_usize(seq!['+']) is None,
        0 <= k < t.len() && !is_digit(t[k]) && !(k == 0 && t[k] == '+') ==> parse_usize(t) is None,
        t.len() > 0 && t[0] != '+' ==> parse_usize(seq!['+'] + t) == parse_usize(t),
{
    assert(unsigned_digits(seq!['+']).len() == 0);
    if 0 <= k < t.len() && !is_digit(t[k]) && !(k == 0 && t[k] == '+') {
        let ds = unsigned_digits(t);
        if t.len() > 0 && t[0] == '+' {
            assert(ds[k - 1] == t[k]);
        } else {
            assert(ds[k] == t[k]);
        }
    }
    if t.len() > 0 && t[0] != '+' {
        assert(unsigned_digits(seq!['+'] + t) =~= t);
        assert(unsigned_digits(t) == t);
    }
}

} // verus!
