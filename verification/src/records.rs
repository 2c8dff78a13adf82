//! Line-oriented text records: lines as `str::lines` gives them, fields as
//! `str::split` on one character gives them, and unsigned decimals as the
//! integer `from_str` impls read them.
use crate::text::{decimal, digit};
use vstd::prelude::*;

verus! {

/// Where `c` first occurs in `s`, if it does.
pub open spec fn find_char(s: Seq<char>, c: char) -> Option<nat>
    decreases s.len(),
{
    if s.len() == 0 {
        None
    } else if s[0] == c {
        Some(0)
    } else {
        match find_char(s.drop_first(), c) {
            Some(i) => Some(i + 1),
            None => None,
        }
    }
}

pub proof fn lemma_find_char(s: Seq<char>, c: char)
    ensures
        match find_char(s, c) {
            Some(i) => i < s.len() && s[i as int] == c && forall|j: int|
                0 <= j < i ==> #[trigger] s[j] != c,
            None => forall|j: int| 0 <= j < s.len() ==> #[trigger] s[j] != c,
        },
    decreases s.len(),
{
    if s.len() > 0 && s[0] != c {
        let t = s.drop_first();
        lemma_find_char(t, c);
        match find_char(t, c) {
            Some(i) => {
                assert forall|j: int| 0 <= j < i + 1 implies #[trigger] s[j] != c by {
                    if j > 0 {
                        assert(s[j] == t[j - 1]);
                    }
                }
                assert(s[i + 1 as int] == t[i as int]);
            },
            None => {
                assert forall|j: int| 0 <= j < s.len() implies #[trigger] s[j] != c by {
                    if j > 0 {
                        assert(s[j] == t[j - 1]);
                    }
                }
            },
        }
    }
}

pub proof fn lemma_find_char_at(s: Seq<char>, c: char, i: int)
    requires
        0 <= i <= s.len(),
        forall|j: int| 0 <= j < i ==> #[trigger] s[j] != c,
        i == s.len() || s[i] == c,
    ensures
        find_char(s, c) == if i < s.len() {
            Some(i as nat)
        } else {
            None::<nat>
        },
    decreases i,
{
    if i > 0 {
        let t = s.drop_first();
        assert(s[0] != c);
        assert forall|j: int| 0 <= j < i - 1 implies #[trigger] t[j] != c by {
            assert(t[j] == s[j + 1]);
        }
        if i < s.len() {
            assert(t[i - 1] == s[i]);
        }
        lemma_find_char_at(t, c, i - 1);
    }
}

/// `l` without one carriage return at its end.
pub open spec fn strip_cr(l: Seq<char>) -> Seq<char> {
    if l.len() > 0 && l.last() == '\r' {
        l.drop_last()
    } else {
        l
    }
}

/// The lines of `s` as `str::lines` gives them: split after each line
/// feed, one carriage return before a line feed dropped, and no empty
/// last line after a final line feed.
pub open spec fn lines(s: Seq<char>) -> Seq<Seq<char>>
    decreases s.len(),
{
    if s.len() == 0 {
        Seq::empty()
    } else {
        match find_char(s, '\n') {
            None => seq![s],
            Some(i) => {
                proof {
                    lemma_find_char(s, '\n');
                }
                seq![strip_cr(s.take(i as int))] + lines(s.skip((i + 1) as int))
            },
        }
    }
}

/// The pieces of `s` between occurrences of `c`, as `str::split` gives
/// them: always at least one, empty pieces kept.
pub open spec fn split_on(s: Seq<char>, c: char) -> Seq<Seq<char>>
    decreases s.len(),
{
    match find_char(s, c) {
        None => seq![s],
        Some(i) => {
            proof {
                lemma_find_char(s, c);
            }
            seq![s.take(i as int)] + split_on(s.skip((i + 1) as int), c)
        },
    }
}

/// The `k`-th piece, or nothing when there are fewer: what the `k`-th call
/// of `next` on a split gives, with `unwrap_or_default`.
pub open spec fn piece(pieces: Seq<Seq<char>>, k: int) -> Seq<char> {
    if 0 <= k < pieces.len() {
        pieces[k]
    } else {
        Seq::empty()
    }
}

/// The characters `s[a..b]`.
pub fn sub_chars(s: &Vec<char>, a: usize, b: usize) -> (v: Vec<char>)
    requires
        a <= b <= s@.len(),
    ensures
        v@ == s@.subrange(a as int, b as int),
{
    let mut v: Vec<char> = Vec::new();
    let mut k = a;
    while k < b
        invariant
            a <= k <= b <= s@.len(),
            v@ == s@.subrange(a as int, k as int),
        decreases b - k,
    {
        v.push(s[k]);
        k = k + 1;
        assert(v@ =~= s@.subrange(a as int, k as int));
    }
    v
}

/// The pieces of `s[a..b]` split at `c`, as positions in `s`.
pub fn split_ranges(s: &Vec<char>, a: usize, b: usize, c: char) -> (r: Vec<(usize, usize)>)
    requires
        a <= b <= s@.len(),
    ensures
        r@.len() == split_on(s@.subrange(a as int, b as int), c).len(),
        forall|k: int|
            0 <= k < r@.len() ==> a <= (#[trigger] r@[k]).0 <= r@[k].1 <= b && s@.subrange(
                r@[k].0 as int,
                r@[k].1 as int,
            ) == split_on(s@.subrange(a as int, b as int), c)[k],
{
    let ghost whole = s@.subrange(a as int, b as int);
    let mut r: Vec<(usize, usize)> = Vec::new();
    let ghost mut done: Seq<Seq<char>> = Seq::empty();
    let mut start = a;
    let mut i = a;
    assert(whole.skip(0) =~= whole);
    while i < b
        invariant
            a <= start <= i <= b <= s@.len(),
            whole == s@.subrange(a as int, b as int),
            forall|j: int| start <= j < i ==> #[trigger] s@[j] != c,
            r@.len() == done.len(),
            forall|k: int|
                0 <= k < r@.len() ==> a <= (#[trigger] r@[k]).0 <= r@[k].1 <= b && s@.subrange(
                    r@[k].0 as int,
                    r@[k].1 as int,
                ) == done[k],
            split_on(whole, c) == done + split_on(s@.subrange(start as int, b as int), c),
        decreases b - i,
    {
        if s[i] == c {
            let ghost t = s@.subrange(start as int, b as int);
            proof {
                assert forall|j: int| 0 <= j < i - start implies #[trigger] t[j] != c by {
                    assert(t[j] == s@[start + j]);
                }
                lemma_find_char_at(t, c, i - start);
                assert(t.take(i - start) =~= s@.subrange(start as int, i as int));
                assert(t.skip(i - start + 1) =~= s@.subrange(i + 1, b as int));
                assert(split_on(t, c) == seq![t.take(i - start)] + split_on(
                    t.skip(i - start + 1),
                    c,
                ));
            }
            r.push((start, i));
            proof {
                done = done.push(s@.subrange(start as int, i as int));
                assert(split_on(whole, c) =~= done + split_on(s@.subrange(i + 1, b as int), c));
            }
            start = i + 1;
        }
        i = i + 1;
    }
    let ghost t = s@.subrange(start as int, b as int);
    proof {
        assert forall|j: int| 0 <= j < t.len() implies #[trigger] t[j] != c by {
            assert(t[j] == s@[start + j]);
        }
        lemma_find_char_at(t, c, t.len() as int);
    }
    r.push((start, b));
    proof {
        done = done.push(t);
        assert(split_on(whole, c) =~= done);
    }
    r
}

/// The lines of `s`, as positions in `s`.
pub fn line_ranges(s: &Vec<char>) -> (r: Vec<(usize, usize)>)
    ensures
        r@.len() == lines(s@).len(),
        forall|k: int|
            0 <= k < r@.len() ==> (#[trigger] r@[k]).0 <= r@[k].1 <= s@.len() && s@.subrange(
                r@[k].0 as int,
                r@[k].1 as int,
            ) == lines(s@)[k],
{
    let n = s.len();
    let mut r: Vec<(usize, usize)> = Vec::new();
    let ghost mut done: Seq<Seq<char>> = Seq::empty();
    let mut start: usize = 0;
    let mut i: usize = 0;
    assert(s@.skip(0) =~= s@);
    while i < n
        invariant
            n == s@.len(),
            start <= i <= n,
            forall|j: int| start <= j < i ==> #[trigger] s@[j] != '\n',
            r@.len() == done.len(),
            forall|k: int|
                0 <= k < r@.len() ==> (#[trigger] r@[k]).0 <= r@[k].1 <= n && s@.subrange(
                    r@[k].0 as int,
                    r@[k].1 as int,
                ) == done[k],
            lines(s@) == done + lines(s@.skip(start as int)),
        decreases n - i,
    {
        if s[i] == '\n' {
            let ghost t = s@.skip(start as int);
            let end = if i > start && s[i - 1] == '\r' {
                i - 1
            } else {
                i
            };
            proof {
                assert forall|j: int| 0 <= j < i - start implies #[trigger] t[j] != '\n' by {
                    assert(t[j] == s@[start + j]);
                }
                lemma_find_char_at(t, '\n', i - start);
                let l = t.take(i - start);
                assert(l =~= s@.subrange(start as int, i as int));
                assert(t.skip(i - start + 1) =~= s@.skip(i + 1));
                if i > start && s@[i - 1] == '\r' {
                    assert(l.last() == s@[i - 1]);
                    assert(strip_cr(l) =~= s@.subrange(start as int, end as int));
                } else {
                    assert(strip_cr(l) =~= s@.subrange(start as int, end as int));
                }
                assert(lines(t) == seq![strip_cr(l)] + lines(t.skip(i - start + 1)));
            }
            r.push((start, end));
            proof {
                done = done.push(s@.subrange(start as int, end as int));
                assert(lines(s@) =~= done + lines(s@.skip(i + 1)));
            }
            start = i + 1;
        }
        i = i + 1;
    }
    if start < n {
        let ghost t = s@.skip(start as int);
        proof {
            assert forall|j: int| 0 <= j < t.len() implies #[trigger] t[j] != '\n' by {
                assert(t[j] == s@[start + j]);
            }
            lemma_find_char_at(t, '\n', t.len() as int);
            assert(t =~= s@.subrange(start as int, n as int));
        }
        r.push((start, n));
        proof {
            done = done.push(t);
            assert(lines(s@) =~= done);
        }
    } else {
        assert(lines(s@) =~= done);
    }
    r
}

/// The value of a string of decimal digits, if every character is one.
pub open spec fn digits_value(d: Seq<char>) -> Option<nat>
    decreases d.len(),
{
    if d.len() == 0 {
        Some(0)
    } else if '0' <= d.last() <= '9' {
        match digits_value(d.drop_last()) {
            Some(v) => Some(v * 10 + (d.last() as u32 - 48) as nat),
            None => None,
        }
    } else {
        None
    }
}

/// An unsigned integer as the integer `from_str` impls read it: an
/// optional `+`, then one or more decimal digits, of value at most `max`.
pub open spec fn parse_unsigned(s: Seq<char>, max: nat) -> Option<nat> {
    let d = if s.len() > 0 && s[0] == '+' {
        s.drop_first()
    } else {
        s
    };
    if d.len() == 0 {
        None
    } else {
        match digits_value(d) {
            Some(v) => if v <= max {
                Some(v)
            } else {
                None
            },
            None => None,
        }
    }
}

proof fn lemma_digits_prefix(d: Seq<char>, k: int, v: nat)
    requires
        0 <= k < d.len(),
        digits_value(d.take(k)) == Some(v),
        '0' <= d[k] <= '9',
    ensures
        digits_value(d.take(k + 1)) == Some(v * 10 + (d[k] as u32 - 48) as nat),
{
    assert(d.take(k + 1).drop_last() =~= d.take(k));
}

proof fn lemma_digits_stop(d: Seq<char>, k: int)
    requires
        0 <= k < d.len(),
        !('0' <= d[k] <= '9'),
    ensures
        digits_value(d) is None,
    decreases d.len(),
{
    if k < d.len() - 1 {
        lemma_digits_stop(d.drop_last(), k);
    }
}

proof fn lemma_digits_grow(d: Seq<char>, k: int, max: nat)
    requires
        0 <= k <= d.len(),
        digits_value(d.take(k)) matches Some(v) && v > max,
        digits_value(d) is Some,
    ensures
        digits_value(d)->Some_0 > max,
    decreases d.len() - k,
{
    if k < d.len() {
        let v = digits_value(d.take(k))->Some_0;
        if !('0' <= d[k] <= '9') {
            lemma_digits_stop(d, k);
        }
        lemma_digits_prefix(d, k, v);
        assert(v * 10 + (d[k] as u32 - 48) as nat >= v);
        lemma_digits_grow(d, k + 1, max);
    } else {
        assert(d.take(k) =~= d);
    }
}

/// Reads an unsigned integer of value at most `max` from `s[a..b]`.
pub fn read_unsigned(s: &Vec<char>, a: usize, b: usize, max: u64) -> (r: Option<u64>)
    requires
        a <= b <= s@.len(),
    ensures
        r matches Some(v) ==> parse_unsigned(s@.subrange(a as int, b as int), max as nat) == Some(
            v as nat,
        ),
        r is None ==> parse_unsigned(s@.subrange(a as int, b as int), max as nat) is None,
{
    let ghost t = s@.subrange(a as int, b as int);
    let mut start = a;
    if start < b && s[start] == '+' {
        start = start + 1;
    }
    let ghost d = s@.subrange(start as int, b as int);
    proof {
        if t.len() > 0 && t[0] == '+' {
            assert(d =~= t.drop_first());
        } else {
            assert(d =~= t);
        }
    }
    if start == b {
        return None;
    }
    let mut value: u128 = 0;
    let mut i = start;
    assert(d.take(0) =~= Seq::<char>::empty());
    while i < b
        invariant
            a <= start <= i <= b <= s@.len(),
            start < b,
            d == s@.subrange(start as int, b as int),
            t == s@.subrange(a as int, b as int),
            d == (if t.len() > 0 && t[0] == '+' {
                t.drop_first()
            } else {
                t
            }),
            value <= max,
            digits_value(d.take(i - start)) == Some(value as nat),
        decreases b - i,
    {
        let c = s[i];
        if !('0' <= c && c <= '9') {
            proof {
                assert(d[i - start] == c);
                lemma_digits_stop(d, i - start);
            }
            return None;
        }
        proof {
            assert(d[i - start] == c);
            lemma_digits_prefix(d, i - start, value as nat);
        }
        let next: u128 = value * 10 + (c as u32 - 48) as u128;
        if next > max as u128 {
            proof {
                if digits_value(d) is Some {
                    lemma_digits_grow(d, i - start + 1, max as nat);
                }
            }
            return None;
        }
        value = next;
        i = i + 1;
    }
    assert(d.take(i - start) =~= d);
    Some(value as u64)
}

/// A line feed ends a line: the lines of `a`, a line feed and `rest` are
/// `a` (less a carriage return at its end) and the lines of `rest`.
pub proof fn lemma_lines_cons(a: Seq<char>, rest: Seq<char>)
    requires
        !a.contains('\n'),
    ensures
        lines(a + seq!['\n'] + rest) == seq![strip_cr(a)] + lines(rest),
{
    let s = a + seq!['\n'] + rest;
    assert forall|j: int| 0 <= j < a.len() implies #[trigger] s[j] != '\n' by {
        assert(s[j] == a[j]);
    }
    assert(s[a.len() as int] == '\n');
    lemma_find_char_at(s, '\n', a.len() as int);
    assert(s.take(a.len() as int) =~= a);
    assert(s.skip(a.len() + 1 as int) =~= rest);
}

/// Text without `c` is one piece.
pub proof fn lemma_split_none(a: Seq<char>, c: char)
    requires
        !a.contains(c),
    ensures
        split_on(a, c) == seq![a],
{
    assert forall|j: int| 0 <= j < a.len() implies #[trigger] a[j] != c by {}
    lemma_find_char_at(a, c, a.len() as int);
}

/// A piece without `c`, then `c`: the piece comes first, then the pieces
/// of the rest.
pub proof fn lemma_split_cons(a: Seq<char>, c: char, rest: Seq<char>)
    requires
        !a.contains(c),
    ensures
        split_on(a + seq![c] + rest, c) == seq![a] + split_on(rest, c),
{
    let s = a + seq![c] + rest;
    assert forall|j: int| 0 <= j < a.len() implies #[trigger] s[j] != c by {
        assert(s[j] == a[j]);
    }
    assert(s[a.len() as int] == c);
    lemma_find_char_at(s, c, a.len() as int);
    assert(s.take(a.len() as int) =~= a);
    assert(s.skip(a.len() + 1 as int) =~= rest);
}

/// Every character of a printed decimal is a digit.
pub proof fn lemma_decimal_digits(n: nat)
    ensures
        decimal(n).len() > 0,
        forall|j: int| 0 <= j < decimal(n).len() ==> '0' <= #[trigger] decimal(n)[j] <= '9',
    decreases n,
{
    if n >= 10 {
        lemma_decimal_digits(n / 10);
        assert forall|j: int| 0 <= j < decimal(n).len() implies '0' <= #[trigger] decimal(n)[j]
            <= '9' by {
            if j < decimal(n / 10).len() {
                assert(decimal(n)[j] == decimal(n / 10)[j]);
            }
        }
    }
}

/// Reading a printed decimal gives the number back.
pub proof fn lemma_digits_decimal(n: nat)
    ensures
        digits_value(decimal(n)) == Some(n),
    decreases n,
{
    let d = decimal(n);
    let k = (n % 10) as int;
    let c = digit(n);
    assert(c == ((k + 48) as char));
    assert(c as u32 == k + 48);
    assert('0' <= c <= '9');
    assert(n == (n / 10) * 10 + k);
    if n >= 10 {
        lemma_digits_decimal(n / 10);
        assert(digit(n % 10) == c);
        assert(d.drop_last() =~= decimal(n / 10));
        assert(d.last() == c);
        assert(digits_value(d) == Some((n / 10) * 10 + (c as u32 - 48) as nat));
    } else {
        assert(d == seq![c]);
        assert(d.drop_last() =~= Seq::<char>::empty());
        assert(digits_value(d.drop_last()) == Some(0nat));
        assert(d.last() == c);
    }
}

/// Reading a printed decimal of value at most `max` gives it back.
pub proof fn lemma_parse_decimal(n: nat, max: nat)
    requires
        n <= max,
    ensures
        parse_unsigned(decimal(n), max) == Some(n),
{
    lemma_decimal_digits(n);
    lemma_digits_decimal(n);
    assert(decimal(n)[0] != '+');
}

} // verus!
