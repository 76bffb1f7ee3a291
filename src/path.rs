//! The path grammar: `path := segment ("." segment)*`, where a segment is a
//! key optionally followed by one trailing `[digits]` index.
use vstd::prelude::*;

verus! {

pub open spec fn is_digit(c: char) -> bool {
    '0' <= c && c <= '9'
}

/// Number of ASCII digits at the end of `s`.
pub open spec fn digit_run(s: Seq<char>) -> nat
    decreases s.len(),
{
    if s.len() > 0 && is_digit(s.last()) {
        1 + digit_run(s.drop_last())
    } else {
        0
    }
}

/// The number that a string of decimal digits denotes.
pub open spec fn digits_value(ds: Seq<char>) -> nat
    decreases ds.len(),
{
    if ds.len() == 0 {
        0
    } else {
        digits_value(ds.drop_last()) * 10 + (ds.last() as nat - '0' as nat) as nat
    }
}

/// Text without a `[`, which is what a key of an indexed segment is.
pub open spec fn bracket_free(s: Seq<char>) -> bool {
    forall|i: int| 0 <= i < s.len() ==> #[trigger] s[i] != '['
}

/// Where the trailing `[digits]` group of a segment opens, if the segment
/// is `key[digits]`: the `]` is the last character, at least one digit
/// precedes it, a `[` precedes the digits, and the key before that `[`
/// holds no other `[`.
pub open spec fn bracket_start(seg: Seq<char>) -> Option<int> {
    if seg.len() >= 1 && seg.last() == ']' {
        let body = seg.drop_last();
        let n = digit_run(body);
        if n >= 1 && body.len() > n && body[body.len() - n - 1] == '[' && bracket_free(
            body.take(body.len() - n - 1),
        ) {
            Some(body.len() - n - 1)
        } else {
            None
        }
    } else {
        None
    }
}

/// The key a segment looks up: the text before its index group, or the
/// whole segment when it has none.
pub open spec fn segment_key(seg: Seq<char>) -> Seq<char> {
    match bracket_start(seg) {
        Some(b) => seg.take(b),
        None => seg,
    }
}

/// The digits of a segment's index group.
pub open spec fn segment_digits(seg: Seq<char>) -> Seq<char>
    recommends
        bracket_start(seg) is Some,
{
    seg.subrange(bracket_start(seg)->0 + 1, seg.len() - 1)
}

/// The array index a segment carries, if it has an index group.
pub open spec fn segment_index(seg: Seq<char>) -> Option<nat> {
    match bracket_start(seg) {
        Some(b) => Some(digits_value(segment_digits(seg))),
        None => None,
    }
}

/// Splits `s` at each `.`, with `cur` the text of the segment already begun.
pub open spec fn split_from(s: Seq<char>, cur: Seq<char>) -> Seq<Seq<char>>
    decreases s.len(),
{
    if s.len() == 0 {
        seq![cur]
    } else if s[0] == '.' {
        seq![cur] + split_from(s.drop_first(), seq![])
    } else {
        split_from(s.drop_first(), cur.push(s[0]))
    }
}

/// The segments of a path, in order: the pieces between its dots.
pub open spec fn segments(path: Seq<char>) -> Seq<Seq<char>> {
    split_from(path, seq![])
}

/// Every index in the path fits in a `usize`.
pub open spec fn indices_fit(path: Seq<char>) -> bool {
    forall|i: int|
        0 <= i < segments(path).len() ==> (#[trigger] segment_index(segments(path)[i]) matches Some(
            n,
        ) ==> n <= usize::MAX)
}

pub(crate) proof fn lemma_digit_run_suffix(body: Seq<char>, j: int)
    requires
        0 <= j <= body.len(),
        forall|k: int| j <= k < body.len() ==> is_digit(#[trigger] body[k]),
    ensures
        digit_run(body) == (body.len() - j) + digit_run(body.take(j)),
    decreases body.len() - j,
{
    if j < body.len() {
        let shorter = body.drop_last();
        assert forall|k: int| j <= k < shorter.len() implies is_digit(#[trigger] shorter[k]) by {
            assert(shorter[k] == body[k]);
        }
        lemma_digit_run_suffix(shorter, j);
        assert(shorter.take(j) == body.take(j));
    } else {
        assert(body.take(j) == body);
    }
}

proof fn lemma_digit_run_all(body: Seq<char>, run: nat)
    requires
        run == digit_run(body),
    ensures
        run <= body.len(),
        forall|k: int| body.len() - run <= k < body.len() ==> is_digit(#[trigger] body[k]),
    decreases body.len(),
{
    if body.len() > 0 && is_digit(body.last()) {
        lemma_digit_run_all(body.drop_last(), digit_run(body.drop_last()));
        assert forall|k: int| body.len() - run <= k < body.len() implies is_digit(#[trigger] body[k]) by {
            if k < body.len() - 1 {
                assert(body[k] == body.drop_last()[k]);
            }
        }
    }
}

proof fn lemma_digits_prefix(ds: Seq<char>, k: int)
    requires
        0 <= k <= ds.len(),
    ensures
        digits_value(ds.take(k)) <= digits_value(ds),
    decreases ds.len() - k,
{
    if k < ds.len() {
        lemma_digits_prefix(ds.drop_last(), k);
        assert(ds.drop_last().take(k) == ds.take(k));
        assert(ds.drop_last() == ds.take(ds.len() - 1));
        assert(digits_value(ds.drop_last()) * 10 >= digits_value(ds.drop_last())) by (nonlinear_arith);
    } else {
        assert(ds.take(k) == ds);
    }
}

/// Finds where the digits of a segment's trailing `[digits]` group begin.
fn index_group(segment: &str) -> (r: Option<usize>)
    ensures
        match r {
            Some(j) => 1 <= j < segment@.len() && bracket_start(segment@) == Some(j - 1),
            None => bracket_start(segment@) is None,
        },
{
    let n = segment.unicode_len();
    if n == 0 || segment.get_char(n - 1) != ']' {
        return None;
    }
    let ghost body = segment@.drop_last();
    let mut j: usize = n - 1;
    while j > 0 && is_ascii_digit(segment.get_char(j - 1))
        invariant
            n == segment@.len(),
            body == segment@.drop_last(),
            0 <= j <= n - 1,
            forall|k: int| j <= k < n - 1 ==> is_digit(#[trigger] body[k]),
        decreases j,
    {
        j = j - 1;
    }
    proof {
        lemma_digit_run_suffix(body, j as int);
        if j > 0 {
            assert(body.take(j as int).last() == body[j - 1]);
        }
        assert(digit_run(body.take(j as int)) == 0);
    }
    if j == n - 1 || j == 0 || segment.get_char(j - 1) != '[' {
        return None;
    }
    let ghost key = body.take(j - 1);
    let mut i: usize = 0;
    while i < j - 1
        invariant
            n == segment@.len(),
            1 <= j <= n - 1,
            body == segment@.drop_last(),
            key == body.take(j - 1),
            digit_run(body) == n - 1 - j,
            0 <= i <= j - 1,
            forall|k: int| 0 <= k < i ==> #[trigger] key[k] != '[',
        decreases j - 1 - i,
    {
        if segment.get_char(i) == '[' {
            assert(key[i as int] == '[');
            return None;
        }
        i = i + 1;
    }
    Some(j)
}

/// The value of the digits of a segment's index group, when it fits in a
/// `usize`.
fn index_value(segment: &str, j: usize) -> (r: Option<usize>)
    requires
        1 <= j < segment@.len(),
        bracket_start(segment@) == Some(j - 1),
    ensures
        match r {
            Some(v) => segment_index(segment@) == Some(v as nat),
            None => digits_value(segment_digits(segment@)) > usize::MAX,
        },
{
    let n = segment.unicode_len();
    let ghost body = segment@.drop_last();
    let ghost ds = segment@.subrange(j as int, n - 1);
    assert(segment_digits(segment@) == ds);
    proof {
        let run = digit_run(body);
        lemma_digit_run_all(body, run);
        assert forall|i: int| 0 <= i < ds.len() implies is_digit(#[trigger] ds[i]) by {
            assert(ds[i] == body[j + i]);
        }
    }
    let mut value: usize = 0;
    let mut k: usize = j;
    while k < n - 1
        invariant
            n == segment@.len(),
            1 <= j <= k <= n - 1,
            ds == segment@.subrange(j as int, n - 1),
            segment_digits(segment@) == ds,
            bracket_start(segment@) == Some(j - 1),
            value == digits_value(ds.take(k - j)),
            forall|i: int| 0 <= i < ds.len() ==> is_digit(#[trigger] ds[i]),
        decreases n - 1 - k,
    {
        let c = segment.get_char(k);
        proof {
            assert(ds.take(k - j + 1).drop_last() == ds.take(k - j));
            assert(ds[k - j] == c);
            assert(is_digit(ds[k - j]));
            assert(ds.take(k - j + 1).last() == c);
        }
        let d: usize = (c as u32 - '0' as u32) as usize;
        assert(digits_value(ds.take(k - j + 1)) == value * 10 + d);
        if value > (usize::MAX - d) / 10 {
            proof {
                assert(value * 10 + d > usize::MAX) by (nonlinear_arith)
                    requires
                        value > (usize::MAX - d) / 10,
                        d <= 9,
                ;
                lemma_digits_prefix(ds, k - j + 1);
            }
            return None;
        }
        proof {
            assert(value * 10 + d <= usize::MAX) by (nonlinear_arith)
                requires
                    value <= (usize::MAX - d) / 10,
                    d <= 9,
            ;
        }
        value = value * 10 + d;
        k = k + 1;
    }
    assert(ds.take(k - j) == ds);
    Some(value)
}

/// Reads a segment's trailing `[digits]` group: the key before it and the
/// index it holds, or `None` when the segment does not end in one.
pub fn parse_array_index(segment: &str) -> (r: Option<(&str, usize)>)
    requires
        segment_index(segment@) matches Some(n) ==> n <= usize::MAX,
    ensures
        match r {
            Some((key, index)) => bracket_start(segment@) is Some && key@ == segment_key(segment@)
                && segment_index(segment@) == Some(index as nat),
            None => bracket_start(segment@) is None,
        },
{
    match index_group(segment) {
        None => None,
        Some(j) => match index_value(segment, j) {
            Some(index) => {
                let key = segment.substring_char(0, j - 1);
                Some((key, index))
            },
            None => None,
        },
    }
}

/// Whether every index in the path fits in a `usize`, which `fetch` asks
/// of its path.
pub fn path_indices_fit(path: &str) -> (r: bool)
    ensures
        r == indices_fit(path@),
{
    let segs = split_path(path);
    let mut i: usize = 0;
    while i < segs.len()
        invariant
            segs@.len() == segments(path@).len(),
            forall|k: int| 0 <= k < segs@.len() ==> (#[trigger] segs@[k])@ == segments(path@)[k],
            0 <= i <= segs@.len(),
            forall|k: int|
                0 <= k < i ==> (#[trigger] segment_index(segments(path@)[k]) matches Some(n) ==> n
                    <= usize::MAX),
        decreases segs@.len() - i,
    {
        let segment: &str = segs[i];
        assert(segment@ == segments(path@)[i as int]);
        if let Some(j) = index_group(segment) {
            if index_value(segment, j).is_none() {
                return false;
            }
        }
        i = i + 1;
    }
    true
}

/// Splits a path at each `.` into its segments, empty ones included.
pub fn split_path(path: &str) -> (r: Vec<&str>)
    ensures
        r@.len() == segments(path@).len(),
        forall|i: int| 0 <= i < r@.len() ==> (#[trigger] r@[i])@ == segments(path@)[i],
{
    let n = path.unicode_len();
    let mut r: Vec<&str> = Vec::new();
    let ghost mut done: Seq<Seq<char>> = seq![];
    let mut start: usize = 0;
    let mut i: usize = 0;
    assert(path@.skip(0) == path@);
    assert(path@.subrange(0, 0) == Seq::<char>::empty());
    assert(done + segments(path@) == segments(path@));
    while i < n
        invariant
            n == path@.len(),
            0 <= start <= i <= n,
            r@.len() == done.len(),
            forall|k: int| 0 <= k < r@.len() ==> (#[trigger] r@[k])@ == done[k],
            segments(path@) == done + split_from(path@.skip(i as int), path@.subrange(start as int, i as int)),
        decreases n - i,
    {
        let c = path.get_char(i);
        let ghost cur = path@.subrange(start as int, i as int);
        assert(path@.skip(i as int).drop_first() == path@.skip(i + 1));
        if c == '.' {
            let piece = path.substring_char(start, i);
            r.push(piece);
            proof {
                assert(path@.subrange(i + 1, i + 1) == Seq::<char>::empty());
                assert(done.push(cur) + split_from(path@.skip(i + 1), seq![]) == done + (seq![cur]
                    + split_from(path@.skip(i + 1), seq![])));
                done = done.push(cur);
            }
            start = i + 1;
        } else {
            assert(cur.push(c) == path@.subrange(start as int, i + 1));
        }
        i = i + 1;
    }
    let piece = path.substring_char(start, n);
    r.push(piece);
    proof {
        assert(path@.skip(n as int) == Seq::<char>::empty());
        done = done.push(path@.subrange(start as int, n as int));
    }
    r
}

fn is_ascii_digit(c: char) -> (r: bool)
    ensures
        r == is_digit(c),
{
    '0' <= c && c <= '9'
}

} // verus!
