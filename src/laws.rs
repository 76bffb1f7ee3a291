//! Properties of path resolution, proved over the resolution model.
use vstd::prelude::*;

use crate::error::Failure;
use crate::path::{
    bracket_free, bracket_start, digit_run, digits_value, is_digit, lemma_digit_run_suffix, segment_digits,
    segment_index, segment_key, segments, split_from,
};
use crate::resolve::{resolve, step, walk};
use crate::value::{member, JsonValue};

verus! {

/// Text without a dot, which the path grammar keeps in one segment.
pub open spec fn dot_free(s: Seq<char>) -> bool {
    forall|i: int| 0 <= i < s.len() ==> #[trigger] s[i] != '.'
}

/// A key that does not end in an index group.
pub open spec fn plain_key(k: Seq<char>) -> bool {
    dot_free(k) && bracket_start(k) is None
}

/// The indexed segment `key[digits]`.
pub open spec fn indexed_segment(key: Seq<char>, ds: Seq<char>) -> Seq<char> {
    key + seq!['['] + ds + seq![']']
}

/// Non-empty decimal digits.
pub open spec fn digit_string(ds: Seq<char>) -> bool {
    ds.len() > 0 && forall|i: int| 0 <= i < ds.len() ==> is_digit(#[trigger] ds[i])
}

proof fn lemma_split_dot_free(s: Seq<char>, cur: Seq<char>)
    requires
        dot_free(s),
    ensures
        split_from(s, cur) == seq![cur + s],
    decreases s.len(),
{
    if s.len() == 0 {
        assert(cur + s == cur);
    } else {
        assert(s[0] != '.');
        let rest = s.drop_first();
        assert forall|i: int| 0 <= i < rest.len() implies #[trigger] rest[i] != '.' by {
            assert(rest[i] == s[i + 1]);
        }
        lemma_split_dot_free(rest, cur.push(s[0]));
        assert(cur.push(s[0]) + rest == cur + s);
    }
}

proof fn lemma_split_concat(p: Seq<char>, q: Seq<char>, cur: Seq<char>)
    ensures
        split_from(p + seq!['.'] + q, cur) == split_from(p, cur) + split_from(q, seq![]),
    decreases p.len(),
{
    let whole = p + seq!['.'] + q;
    if p.len() == 0 {
        assert(whole.drop_first() == q);
    } else {
        assert(whole.drop_first() == p.drop_first() + seq!['.'] + q);
        lemma_split_concat(p.drop_first(), q, seq![]);
        lemma_split_concat(p.drop_first(), q, cur.push(p[0]));
        if p[0] == '.' {
            assert(seq![cur] + (split_from(p.drop_first(), seq![]) + split_from(q, seq![])) == (
            seq![cur] + split_from(p.drop_first(), seq![])) + split_from(q, seq![]));
        }
    }
}

proof fn lemma_walk_concat(a: Seq<Seq<char>>, b: Seq<Seq<char>>, node: JsonValue)
    ensures
        walk(a + b, node) == match walk(a, node) {
            Ok(mid) => walk(b, mid),
            Err(e) => Err(e),
        },
    decreases a.len(),
{
    if a.len() == 0 {
        assert(a + b == b);
    } else {
        assert((a + b)[0] == a[0]);
        assert((a + b).drop_first() == a.drop_first() + b);
        if let Ok(next) = step(a[0], node) {
            lemma_walk_concat(a.drop_first(), b, next);
        }
    }
}

proof fn lemma_one_segment(seg: Seq<char>, node: JsonValue)
    requires
        dot_free(seg),
    ensures
        resolve(Some(seg), node) == step(seg, node),
{
    lemma_split_dot_free(seg, seq![]);
    assert(seq![] + seg == seg);
    let segs = segments(seg);
    assert(segs[0] == seg);
    assert(segs.drop_first().len() == 0);
    if let Ok(next) = step(seg, node) {
        assert(walk(segs.drop_first(), next) == Ok::<JsonValue, Failure>(next));
    }
}

proof fn lemma_indexed_segment(key: Seq<char>, ds: Seq<char>)
    requires
        dot_free(key),
        bracket_free(key),
        digit_string(ds),
    ensures
        dot_free(indexed_segment(key, ds)),
        bracket_start(indexed_segment(key, ds)) == Some(key.len() as int),
        segment_key(indexed_segment(key, ds)) == key,
        segment_index(indexed_segment(key, ds)) == Some(digits_value(ds)),
{
    let seg = indexed_segment(key, ds);
    let body = seg.drop_last();
    let j: int = key.len() as int + 1;
    assert(body == key + seq!['['] + ds);
    assert forall|i: int| 0 <= i < seg.len() implies #[trigger] seg[i] != '.' by {
        if i < key.len() {
            assert(seg[i] == key[i]);
        } else if j <= i < j + ds.len() {
            assert(seg[i] == ds[i - j]);
            assert(is_digit(ds[i - j]));
        }
    }
    assert forall|k: int| j <= k < body.len() implies is_digit(#[trigger] body[k]) by {
        assert(body[k] == ds[k - j]);
    }
    lemma_digit_run_suffix(body, j);
    assert(body.take(j).last() == '[');
    assert(digit_run(body.take(j)) == 0);
    assert(body.take(key.len() as int) == key);
    assert(seg.last() == ']');
    assert(bracket_start(seg) == Some(key.len() as int));
    assert(seg.take(key.len() as int) == key);
    assert(segment_digits(seg) == ds);
}

/// Without a path, resolution returns the document unchanged.
pub proof fn lemma_absent_path_is_identity(document: JsonValue)
    ensures
        resolve(None, document) == Ok::<JsonValue, Failure>(document),
{
}

/// A key present in the document, used alone as the path, resolves to the
/// value stored under it.
pub proof fn lemma_key_resolves_to_member(document: JsonValue, key: Seq<char>)
    requires
        plain_key(key),
        member(document, key) is Some,
    ensures
        resolve(Some(key), document) == Ok::<JsonValue, Failure>(member(document, key)->0),
{
    lemma_one_segment(key, document);
}

/// Resolving `p.q` is resolving `p`, then resolving `q` against its result;
/// a failure on `p` is the failure of the whole.
pub proof fn lemma_dot_composes(p: Seq<char>, q: Seq<char>, document: JsonValue)
    ensures
        resolve(Some(p + seq!['.'] + q), document) == match resolve(Some(p), document) {
            Ok(mid) => resolve(Some(q), mid),
            Err(e) => Err(e),
        },
{
    lemma_split_concat(p, q, seq![]);
    lemma_walk_concat(segments(p), segments(q), document);
}

/// For a key without `.` or `[`, an index within the bounds of the array
/// stored under it addresses that element.
pub proof fn lemma_index_in_bounds(
    document: JsonValue,
    key: Seq<char>,
    ds: Seq<char>,
    items: Vec<JsonValue>,
)
    requires
        dot_free(key),
        bracket_free(key),
        digit_string(ds),
        member(document, key) == Some(JsonValue::Array(items)),
        digits_value(ds) < items@.len(),
    ensures
        resolve(Some(indexed_segment(key, ds)), document) == Ok::<JsonValue, Failure>(
            items@[digits_value(ds) as int],
        ),
{
    lemma_indexed_segment(key, ds);
    lemma_one_segment(indexed_segment(key, ds), document);
}

/// For a key without `.` or `[`, an index past the end of the array stored
/// under it fails with that index and that array.
pub proof fn lemma_index_out_of_bounds(
    document: JsonValue,
    key: Seq<char>,
    ds: Seq<char>,
    items: Vec<JsonValue>,
)
    requires
        dot_free(key),
        bracket_free(key),
        digit_string(ds),
        member(document, key) == Some(JsonValue::Array(items)),
        digits_value(ds) >= items@.len(),
    ensures
        resolve(Some(indexed_segment(key, ds)), document) == Err::<JsonValue, Failure>(
            Failure::InvalidArrayIndex(digits_value(ds), JsonValue::Array(items)),
        ),
{
    lemma_indexed_segment(key, ds);
    lemma_one_segment(indexed_segment(key, ds), document);
}

/// For a key without `.` or `[`, indexing the value stored under it when
/// that value is not an array fails with that value.
pub proof fn lemma_index_into_non_array(
    document: JsonValue,
    key: Seq<char>,
    ds: Seq<char>,
    found: JsonValue,
)
    requires
        dot_free(key),
        bracket_free(key),
        digit_string(ds),
        member(document, key) == Some(found),
        !(found is Array),
    ensures
        resolve(Some(indexed_segment(key, ds)), document) == Err::<JsonValue, Failure>(
            Failure::InvalidIndexOperation(found),
        ),
{
    lemma_indexed_segment(key, ds);
    lemma_one_segment(indexed_segment(key, ds), document);
}

/// A key absent from the document fails with that key and the document.
pub proof fn lemma_missing_key(document: JsonValue, key: Seq<char>)
    requires
        plain_key(key),
        member(document, key) is None,
    ensures
        resolve(Some(key), document) == Err::<JsonValue, Failure>(
            Failure::KeyNotFound(key, document),
        ),
{
    lemma_one_segment(key, document);
}

} // verus!
