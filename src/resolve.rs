//! Resolution of a path against a document.
use vstd::prelude::*;

use crate::error::{failure_well_formed, Failure, PajamasError};
use crate::path::{
    indices_fit, parse_array_index, segment_index, segment_key, segments,
    split_path,
};
use crate::value::{member, JsonValue};

verus! {

/// Applies one segment to the current node.
pub open spec fn step(seg: Seq<char>, node: JsonValue) -> Result<JsonValue, Failure> {
    let key = segment_key(seg);
    match member(node, key) {
        None => Err(Failure::KeyNotFound(key, node)),
        Some(found) => match segment_index(seg) {
            None => Ok(found),
            Some(i) => match found {
                JsonValue::Array(items) => if i < items@.len() {
                    Ok(items@[i as int])
                } else {
                    Err(Failure::InvalidArrayIndex(i, found))
                },
                _ => Err(Failure::InvalidIndexOperation(found)),
            },
        },
    }
}

/// Applies the segments left to right, stopping at the first failure.
pub open spec fn walk(segs: Seq<Seq<char>>, node: JsonValue) -> Result<JsonValue, Failure>
    decreases segs.len(),
{
    if segs.len() == 0 {
        Ok(node)
    } else {
        match step(segs[0], node) {
            Ok(next) => walk(segs.drop_first(), next),
            Err(e) => Err(e),
        }
    }
}

/// Every failure of a walk names an array where it reports a bad index.
pub proof fn lemma_walk_failure_well_formed(segs: Seq<Seq<char>>, node: JsonValue)
    ensures
        walk(segs, node) matches Err(f) ==> failure_well_formed(f),
    decreases segs.len(),
{
    if segs.len() > 0 {
        if let Ok(next) = step(segs[0], node) {
            lemma_walk_failure_well_formed(segs.drop_first(), next);
        }
    }
}

/// What resolving `path` against `document` gives: the document itself when
/// there is no path.
pub open spec fn resolve(path: Option<Seq<char>>, document: JsonValue) -> Result<JsonValue, Failure> {
    match path {
        None => Ok(document),
        Some(p) => walk(segments(p), document),
    }
}

/// The characters of an optional path.
pub open spec fn path_view(path: Option<&str>) -> Option<Seq<char>> {
    match path {
        Some(p) => Some(p@),
        None => None,
    }
}

/// The value an indexed segment addresses: the element `index` of the array
/// stored under `key` in `document`.
pub fn get_array_index<'a>(key: &str, index: usize, document: &'a JsonValue) -> (r: Result<
    &'a JsonValue,
    PajamasError<'a>,
>)
    ensures
        match r {
            Ok(v) => match member(*document, key@) {
                Some(JsonValue::Array(items)) => index < items@.len() && *v == items@[index as int],
                _ => false,
            },
            Err(e) => match member(*document, key@) {
                None => e@ == Failure::KeyNotFound(key@, *document),
                Some(JsonValue::Array(items)) => index >= items@.len() && e@
                    == Failure::InvalidArrayIndex(index as nat, JsonValue::Array(items)),
                Some(found) => e@ == Failure::InvalidIndexOperation(found),
            },
        },
{
    match document.get(key) {
        None => Err(PajamasError::KeyNotFound(key.to_owned(), document)),
        Some(value) => match value {
            JsonValue::Array(items) => {
                if index < items.len() {
                    Ok(&items[index])
                } else {
                    Err(PajamasError::InvalidArrayIndex(index, value))
                }
            },
            _ => Err(PajamasError::InvalidIndexOperation(value)),
        },
    }
}

/// Resolves a dotted path such as `foo.bar[2].baz` against `document`,
/// returning the addressed value or the first failure met on the way.
pub fn fetch<'a>(path: Option<&str>, document: &'a JsonValue) -> (r: Result<
    &'a JsonValue,
    PajamasError<'a>,
>)
    requires
        path matches Some(p) ==> indices_fit(p@),
    ensures
        match r {
            Ok(v) => resolve(path_view(path), *document) == Ok::<JsonValue, Failure>(*v),
            Err(e) => resolve(path_view(path), *document) == Err::<JsonValue, Failure>(e@)
                && failure_well_formed(e@),
        },
{
    let mut current: &'a JsonValue = document;
    if let Some(text) = path {
        let segs = split_path(text);
        let ghost all = segments(text@);
        let mut i: usize = 0;
        assert(all.skip(0) == all);
        proof {
            lemma_walk_failure_well_formed(all, *document);
        }
        while i < segs.len()
            invariant
                path == Some(text),
                all == segments(text@),
                indices_fit(text@),
                segs@.len() == all.len(),
                forall|k: int| 0 <= k < segs@.len() ==> (#[trigger] segs@[k])@ == all[k],
                0 <= i <= segs@.len(),
                walk(all, *document) == walk(all.skip(i as int), *current),
                walk(all, *document) matches Err(f) ==> failure_well_formed(f),
            decreases segs@.len() - i,
        {
            let segment: &str = segs[i];
            let ghost rest = all.skip(i as int);
            assert(rest[0] == segment@);
            assert(rest.drop_first() == all.skip(i + 1));
            assert(segment_index(all[i as int]) matches Some(n) ==> n <= usize::MAX);
            match parse_array_index(segment) {
                Some((key, index)) => {
                    match get_array_index(key, index, current) {
                        Ok(v) => {
                            current = v;
                        },
                        Err(e) => {
                            return Err(e);
                        },
                    }
                },
                None => {
                    match current.get(segment) {
                        Some(v) => {
                            current = v;
                        },
                        None => {
                            return Err(PajamasError::KeyNotFound(segment.to_owned(), current));
                        },
                    }
                },
            }
            i = i + 1;
        }
        assert(all.skip(i as int).len() == 0);
    }
    Ok(current)
}

} // verus!
