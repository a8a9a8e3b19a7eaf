//! The filter rules of a task, read from their JSON text:
//! `{ "exclude_globs": [..], "max_size_mb": n }`.

use vstd::prelude::*;

use crate::text::string_views;

verus! {

/// What serde_json gives for the field `key` of the JSON text `text`: `None` when
/// the text is no JSON value or holds no array under `key`; otherwise, for each
/// item of that array, its string when it is a string and `None` when it is not.
pub uninterp spec fn json_field_strings(text: Seq<char>, key: Seq<char>) -> Option<Seq<Option<Seq<char>>>>;

/// What serde_json gives for the field `key` of the JSON text `text` read as an
/// unsigned 64-bit integer: `None` when the text is no JSON value or the field is
/// missing or not such an integer.
pub uninterp spec fn json_field_u64(text: Seq<char>, key: Seq<char>) -> Option<u64>;

/// The items of an array field, each taken by its view.
pub open spec fn item_views(items: Option<Vec<Option<String>>>) -> Option<Seq<Option<Seq<char>>>> {
    match items {
        None => None,
        Some(v) => Some(
            v@.map_values(
                |o: Option<String>|
                    match o {
                        Some(s) => Some(s@),
                        None => None,
                    },
            ),
        ),
    }
}

/// Parses `text` with `serde_json::from_str` into a `serde_json::Value` (a text
/// that does not parse counts as `Value::Null`), indexes it by `key` and, where
/// that field is an array, hands out each item's string (`Value::as_str`).
/// Trusted: the result is the named parse of these two arguments alone.
#[verifier::external_body]
fn json_array_field(text: &str, key: &str) -> (r: Option<Vec<Option<String>>>)
    ensures
        item_views(r) == json_field_strings(text@, key@),
{
    let value: serde_json::Value = serde_json::from_str(text).unwrap_or_default();
    value[key].as_array().map(|items| items.iter().map(|item| item.as_str().map(String::from)).collect())
}

/// Parses `text` with `serde_json::from_str` into a `serde_json::Value` (a text
/// that does not parse counts as `Value::Null`), indexes it by `key` and reads
/// that field with `Value::as_u64`. Trusted: the result is the named parse of
/// these two arguments alone.
#[verifier::external_body]
fn json_u64_field(text: &str, key: &str) -> (r: Option<u64>)
    ensures
        r == json_field_u64(text@, key@),
{
    let value: serde_json::Value = serde_json::from_str(text).unwrap_or_default();
    value[key].as_u64()
}

/// The strings among the items, in order.
pub open spec fn strings_among(items: Seq<Option<Seq<char>>>) -> Seq<Seq<char>>
    decreases items.len(),
{
    if items.len() == 0 {
        Seq::empty()
    } else {
        let prev = strings_among(items.drop_last());
        match items.last() {
            Some(s) => prev.push(s),
            None => prev,
        }
    }
}

/// The exclusion patterns of an array field: its string items in order; none
/// when there is no such array.
pub open spec fn pattern_list(items: Option<Seq<Option<Seq<char>>>>) -> Seq<Seq<char>> {
    match items {
        None => Seq::empty(),
        Some(s) => strings_among(s),
    }
}

/// Keeps the string items of an array field, in order; an absent array gives none.
pub fn exclude_patterns(items: Option<Vec<Option<String>>>) -> (v: Vec<String>)
    ensures
        string_views(v@) == pattern_list(item_views(items)),
{
    let mut v: Vec<String> = Vec::new();
    match items {
        None => {
            assert(string_views(v@) =~= Seq::<Seq<char>>::empty());
        },
        Some(list) => {
            let ghost all = item_views(Some(list)).unwrap();
            let mut i: usize = 0;
            while i < list.len()
                invariant
                    i <= list@.len(),
                    all == item_views(Some(list)).unwrap(),
                    string_views(v@) == strings_among(all.take(i as int)),
                decreases list@.len() - i,
            {
                assert(all.take(i + 1).drop_last() =~= all.take(i as int));
                assert(all[i as int] == (match list@[i as int] { Some(s) => Some(s@), None => None::<Seq<char>> }));
                match &list[i] {
                    Some(s) => {
                        v.push(s.clone());
                        assert(string_views(v@) =~= strings_among(all.take(i as int)).push(s@));
                    },
                    None => {},
                }
                i = i + 1;
            }
            assert(all.take(list@.len() as int) =~= all);
        },
    }
    v
}

/// The filter rules of a task.
pub struct FilterRules {
    /// Glob patterns of relative paths that are not mirrored.
    pub exclude_globs: Vec<String>,
    /// Files larger than this many MiB are not mirrored.
    pub max_size_mb: Option<u64>,
}

/// Reads a task's filter rules: the string items of `exclude_globs` and the
/// integer `max_size_mb`. A text that does not parse, or lacks a field, gives no
/// patterns and no size limit.
pub fn parse_filter_rules(text: &str) -> (r: FilterRules)
    ensures
        string_views(r.exclude_globs@) == pattern_list(json_field_strings(text@, "exclude_globs"@)),
        r.max_size_mb == json_field_u64(text@, "max_size_mb"@),
{
    let items = json_array_field(text, "exclude_globs");
    let exclude_globs = exclude_patterns(items);
    let max_size_mb = json_u64_field(text, "max_size_mb");
    FilterRules { exclude_globs, max_size_mb }
}

} // verus!
