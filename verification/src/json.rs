//! JSON values of `serde_json`, and what this crate reads and builds of them.
//!
//! A value is opaque; [`json_tree`] names what it holds, and every function of `serde_json`
//! that the crate calls is stated over that name.
use vstd::prelude::*;

use crate::binary64::Binary64;
use crate::numeral::{decimal, decimal_has_no_sign, parse, parse_of_decimal};
use crate::order::{text_lt, text_order};
use crate::sorting::{arranged_is_sorted, sort, views, weak_order, Ranked};
use crate::text::{lemma_first_at_is, split_at, strings};

verus! {

/// A `serde_json::Value`.
#[verifier::external_type_specification]
#[verifier::external_body]
pub struct ExValue(serde_json::Value);

/// A `serde_json::Map`, the entries of a JSON object.
#[verifier::external_type_specification]
#[verifier::external_body]
#[verifier::reject_recursive_types(K)]
#[verifier::reject_recursive_types(V)]
pub struct ExValueMap<K, V>(serde_json::Map<K, V>);

/// What a JSON value holds. Numbers are kept apart as `serde_json` keeps them
/// apart: whole numbers from zero up, negative whole numbers, and the rest.
#[verifier::ext_equal]
pub enum JsonTree {
    Null,
    Bool(bool),
    UInt(u64),
    NegInt(i64),
    Float(Binary64),
    Str(Seq<char>),
    Arr(Seq<JsonTree>),
    Obj(Map<Seq<char>, JsonTree>),
}

/// What a value holds.
pub uninterp spec fn json_tree(v: serde_json::Value) -> JsonTree;

/// What the entries of an object hold.
pub uninterp spec fn json_entries(m: serde_json::Map<String, serde_json::Value>) -> Map<Seq<char>, JsonTree>;

/// The compact text of a value: what `serde_json::to_string` writes. It is one
/// text for one content, in whatever order the entries of an object were put
/// in: `serde_json` keeps them sorted by key (its feature `preserve_order`,
/// under which it would not, is off).
pub uninterp spec fn json_text(t: JsonTree) -> Seq<char>;

/// The indented text of a value: what `serde_json::to_string_pretty` writes,
/// with the entries of an object sorted by key as well.
pub uninterp spec fn json_pretty(t: JsonTree) -> Seq<char>;

/// A number as binary64: what `Value::as_f64` returns.
pub uninterp spec fn json_real(t: JsonTree) -> Option<Binary64>;

/// The entries of an empty object.
pub open spec fn no_members() -> Map<Seq<char>, JsonTree> {
    Map::empty()
}

/// What each value of a list holds.
pub open spec fn json_trees(vs: Seq<serde_json::Value>) -> Seq<JsonTree> {
    vs.map_values(|v: serde_json::Value| json_tree(v))
}

/// What an object holds under `key`; nothing where the value is no object.
pub open spec fn member(t: JsonTree, key: Seq<char>) -> Option<JsonTree> {
    match t {
        JsonTree::Obj(m) => if m.contains_key(key) {
            Some(m[key])
        } else {
            None
        },
        _ => None,
    }
}

/// The place in an array that a token of a JSON Pointer names: a number
/// without a sign and without leading zeros.
pub open spec fn token_index(token: Seq<char>) -> Option<usize> {
    if token.len() > 0 && (token[0] == '+' || (token[0] == '0' && token.len() != 1)) {
        None
    } else {
        parse(token)
    }
}

/// One step of a JSON Pointer: into an object by key, into an array by place.
pub open spec fn pointer_step(t: JsonTree, token: Seq<char>) -> Option<JsonTree> {
    match t {
        JsonTree::Obj(_) => member(t, token),
        JsonTree::Arr(items) => match token_index(token) {
            Some(i) => if i < items.len() {
                Some(items[i as int])
            } else {
                None
            },
            None => None,
        },
        _ => None,
    }
}

pub open spec fn walked(t: JsonTree, tokens: Seq<Seq<char>>) -> Option<JsonTree>
    decreases tokens.len(),
{
    if tokens.len() == 0 {
        Some(t)
    } else {
        match pointer_step(t, tokens[0]) {
            Some(x) => walked(x, tokens.drop_first()),
            None => None,
        }
    }
}

/// What a JSON Pointer without escapes leads to.
pub open spec fn pointed(t: JsonTree, path: Seq<char>) -> Option<JsonTree> {
    if path.len() == 0 {
        Some(t)
    } else if path[0] != '/' {
        None
    } else {
        walked(t, split_at(path.skip(1), '/'))
    }
}

// ---------------------------------------------------------------------------
// Building
// ---------------------------------------------------------------------------

/// `Value::Null`.
#[verifier::external_body]
pub(crate) fn null_value() -> (r: serde_json::Value)
    ensures
        json_tree(r) == JsonTree::Null,
{
    serde_json::Value::Null
}

/// `Value::Bool` holds the given truth value.
#[verifier::external_body]
pub(crate) fn bool_value(b: bool) -> (r: serde_json::Value)
    ensures
        json_tree(r) == JsonTree::Bool(b),
{
    serde_json::Value::Bool(b)
}

/// `Value::from(u64)` holds the given whole number.
#[verifier::external_body]
pub(crate) fn uint_value(n: u64) -> (r: serde_json::Value)
    ensures
        json_tree(r) == JsonTree::UInt(n),
{
    serde_json::Value::from(n)
}

/// `Value::String` holds the given text.
#[verifier::external_body]
pub(crate) fn string_value(s: &str) -> (r: serde_json::Value)
    ensures
        json_tree(r) == JsonTree::Str(s@),
{
    serde_json::Value::String(s.to_string())
}

/// `Value::Array` holds the given values in their order.
#[verifier::external_body]
pub(crate) fn array_value(items: Vec<serde_json::Value>) -> (r: serde_json::Value)
    ensures
        json_tree(r) == JsonTree::Arr(json_trees(items@)),
{
    serde_json::Value::Array(items)
}

/// `Value::Object` holds the given entries.
#[verifier::external_body]
pub(crate) fn object_value(entries: serde_json::Map<String, serde_json::Value>) -> (r: serde_json::Value)
    ensures
        json_tree(r) == JsonTree::Obj(json_entries(entries)),
{
    serde_json::Value::Object(entries)
}

/// `Value::clone` copies what the value holds.
#[verifier::external_body]
pub(crate) fn copy_value(v: &serde_json::Value) -> (r: serde_json::Value)
    ensures
        json_tree(r) == json_tree(*v),
{
    v.clone()
}

/// `Map::new` holds nothing.
#[verifier::external_body]
pub(crate) fn no_entries() -> (r: serde_json::Map<String, serde_json::Value>)
    ensures
        json_entries(r) == no_members(),
{
    serde_json::Map::new()
}

/// `Map::insert` puts a value under a key, in place of what stood there.
#[verifier::external_body]
pub(crate) fn put_entry(m: &mut serde_json::Map<String, serde_json::Value>, key: String, value: serde_json::Value)
    ensures
        json_entries(*final(m)) == json_entries(*old(m)).insert(key@, json_tree(value)),
{
    m.insert(key, value);
}

/// `Map::clone` copies the entries.
#[verifier::external_body]
pub(crate) fn copy_entries(m: &serde_json::Map<String, serde_json::Value>) -> (r: serde_json::Map<String, serde_json::Value>)
    ensures
        json_entries(r) == json_entries(*m),
{
    m.clone()
}

// ---------------------------------------------------------------------------
// Reading
// ---------------------------------------------------------------------------

/// `Map::get` finds the value under a key, if there is one.
#[verifier::external_body]
pub(crate) fn entry_at<'a>(m: &'a serde_json::Map<String, serde_json::Value>, key: &str) -> (r: Option<&'a serde_json::Value>)
    ensures
        match r {
            Some(v) => json_entries(*m).contains_pair(key@, json_tree(*v)),
            None => !json_entries(*m).contains_key(key@),
        },
{
    m.get(key)
}

/// `Map::keys` lists every key once. The order is left open.
#[verifier::external_body]
pub(crate) fn entry_keys(m: &serde_json::Map<String, serde_json::Value>) -> (r: Vec<String>)
    ensures
        strings(r@).no_duplicates(),
        strings(r@).to_set() == json_entries(*m).dom(),
{
    m.keys().cloned().collect()
}

/// `Value::as_object` gives the entries of an object, and nothing else.
#[verifier::external_body]
pub(crate) fn as_entries(v: &serde_json::Value) -> (r: Option<&serde_json::Map<String, serde_json::Value>>)
    ensures
        match r {
            Some(m) => json_tree(*v) == JsonTree::Obj(json_entries(*m)),
            None => !(json_tree(*v) is Obj),
        },
{
    v.as_object()
}

/// `Value::as_array` gives the items of an array, and nothing else.
#[verifier::external_body]
pub(crate) fn as_items(v: &serde_json::Value) -> (r: Option<&Vec<serde_json::Value>>)
    ensures
        match r {
            Some(items) => json_tree(*v) == JsonTree::Arr(json_trees(items@)),
            None => !(json_tree(*v) is Arr),
        },
{
    v.as_array()
}

/// `Value::as_str` gives the text of a string, and nothing else.
#[verifier::external_body]
pub(crate) fn as_text(v: &serde_json::Value) -> (r: Option<&str>)
    ensures
        match r {
            Some(s) => json_tree(*v) == JsonTree::Str(s@),
            None => !(json_tree(*v) is Str),
        },
{
    v.as_str()
}

/// `Value::as_bool` gives the truth value of a boolean, and nothing else.
#[verifier::external_body]
pub(crate) fn as_truth(v: &serde_json::Value) -> (r: Option<bool>)
    ensures
        match r {
            Some(b) => json_tree(*v) == JsonTree::Bool(b),
            None => !(json_tree(*v) is Bool),
        },
{
    v.as_bool()
}

/// `Value::as_u64` gives a whole number from zero up, and nothing else.
#[verifier::external_body]
pub(crate) fn as_uint(v: &serde_json::Value) -> (r: Option<u64>)
    ensures
        match r {
            Some(n) => json_tree(*v) == JsonTree::UInt(n),
            None => !(json_tree(*v) is UInt),
        },
{
    v.as_u64()
}

/// `Value::as_f64` gives every number as binary64, a whole number by
/// conversion, and nothing for anything else.
#[verifier::external_body]
pub(crate) fn as_real(v: &serde_json::Value) -> (r: Option<Binary64>)
    ensures
        r == json_real(json_tree(*v)),
        r is Some == (json_tree(*v) is UInt || json_tree(*v) is NegInt || json_tree(*v) is Float),
        json_tree(*v) matches JsonTree::Float(x) ==> r == Some(x),
{
    v.as_f64().map(|x| Binary64 { bits: x.to_bits() })
}

/// `Value::pointer` follows a JSON Pointer. What is said of it holds where the
/// path has no escapes.
#[verifier::external_body]
pub(crate) fn pointer<'a>(v: &'a serde_json::Value, path: &str) -> (r: Option<&'a serde_json::Value>)
    requires
        !path@.contains('~'),
    ensures
        match r {
            Some(x) => pointed(json_tree(*v), path@) == Some(json_tree(*x)),
            None => pointed(json_tree(*v), path@) is None,
        },
{
    v.pointer(path)
}

/// `serde_json::to_string` on a value; it fails on no value.
#[verifier::external_body]
pub(crate) fn value_text(v: &serde_json::Value) -> (r: String)
    ensures
        r@ == json_text(json_tree(*v)),
{
    serde_json::to_string(v).expect("a value is always serialisable")
}

/// `serde_json::to_string_pretty` on a value; it fails on no value.
#[verifier::external_body]
pub(crate) fn value_pretty(v: &serde_json::Value) -> (r: String)
    ensures
        r@ == json_pretty(json_tree(*v)),
{
    serde_json::to_string_pretty(v).expect("a value is always serialisable")
}

/// The value under `key` in an object.
pub fn get_member<'a>(v: &'a serde_json::Value, key: &str) -> (r: Option<&'a serde_json::Value>)
    ensures
        match r {
            Some(x) => member(json_tree(*v), key@) == Some(json_tree(*x)),
            None => member(json_tree(*v), key@) is None,
        },
{
    match as_entries(v) {
        Some(m) => entry_at(m, key),
        None => None,
    }
}

/// Keys stand in order and none stands twice.
pub open spec fn rising_texts(s: Seq<Seq<char>>) -> bool {
    forall|i: int, j: int| 0 <= i < j < s.len() ==> text_lt()(#[trigger] s[i], #[trigger] s[j])
}

/// The keys of an object in order.
pub fn sorted_keys(m: &serde_json::Map<String, serde_json::Value>) -> (r: Vec<String>)
    ensures
        rising_texts(strings(r@)),
        strings(r@).to_set() == json_entries(*m).dom(),
{
    let mut keys = entry_keys(m);
    let ghost ks = strings(keys@);
    assert(views(keys@) =~= ks);
    sort(&mut keys);
    proof {
        broadcast use vstd::seq_lib::group_to_multiset_ensures;

        text_order();
        let lt = text_lt();
        assert(weak_order(lt)) by {
            assert forall|a: Seq<char>, b: Seq<char>, c: Seq<char>| !#[trigger] lt(a, b) && !#[trigger] lt(b, c) implies !lt(a, c) by {
                assert(a == b || lt(a, b) || lt(b, a));
                assert(b == c || lt(b, c) || lt(c, b));
            }
        }
        arranged_is_sorted(ks, lt);
        let s = strings(keys@);
        assert(views(keys@) =~= s);
        assert(s.no_duplicates()) by {
            ks.lemma_multiset_has_no_duplicates();
            s.lemma_multiset_has_no_duplicates_conv();
        }
        assert forall|i: int, j: int| 0 <= i < j < s.len() implies lt(#[trigger] s[i], #[trigger] s[j]) by {
            assert(!lt(s[j], s[i]));
            assert(s[i] == s[j] || lt(s[i], s[j]) || lt(s[j], s[i]));
        }
        assert forall|k: Seq<char>| s.to_set().contains(k) == ks.to_set().contains(k) by {
            assert(s.to_multiset().count(k) == ks.to_multiset().count(k));
            assert(s.contains(k) == (s.to_multiset().count(k) > 0));
            assert(ks.contains(k) == (ks.to_multiset().count(k) > 0));
        }
        assert(s.to_set() =~= ks.to_set());
    }
    keys
}

/// A JSON Pointer goes token by token: into an object by key, into an array by
/// place, and nowhere else.
pub proof fn pointer_goes_token_by_token(t: JsonTree, token: Seq<char>, rest: Seq<char>)
    requires
        !token.contains('/'),
        rest.len() == 0 || rest[0] == '/',
    ensures
        pointed(t, seq!['/'] + token + rest) == (match pointer_step(t, token) {
            Some(x) => pointed(x, rest),
            None => None,
        }),
        pointed(t, seq![]) == Some(t),
{
    let path = seq!['/'] + token + rest;
    let s = path.skip(1);
    let n = token.len() as int;
    assert(s =~= token + rest);
    assert forall|i: int| 0 <= i < n implies #[trigger] s[i] != '/' by {
        assert(token.contains(token[i]));
    }
    lemma_first_at_is(s, '/', n);
    assert(s.take(n) =~= token);
    if rest.len() > 0 {
        assert(s.skip(n + 1) =~= rest.skip(1));
        let more = split_at(rest.skip(1), '/');
        assert(split_at(s, '/') == seq![token] + more);
        assert((seq![token] + more).drop_first() =~= more);
    } else {
        assert(s =~= token);
        assert(split_at(s, '/') =~= seq![token]);
        assert(seq![token].drop_first() =~= seq![]);
        if let Some(x) = pointer_step(t, token) {
            assert(walked(x, seq![token].drop_first()) == Some(x));
        }
    }
}

/// A step leads to what an object holds under the token, and to the item of an
/// array at the place that the token is the numeral of.
pub proof fn pointer_steps_by_key_and_place(t: JsonTree, token: Seq<char>, i: usize)
    ensures
        match t {
            JsonTree::Obj(m) => pointer_step(t, token) == (if m.contains_key(token) {
                Some(m[token])
            } else {
                None
            }),
            JsonTree::Arr(items) => pointer_step(t, decimal(i as nat)) == (if i < items.len() {
                Some(items[i as int])
            } else {
                None
            }),
            _ => pointer_step(t, token) is None,
        },
{
    parse_of_decimal(i);
    decimal_has_no_sign(i as nat);
}

/// What the values of a list hold stands in the same places.
pub proof fn trees_stand_in_place(vs: Seq<serde_json::Value>, i: int)
    ensures
        json_trees(vs).len() == vs.len(),
        0 <= i < vs.len() ==> json_trees(vs)[i] == json_tree(vs[i]),
        no_members() == Map::<Seq<char>, JsonTree>::empty(),
{
}

} // verus!
