//! JSON values as the chunker sees them, their compact text, and
//! the field-aware flattening of a record into embeddable text lines and
//! filterable metadata.

use vstd::prelude::*;
use crate::text::{
    chars_of, lines, split_lines, string_of, trim, trim_chars, views, decimal, decimal_string, digit, digit_char, join, push_char, push_str,
    string_views,
};

verus! {

/// A JSON value. Numbers keep the text that the JSON library prints for
/// them; object members keep their order.
#[derive(Debug, PartialEq)]
pub enum Json {
    Null,
    Bool(bool),
    Number(String),
    Str(String),
    Array(Vec<Json>),
    Object(Vec<Field>),
}

/// One member of a JSON object.
#[derive(Debug, PartialEq)]
pub struct Field {
    pub key: String,
    pub value: Json,
}

/// The mathematical model of a JSON value.
pub enum JsonValue {
    Null,
    Bool(bool),
    Number(Seq<char>),
    Str(Seq<char>),
    Array(Seq<JsonValue>),
    Object(Seq<(Seq<char>, JsonValue)>),
}

/// The model of `j`.
pub open spec fn json_view(j: Json) -> JsonValue
    decreases j,
{
    match j {
        Json::Null => JsonValue::Null,
        Json::Bool(b) => JsonValue::Bool(b),
        Json::Number(n) => JsonValue::Number(n@),
        Json::Str(s) => JsonValue::Str(s@),
        Json::Array(items) => JsonValue::Array(items_view(items@)),
        Json::Object(fields) => JsonValue::Object(fields_view(fields@)),
    }
}

/// The models of a sequence of values.
pub open spec fn items_view(s: Seq<Json>) -> Seq<JsonValue>
    decreases s,
{
    if s.len() == 0 {
        seq![]
    } else {
        items_view(s.drop_last()).push(json_view(s.last()))
    }
}

/// The models of a sequence of object members.
pub open spec fn fields_view(s: Seq<Field>) -> Seq<(Seq<char>, JsonValue)>
    decreases s,
{
    if s.len() == 0 {
        seq![]
    } else {
        fields_view(s.drop_last()).push((s.last().key@, json_view(s.last().value)))
    }
}

impl View for Json {
    type V = JsonValue;

    open spec fn view(&self) -> JsonValue {
        json_view(*self)
    }
}


pub proof fn lemma_items_view(s: Seq<Json>)
    ensures
        items_view(s).len() == s.len(),
        forall|i: int| 0 <= i < s.len() ==> #[trigger] items_view(s)[i] == json_view(s[i]),
    decreases s.len(),
{
    if s.len() > 0 {
        lemma_items_view(s.drop_last());
    }
}

pub proof fn lemma_fields_view(s: Seq<Field>)
    ensures
        fields_view(s).len() == s.len(),
        forall|i: int|
            0 <= i < s.len() ==> #[trigger] fields_view(s)[i] == (s[i].key@, json_view(s[i].value)),
    decreases s.len(),
{
    if s.len() > 0 {
        lemma_fields_view(s.drop_last());
    }
}

impl Json {
    /// A deep copy of `self`.
    pub fn copy(&self) -> (r: Json)
        ensures
            r@ == self@,
        decreases self,
    {
        match self {
            Json::Null => Json::Null,
            Json::Bool(b) => Json::Bool(*b),
            Json::Number(n) => Json::Number(n.clone()),
            Json::Str(s) => Json::Str(s.clone()),
            Json::Array(items) => {
                let mut out: Vec<Json> = Vec::new();
                let mut i: usize = 0;
                while i < items.len()
                    invariant
                        i <= items.len(),
                        *self == Json::Array(*items),
                        items_view(out@) == items_view(items@.take(i as int)),
                    decreases items.len() - i,
                {
                    let ghost before = out@;
                    proof {
                        assert(decreases_to!(*self => self->Array_0));
                        assert(decreases_to!(items => items[i as int]));
                    }
                    let c = items[i].copy();
                    out.push(c);
                    assert(out@.drop_last() == before);
                    assert(items@.take(i + 1).drop_last() == items@.take(i as int));
                    i += 1;
                }
                assert(items@.take(items.len() as int) == items@);
                Json::Array(out)
            },
            Json::Object(fields) => {
                let mut out: Vec<Field> = Vec::new();
                let mut i: usize = 0;
                while i < fields.len()
                    invariant
                        i <= fields.len(),
                        *self == Json::Object(*fields),
                        fields_view(out@) == fields_view(fields@.take(i as int)),
                    decreases fields.len() - i,
                {
                    let ghost before = out@;
                    proof {
                        assert(decreases_to!(*self => self->Object_0));
                        assert(decreases_to!(fields => fields[i as int]));
                        assert(decreases_to!(fields[i as int] => fields[i as int].value));
                    }
                    let f = Field { key: fields[i].key.clone(), value: fields[i].value.copy() };
                    out.push(f);
                    assert(out@.drop_last() == before);
                    assert(fields@.take(i + 1).drop_last() == fields@.take(i as int));
                    i += 1;
                }
                assert(fields@.take(fields.len() as int) == fields@);
                Json::Object(out)
            },
        }
    }
}

/// The lowercase hexadecimal digit for `d < 16`.
pub open spec fn hex_lower(d: nat) -> char {
    if d < 10 {
        digit_char(d)
    } else {
        ((d - 10 + 97) as u32) as char
    }
}

/// The lowercase hexadecimal digit for `d`.
pub fn hex_digit(d: u32) -> (c: char)
    requires
        d < 16,
    ensures
        c == hex_lower(d as nat),
{
    if d < 10 {
        digit(d as usize)
    } else if d == 10 {
        'a'
    } else if d == 11 {
        'b'
    } else if d == 12 {
        'c'
    } else if d == 13 {
        'd'
    } else if d == 14 {
        'e'
    } else {
        'f'
    }
}

/// The text that the JSON library's compact writer (`serde_json::to_string`)
/// produces for `v`.
pub uninterp spec fn json_compact(v: JsonValue) -> Seq<char>;

/// Converts a `Json` into the JSON library's value, variant for variant; a
/// number text that the library does not read as a number becomes `null`.
#[verifier::external_body]
fn value_of_json(v: &Json) -> serde_json::Value {
    match v {
        Json::Null => serde_json::Value::Null,
        Json::Bool(b) => serde_json::Value::Bool(*b),
        Json::Number(n) => n.parse::<serde_json::Number>().map(serde_json::Value::Number).unwrap_or(serde_json::Value::Null),
        Json::Str(s) => serde_json::Value::String(s.clone()),
        Json::Array(items) => serde_json::Value::Array(items.iter().map(value_of_json).collect()),
        Json::Object(fields) => serde_json::Value::Object(
            fields.iter().map(|f| (f.key.clone(), value_of_json(&f.value))).collect(),
        ),
    }
}

/// `serde_json::to_string` of `v`, as the JSON library's value. Claimed:
/// the text depends on `v` alone (it is `json_compact(v)`); the writer's
/// escaping and layout are not restated here.
#[verifier::external_body]
pub(crate) fn compact_json(v: &Json) -> (s: String)
    ensures
        s@ == json_compact(v@),
{
    serde_json::to_string(&value_of_json(v)).unwrap_or_default()
}


/// Depth at which a subtree stops being flattened and is written as one
/// compact JSON text line instead: a guard against stack exhaustion on
/// adversarial input, far beyond the depth of ordinary records.
pub const MAX_FLATTEN_DEPTH: usize = 64;

/// `key` under the dotted path `prefix`: `key` itself at the top level,
/// `prefix.key` below it.
pub open spec fn join_key_spec(prefix: Seq<char>, key: Seq<char>) -> Seq<char> {
    if prefix.len() == 0 {
        key
    } else {
        prefix + seq!['.'] + key
    }
}

/// A text line for `s` found under `prefix`: `s` itself at the top level,
/// `prefix: s` below it.
pub open spec fn labeled(prefix: Seq<char>, s: Seq<char>) -> Seq<char> {
    if prefix.len() == 0 {
        s
    } else {
        prefix + seq![':', ' '] + s
    }
}

/// True when every element of `items` is a string.
pub open spec fn all_strings(items: Seq<JsonValue>) -> bool {
    forall|i: int| 0 <= i < items.len() ==> #[trigger] items[i] is Str
}

/// The text of a string value (empty for any other value).
pub open spec fn str_text(v: JsonValue) -> Seq<char> {
    match v {
        JsonValue::Str(s) => s,
        _ => seq![],
    }
}

/// The texts of a sequence of string values.
pub open spec fn string_texts(items: Seq<JsonValue>) -> Seq<Seq<char>> {
    items.map_values(|x: JsonValue| str_text(x))
}

/// What flattening produces: text lines, and metadata entries in the order
/// they are inserted.
pub type Flat = (Seq<Seq<char>>, Seq<(Seq<char>, JsonValue)>);

/// Flattening of `v` found under the dotted path `prefix` at nesting
/// `depth`. String leaves become text lines (`labeled`); a non-empty array of
/// strings becomes one line of the strings joined by `", "`; number, boolean
/// and null leaves become metadata entries under their path (a bare
/// top-level scalar has no path and is dropped); objects and other arrays
/// recurse one level deeper, array elements under their decimal index. At
/// `MAX_FLATTEN_DEPTH` the whole subtree becomes one line `prefix: ` followed
/// by its compact JSON, the separator written even for an empty prefix.
pub open spec fn flatten_spec(prefix: Seq<char>, v: JsonValue, depth: nat) -> Flat
    decreases v,
{
    if depth >= MAX_FLATTEN_DEPTH {
        (seq![prefix + seq![':', ' '] + json_compact(v)], seq![])
    } else {
        match v {
            JsonValue::Str(s) => (seq![labeled(prefix, s)], seq![]),
            JsonValue::Array(items) => if items.len() > 0 && all_strings(items) {
                (seq![labeled(prefix, join(string_texts(items), seq![',', ' ']))], seq![])
            } else {
                flatten_items(prefix, items, depth + 1)
            },
            JsonValue::Object(fields) => flatten_fields(prefix, fields, depth + 1),
            _ => if prefix.len() == 0 {
                (seq![], seq![])
            } else {
                (seq![], seq![(prefix, v)])
            },
        }
    }
}

/// Flattening of the elements of an array, in order, each under its index.
pub open spec fn flatten_items(prefix: Seq<char>, items: Seq<JsonValue>, depth: nat) -> Flat
    decreases items,
{
    if items.len() == 0 {
        (seq![], seq![])
    } else {
        let a = flatten_items(prefix, items.drop_last(), depth);
        let b = flatten_spec(
            join_key_spec(prefix, decimal((items.len() - 1) as nat)),
            items.last(),
            depth,
        );
        (a.0 + b.0, a.1 + b.1)
    }
}

/// Flattening of the members of an object, in order, each under its key.
pub open spec fn flatten_fields(
    prefix: Seq<char>,
    fields: Seq<(Seq<char>, JsonValue)>,
    depth: nat,
) -> Flat
    decreases fields,
{
    if fields.len() == 0 {
        (seq![], seq![])
    } else {
        let a = flatten_fields(prefix, fields.drop_last(), depth);
        let b = flatten_spec(join_key_spec(prefix, fields.last().0), fields.last().1, depth);
        (a.0 + b.0, a.1 + b.1)
    }
}

/// The position of the first entry of `m` with key `k`.
pub open spec fn find_key(m: Seq<(Seq<char>, JsonValue)>, k: Seq<char>) -> Option<int>
    decreases m.len(),
{
    if m.len() == 0 {
        None
    } else {
        match find_key(m.drop_last(), k) {
            Some(i) => Some(i),
            None => if m.last().0 == k {
                Some(m.len() - 1)
            } else {
                None
            },
        }
    }
}

/// `a` sorts before `b`: lexicographic order by code point, which is the
/// byte order of their UTF-8 encodings (the order of `String`).
pub open spec fn key_less(a: Seq<char>, b: Seq<char>) -> bool
    decreases a.len(),
{
    if b.len() == 0 {
        false
    } else if a.len() == 0 {
        true
    } else if (a[0] as int) < (b[0] as int) {
        true
    } else if a[0] == b[0] {
        key_less(a.drop_first(), b.drop_first())
    } else {
        false
    }
}

/// Where a new key `k` goes in `m`: before the first entry whose key sorts
/// after `k`, or at the end.
pub open spec fn insert_pos(m: Seq<(Seq<char>, JsonValue)>, k: Seq<char>) -> int
    decreases m.len(),
{
    if m.len() == 0 {
        0
    } else if key_less(k, m[0].0) {
        0
    } else {
        1 + insert_pos(m.drop_first(), k)
    }
}

/// Map insertion on a key-ordered association list: the entry with key `k`
/// takes value `v` where there is one, otherwise `(k, v)` goes in key order.
/// Lists kept this way are sorted by key, as a JSON object's members are.
pub open spec fn assoc_insert(m: Seq<(Seq<char>, JsonValue)>, k: Seq<char>, v: JsonValue) -> Seq<
    (Seq<char>, JsonValue),
> {
    match find_key(m, k) {
        Some(i) => m.update(i, (k, v)),
        None => m.insert(insert_pos(m, k), (k, v)),
    }
}

proof fn lemma_insert_pos(m: Seq<(Seq<char>, JsonValue)>, k: Seq<char>)
    ensures
        0 <= insert_pos(m, k) <= m.len(),
        forall|j: int| 0 <= j < insert_pos(m, k) ==> !key_less(k, #[trigger] m[j].0),
        insert_pos(m, k) < m.len() ==> key_less(k, m[insert_pos(m, k)].0),
    decreases m.len(),
{
    if m.len() > 0 && !key_less(k, m[0].0) {
        let t = m.drop_first();
        lemma_insert_pos(t, k);
        assert forall|j: int| 0 <= j < insert_pos(m, k) implies !key_less(k, #[trigger] m[j].0) by {
            if j > 0 {
                assert(m[j] == t[j - 1]);
            }
        }
        if insert_pos(m, k) < m.len() {
            assert(m[insert_pos(m, k)] == t[insert_pos(t, k)]);
        }
    }
}

proof fn lemma_insert_pos_at(m: Seq<(Seq<char>, JsonValue)>, k: Seq<char>, p: int)
    requires
        0 <= p <= m.len(),
        forall|j: int| 0 <= j < p ==> !key_less(k, #[trigger] m[j].0),
        p < m.len() ==> key_less(k, m[p].0),
    ensures
        insert_pos(m, k) == p,
    decreases p,
{
    if p > 0 {
        let t = m.drop_first();
        assert(!key_less(k, m[0].0));
        assert forall|j: int| 0 <= j < p - 1 implies !key_less(k, #[trigger] t[j].0) by {
            assert(t[j] == m[j + 1]);
        }
        if p < m.len() {
            assert(t[p - 1] == m[p]);
        }
        lemma_insert_pos_at(t, k, p - 1);
    }
}

/// `entries` inserted into `m` one after another.
pub open spec fn assoc_insert_all(
    m: Seq<(Seq<char>, JsonValue)>,
    entries: Seq<(Seq<char>, JsonValue)>,
) -> Seq<(Seq<char>, JsonValue)>
    decreases entries.len(),
{
    if entries.len() == 0 {
        m
    } else {
        let e = entries.last();
        assoc_insert(assoc_insert_all(m, entries.drop_last()), e.0, e.1)
    }
}

pub proof fn lemma_insert_all_concat(
    m: Seq<(Seq<char>, JsonValue)>,
    a: Seq<(Seq<char>, JsonValue)>,
    b: Seq<(Seq<char>, JsonValue)>,
)
    ensures
        assoc_insert_all(m, a + b) == assoc_insert_all(assoc_insert_all(m, a), b),
    decreases b.len(),
{
    if b.len() == 0 {
        assert(a + b =~= a);
    } else {
        lemma_insert_all_concat(m, a, b.drop_last());
        assert((a + b).drop_last() =~= a + b.drop_last());
        assert((a + b).last() == b.last());
    }
}

/// `find_key` finds an entry with the key, or the key is absent.
pub proof fn lemma_find_key_bounds(m: Seq<(Seq<char>, JsonValue)>, k: Seq<char>)
    ensures
        find_key(m, k) matches Some(i) ==> 0 <= i < m.len() && m[i].0 == k,
        find_key(m, k) is None ==> forall|i: int| 0 <= i < m.len() ==> #[trigger] m[i].0 != k,
    decreases m.len(),
{
    if m.len() > 0 {
        lemma_find_key_bounds(m.drop_last(), k);
        assert forall|i: int| 0 <= i < m.len() - 1 implies #[trigger] m[i] == m.drop_last()[i] by {}
    }
}

/// The first entry with a key is the one `find_key` finds.
pub proof fn lemma_find_key_first(m: Seq<(Seq<char>, JsonValue)>, k: Seq<char>, i: int)
    requires
        0 <= i < m.len(),
        m[i].0 == k,
        forall|j: int| 0 <= j < i ==> #[trigger] m[j].0 != k,
    ensures
        find_key(m, k) == Some(i),
    decreases m.len(),
{
    if i < m.len() - 1 {
        assert forall|j: int| 0 <= j < i implies #[trigger] m.drop_last()[j].0 != k by {
            assert(m.drop_last()[j] == m[j]);
        }
        assert(m.drop_last()[i] == m[i]);
        lemma_find_key_first(m.drop_last(), k, i);
    } else {
        lemma_find_key_bounds(m.drop_last(), k);
        if find_key(m.drop_last(), k) is Some {
            let j = find_key(m.drop_last(), k)->0;
            assert(m.drop_last()[j] == m[j]);
        }
    }
}

/// The keys of `m` are strictly increasing: it is sorted by key and holds
/// no key twice.
pub open spec fn keys_sorted(m: Seq<(Seq<char>, JsonValue)>) -> bool {
    forall|i: int, j: int| 0 <= i < j < m.len() ==> key_less(#[trigger] m[i].0, #[trigger] m[j].0)
}

proof fn lemma_key_less_total(a: Seq<char>, b: Seq<char>)
    ensures
        a != b ==> key_less(a, b) || key_less(b, a),
        !(key_less(a, b) && key_less(b, a)),
        !key_less(a, a),
    decreases a.len(),
{
    if a.len() > 0 && b.len() > 0 && a[0] == b[0] {
        lemma_key_less_total(a.drop_first(), b.drop_first());
        if a.drop_first() == b.drop_first() {
            assert(a =~= seq![a[0]] + a.drop_first());
            assert(b =~= seq![b[0]] + b.drop_first());
        }
    } else if a.len() == 0 && b.len() == 0 {
        assert(a =~= b);
    } else if a.len() > 0 && b.len() > 0 {
        assert((a[0] as int) != (b[0] as int));
    }
    if a.len() > 0 {
        lemma_key_less_total(a.drop_first(), a.drop_first());
    }
}

proof fn lemma_key_less_trans(a: Seq<char>, b: Seq<char>, c: Seq<char>)
    requires
        key_less(a, b),
        key_less(b, c),
    ensures
        key_less(a, c),
    decreases a.len(),
{
    if a.len() > 0 && a[0] == b[0] && b[0] == c[0] {
        lemma_key_less_trans(a.drop_first(), b.drop_first(), c.drop_first());
    }
}

/// Inserting into a key-sorted list keeps it key-sorted.
pub proof fn law_assoc_insert_sorted(m: Seq<(Seq<char>, JsonValue)>, k: Seq<char>, v: JsonValue)
    requires
        keys_sorted(m),
    ensures
        keys_sorted(assoc_insert(m, k, v)),
{
    lemma_find_key_bounds(m, k);
    let m2 = assoc_insert(m, k, v);
    match find_key(m, k) {
        Some(i) => {
            assert forall|a: int, b: int| 0 <= a < b < m2.len() implies key_less(#[trigger] m2[a].0, #[trigger] m2[b].0) by {
                assert(m2[a].0 == m[a].0);
                assert(m2[b].0 == m[b].0);
            }
        },
        None => {
            lemma_insert_pos(m, k);
            let p = insert_pos(m, k);
            assert forall|j: int| 0 <= j < p implies key_less(#[trigger] m[j].0, k) by {
                lemma_key_less_total(m[j].0, k);
            }
            assert forall|j: int| p <= j < m.len() implies key_less(k, #[trigger] m[j].0) by {
                if j > p {
                    lemma_key_less_trans(k, m[p].0, m[j].0);
                }
            }
            assert forall|a: int, b: int| 0 <= a < b < m2.len() implies key_less(#[trigger] m2[a].0, #[trigger] m2[b].0) by {
                if b < p {
                    assert(m2[a] == m[a] && m2[b] == m[b]);
                } else if b == p {
                    assert(m2[a] == m[a]);
                } else if a < p {
                    assert(m2[a] == m[a] && m2[b] == m[b - 1]);
                    lemma_key_less_trans(m[a].0, k, m[b - 1].0);
                } else if a == p {
                    assert(m2[b] == m[b - 1]);
                } else {
                    assert(m2[a] == m[a - 1] && m2[b] == m[b - 1]);
                }
            }
        },
    }
}

/// Inserting entries one after another into a key-sorted list keeps it
/// key-sorted.
pub proof fn law_assoc_insert_all_sorted(
    m: Seq<(Seq<char>, JsonValue)>,
    entries: Seq<(Seq<char>, JsonValue)>,
)
    requires
        keys_sorted(m),
    ensures
        keys_sorted(assoc_insert_all(m, entries)),
    decreases entries.len(),
{
    if entries.len() > 0 {
        law_assoc_insert_all_sorted(m, entries.drop_last());
        law_assoc_insert_sorted(assoc_insert_all(m, entries.drop_last()), entries.last().0, entries.last().1);
    }
}

/// The value stored under `k` in the association list `m`.
pub open spec fn lookup(m: Seq<(Seq<char>, JsonValue)>, k: Seq<char>) -> Option<JsonValue> {
    match find_key(m, k) {
        Some(i) => Some(m[i].1),
        None => None,
    }
}

/// After inserting `(k, v)`, `k` maps to `v` and every other key keeps its
/// value.
pub proof fn lemma_lookup_insert(m: Seq<(Seq<char>, JsonValue)>, k: Seq<char>, v: JsonValue, k2: Seq<char>)
    ensures
        lookup(assoc_insert(m, k, v), k) == Some(v),
        k2 != k ==> lookup(assoc_insert(m, k, v), k2) == lookup(m, k2),
{
    lemma_find_key_bounds(m, k);
    lemma_find_key_bounds(m, k2);
    let m2 = assoc_insert(m, k, v);
    lemma_find_key_bounds(m2, k);
    lemma_find_key_bounds(m2, k2);
    match find_key(m, k) {
        Some(i) => {
            assert(m2[i].0 == k);
            assert forall|j: int| 0 <= j < i implies #[trigger] m2[j].0 != k by {
                assert(m2[j] == m[j]);
                if m[j].0 == k {
                    lemma_first_is_first(m, k, j);
                }
            }
            lemma_find_key_first(m2, k, i);
            if k2 != k {
                match find_key(m, k2) {
                    Some(i2) => {
                        assert(m2[i2] == m[i2]);
                        assert forall|j: int| 0 <= j < i2 implies #[trigger] m2[j].0 != k2 by {
                            assert(m2[j] == m[j] || m2[j].0 == k);
                            if m2[j] == m[j] && m[j].0 == k2 {
                                lemma_first_is_first(m, k2, j);
                            }
                        }
                        lemma_find_key_first(m2, k2, i2);
                    },
                    None => {
                        assert forall|j: int| 0 <= j < m2.len() implies #[trigger] m2[j].0 != k2 by {
                            assert(m2[j] == m[j] || m2[j].0 == k);
                        }
                        if find_key(m2, k2) is Some {
                            let j = find_key(m2, k2)->0;
                            assert(m2[j].0 == k2);
                        }
                    },
                }
            }
        },
        None => {
            lemma_insert_pos(m, k);
            let p = insert_pos(m, k);
            assert(m2 == m.insert(p, (k, v)));
            assert(m2.len() == m.len() + 1);
            assert(m2[p] == (k, v));
            assert forall|j: int| 0 <= j < p implies #[trigger] m2[j].0 != k by {
                assert(m2[j] == m[j]);
            }
            lemma_find_key_first(m2, k, p);
            if k2 != k {
                match find_key(m, k2) {
                    Some(i2) => {
                        let t = if i2 < p { i2 } else { i2 + 1 };
                        assert(m2[t] == m[i2]);
                        assert forall|j: int| 0 <= j < t implies #[trigger] m2[j].0 != k2 by {
                            if j < p {
                                assert(m2[j] == m[j]);
                                if m[j].0 == k2 {
                                    lemma_first_is_first(m, k2, j);
                                }
                            } else if j > p {
                                assert(m2[j] == m[j - 1]);
                                if m[j - 1].0 == k2 {
                                    lemma_first_is_first(m, k2, j - 1);
                                }
                            }
                        }
                        lemma_find_key_first(m2, k2, t);
                    },
                    None => {
                        assert forall|j: int| 0 <= j < m2.len() implies #[trigger] m2[j].0 != k2 by {
                            if j < p {
                                assert(m2[j] == m[j]);
                            } else if j > p {
                                assert(m2[j] == m[j - 1]);
                            }
                        }
                        if find_key(m2, k2) is Some {
                            let j = find_key(m2, k2)->0;
                            assert(m2[j].0 == k2);
                        }
                    },
                }
            }
        },
    }
}

proof fn lemma_first_is_first(m: Seq<(Seq<char>, JsonValue)>, k: Seq<char>, j: int)
    requires
        0 <= j < m.len(),
        m[j].0 == k,
    ensures
        find_key(m, k) matches Some(i) && i <= j,
    decreases m.len(),
{
    lemma_find_key_bounds(m, k);
    if j < m.len() - 1 {
        assert(m.drop_last()[j] == m[j]);
        lemma_first_is_first(m.drop_last(), k, j);
    }
}

/// No string is flattened into metadata: every metadata entry holds a
/// number, a boolean or null, under a non-empty key.
pub proof fn law_flatten_meta_scalars(prefix: Seq<char>, v: JsonValue, depth: nat)
    ensures
        forall|i: int|
            0 <= i < flatten_spec(prefix, v, depth).1.len() ==> {
                let e = #[trigger] flatten_spec(prefix, v, depth).1[i];
                &&& e.0.len() > 0
                &&& (e.1 is Null || e.1 is Bool || e.1 is Number)
            },
    decreases v, 0nat,
{
    if depth < MAX_FLATTEN_DEPTH {
        match v {
            JsonValue::Array(items) => {
                if !(items.len() > 0 && all_strings(items)) {
                    lemma_flatten_items_scalars(prefix, items, depth + 1);
                }
            },
            JsonValue::Object(fields) => {
                lemma_flatten_fields_scalars(prefix, fields, depth + 1);
            },
            _ => {},
        }
    }
}

proof fn lemma_flatten_items_scalars(prefix: Seq<char>, items: Seq<JsonValue>, depth: nat)
    ensures
        forall|i: int|
            0 <= i < flatten_items(prefix, items, depth).1.len() ==> {
                let e = #[trigger] flatten_items(prefix, items, depth).1[i];
                &&& e.0.len() > 0
                &&& (e.1 is Null || e.1 is Bool || e.1 is Number)
            },
    decreases items, 1nat,
{
    if items.len() > 0 {
        lemma_flatten_items_scalars(prefix, items.drop_last(), depth);
        let key = join_key_spec(prefix, decimal((items.len() - 1) as nat));
        law_flatten_meta_scalars(key, items.last(), depth);
        let a = flatten_items(prefix, items.drop_last(), depth).1;
        let b = flatten_spec(key, items.last(), depth).1;
        assert forall|i: int| 0 <= i < (a + b).len() implies ({
            let e = #[trigger] (a + b)[i];
            &&& e.0.len() > 0
            &&& (e.1 is Null || e.1 is Bool || e.1 is Number)
        }) by {
            if i < a.len() {
                assert((a + b)[i] == a[i]);
            } else {
                assert((a + b)[i] == b[i - a.len()]);
            }
        }
    }
}

proof fn lemma_flatten_fields_scalars(prefix: Seq<char>, fields: Seq<(Seq<char>, JsonValue)>, depth: nat)
    ensures
        forall|i: int|
            0 <= i < flatten_fields(prefix, fields, depth).1.len() ==> {
                let e = #[trigger] flatten_fields(prefix, fields, depth).1[i];
                &&& e.0.len() > 0
                &&& (e.1 is Null || e.1 is Bool || e.1 is Number)
            },
    decreases fields, 1nat,
{
    if fields.len() > 0 {
        lemma_flatten_fields_scalars(prefix, fields.drop_last(), depth);
        let key = join_key_spec(prefix, fields.last().0);
        law_flatten_meta_scalars(key, fields.last().1, depth);
        let a = flatten_fields(prefix, fields.drop_last(), depth).1;
        let b = flatten_spec(key, fields.last().1, depth).1;
        assert forall|i: int| 0 <= i < (a + b).len() implies ({
            let e = #[trigger] (a + b)[i];
            &&& e.0.len() > 0
            &&& (e.1 is Null || e.1 is Bool || e.1 is Number)
        }) by {
            if i < a.len() {
                assert((a + b)[i] == a[i]);
            } else {
                assert((a + b)[i] == b[i - a.len()]);
            }
        }
    }
}

/// Inserts `(key, value)` into the association list `meta` (map insertion).
pub fn meta_insert(meta: &mut Vec<Field>, key: String, value: Json)
    ensures
        fields_view(final(meta)@) == assoc_insert(fields_view(old(meta)@), key@, value@),
{
    proof {
        lemma_fields_view(meta@);
    }
    let ghost m = fields_view(meta@);
    let mut i: usize = 0;
    while i < meta.len()
        invariant
            i <= meta.len(),
            meta@ == old(meta)@,
            m == fields_view(meta@),
            m.len() == meta@.len(),
            forall|k: int| 0 <= k < meta@.len() ==> #[trigger] m[k] == (meta@[k].key@, json_view(meta@[k].value)),
            forall|j: int| 0 <= j < i ==> #[trigger] m[j].0 != key@,
        decreases meta.len() - i,
    {
        if meta[i].key == key {
            proof {
                lemma_find_key_first(m, key@, i as int);
            }
            meta.set(i, Field { key, value });
            proof {
                lemma_fields_view(meta@);
                assert(fields_view(meta@) =~= m.update(i as int, (key@, value@)));
            }
            return;
        }
        i += 1;
    }
    proof {
        lemma_find_key_bounds(m, key@);
        if find_key(m, key@) is Some {
            let j = find_key(m, key@)->0;
            assert(m[j].0 == key@);
        }
    }
    let mut p: usize = 0;
    let mut found = false;
    while p < meta.len()
        invariant_except_break
            p <= meta.len(),
            !found,
        invariant
            meta@ == old(meta)@,
            m == fields_view(meta@),
            m.len() == meta@.len(),
            forall|k: int| 0 <= k < meta@.len() ==> #[trigger] m[k] == (meta@[k].key@, json_view(meta@[k].value)),
            forall|j: int| 0 <= j < p ==> !key_less(key@, #[trigger] m[j].0),
        ensures
            p <= meta.len(),
            forall|j: int| 0 <= j < p ==> !key_less(key@, #[trigger] m[j].0),
            p < meta.len() ==> key_less(key@, m[p as int].0),
        decreases meta.len() - p,
    {
        if key_before(key.as_str(), meta[p].key.as_str()) {
            break;
        }
        p += 1;
    }
    proof {
        lemma_insert_pos_at(m, key@, p as int);
    }
    let ghost kv = (key@, value@);
    meta.insert(p, Field { key, value });
    proof {
        lemma_fields_view(meta@);
        assert(fields_view(meta@) =~= m.insert(p as int, kv));
    }
}

proof fn lemma_key_less_skip(a: Seq<char>, b: Seq<char>, i: int)
    requires
        0 <= i <= a.len(),
        i <= b.len(),
        a.take(i) == b.take(i),
    ensures
        key_less(a, b) == key_less(a.skip(i), b.skip(i)),
    decreases i,
{
    if i > 0 {
        assert(a[0] == a.take(i)[0]);
        assert(b[0] == b.take(i)[0]);
        assert(a[0] == b[0]);
        let a1 = a.drop_first();
        let b1 = b.drop_first();
        assert(a1.take(i - 1) =~= a.take(i).drop_first());
        assert(b1.take(i - 1) =~= b.take(i).drop_first());
        lemma_key_less_skip(a1, b1, i - 1);
        assert(a1.skip(i - 1) =~= a.skip(i));
        assert(b1.skip(i - 1) =~= b.skip(i));
    } else {
        assert(a.skip(0) =~= a);
        assert(b.skip(0) =~= b);
    }
}

/// Whether key `a` sorts before key `b` (`key_less`).
fn key_before(a: &str, b: &str) -> (r: bool)
    ensures
        r == key_less(a@, b@),
{
    let ac = chars_of(a);
    let bc = chars_of(b);
    let mut i: usize = 0;
    while i < ac.len() && i < bc.len()
        invariant
            i <= ac.len(),
            i <= bc.len(),
            ac@ == a@,
            bc@ == b@,
            ac@.take(i as int) == bc@.take(i as int),
        decreases ac.len() - i,
    {
        if ac[i] != bc[i] {
            proof {
                lemma_key_less_skip(a@, b@, i as int);
                assert(a@.skip(i as int)[0] == ac[i as int]);
                assert(b@.skip(i as int)[0] == bc[i as int]);
            }
            return ac[i] < bc[i];
        }
        assert(ac@.take(i + 1) =~= ac@.take(i as int).push(ac[i as int]));
        assert(bc@.take(i + 1) =~= bc@.take(i as int).push(bc[i as int]));
        i += 1;
    }
    proof {
        lemma_key_less_skip(a@, b@, i as int);
    }
    i < bc.len()
}

/// `key` under the dotted path `prefix`.
pub fn join_key(prefix: &str, key: &str) -> (k: String)
    ensures
        k@ == join_key_spec(prefix@, key@),
{
    let mut k = String::new();
    if prefix.is_empty() {
        push_str(&mut k, key);
    } else {
        push_str(&mut k, prefix);
        push_char(&mut k, '.');
        push_str(&mut k, key);
        assert(k@ =~= prefix@ + seq!['.'] + key@);
    }
    k
}

/// The line for `s` found under `prefix`.
fn labeled_line(prefix: &str, s: &str) -> (l: String)
    ensures
        l@ == labeled(prefix@, s@),
{
    let mut l = String::new();
    if !prefix.is_empty() {
        push_str(&mut l, prefix);
        push_char(&mut l, ':');
        push_char(&mut l, ' ');
    }
    push_str(&mut l, s);
    assert(l@ =~= labeled(prefix@, s@));
    l
}

/// Recursively flatten `value` under the dotted-key `prefix` (see
/// `flatten_spec`): text lines are appended to `lines`, metadata entries
/// are inserted into `meta`.
pub fn flatten_value(
    prefix: &str,
    value: &Json,
    depth: usize,
    lines: &mut Vec<String>,
    meta: &mut Vec<Field>,
)
    ensures
        string_views(final(lines)@) == string_views(old(lines)@) + flatten_spec(
            prefix@,
            value@,
            depth as nat,
        ).0,
        fields_view(final(meta)@) == assoc_insert_all(
            fields_view(old(meta)@),
            flatten_spec(prefix@, value@, depth as nat).1,
        ),
    decreases value,
{
    if depth >= MAX_FLATTEN_DEPTH {
        let c = compact_json(value);
        let mut l = prefix.to_owned();
        push_str(&mut l, ": ");
        push_str(&mut l, c.as_str());
        proof {
            reveal_strlit(": ");
            assert(": "@ =~= seq![':', ' ']);
        }
        lines.push(l);
        assert(string_views(lines@) =~= string_views(old(lines)@).push(l@));
        assert(assoc_insert_all(fields_view(meta@), seq![]) == fields_view(meta@));
        return;
    }
    match value {
        Json::Str(s) => {
            assert(value@ == JsonValue::Str(s@));
            assert(flatten_spec(prefix@, value@, depth as nat).1 =~= Seq::<(Seq<char>, JsonValue)>::empty());
            let l = labeled_line(prefix, s.as_str());
            lines.push(l);
            assert(string_views(lines@) =~= string_views(old(lines)@).push(l@));
        },
        Json::Array(items) => {
            proof {
                lemma_items_view(items@);
            }
            let ghost iv = items_view(items@);
            let mut all_str = items.len() > 0;
            let mut i: usize = 0;
            while i < items.len()
                invariant
                    i <= items.len(),
                    iv == items_view(items@),
                    iv.len() == items@.len(),
                    forall|k: int| 0 <= k < items@.len() ==> #[trigger] iv[k] == json_view(items@[k]),
                    all_str == (items@.len() > 0 && forall|k: int| 0 <= k < i ==> #[trigger] iv[k] is Str),
                decreases items.len() - i,
            {
                match &items[i] {
                    Json::Str(_) => {
                        assert(iv[i as int] is Str);
                    },
                    _ => {
                        assert(!(iv[i as int] is Str));
                        all_str = false;
                    },
                }
                i += 1;
            }
            if all_str {
                let mut joined = String::new();
                let mut j: usize = 0;
                while j < items.len()
                    invariant
                        j <= items.len(),
                        iv == items_view(items@),
                        iv.len() == items@.len(),
                        forall|k: int| 0 <= k < items@.len() ==> #[trigger] iv[k] == json_view(items@[k]),
                        forall|k: int| 0 <= k < iv.len() ==> #[trigger] iv[k] is Str,
                        joined@ == join(string_texts(iv).take(j as int), seq![',', ' ']),
                    decreases items.len() - j,
                {
                    let ghost t = string_texts(iv);
                    assert(t.take(j + 1).drop_last() == t.take(j as int));
                    assert(t.take(j + 1).last() == str_text(iv[j as int]));
                    if j > 0 {
                        push_char(&mut joined, ',');
                        push_char(&mut joined, ' ');
                    }
                    match &items[j] {
                        Json::Str(s) => {
                            push_str(&mut joined, s.as_str());
                        },
                        _ => {},
                    }
                    assert(joined@ =~= join(t.take(j + 1), seq![',', ' ']));
                    j += 1;
                }
                assert(string_texts(iv).take(items.len() as int) == string_texts(iv));
                let l = labeled_line(prefix, joined.as_str());
                lines.push(l);
                assert(string_views(lines@) =~= string_views(old(lines)@).push(l@));
                assert(assoc_insert_all(fields_view(meta@), seq![]) == fields_view(meta@));
            } else {
                let mut k: usize = 0;
                assert(iv.take(0) =~= Seq::<JsonValue>::empty());
                assert(string_views(lines@) =~= string_views(old(lines)@) + seq![]);
                while k < items.len()
                    invariant
                        k <= items.len(),
                        depth < MAX_FLATTEN_DEPTH,
                        *value == Json::Array(*items),
                        iv == items_view(items@),
                        iv.len() == items@.len(),
                        forall|q: int| 0 <= q < items@.len() ==> #[trigger] iv[q] == json_view(items@[q]),
                        string_views(lines@) == string_views(old(lines)@) + flatten_items(
                            prefix@,
                            iv.take(k as int),
                            (depth + 1) as nat,
                        ).0,
                        fields_view(meta@) == assoc_insert_all(
                            fields_view(old(meta)@),
                            flatten_items(prefix@, iv.take(k as int), (depth + 1) as nat).1,
                        ),
                    decreases items.len() - k,
                {
                    let ghost pre = iv.take(k as int);
                    let ghost post = iv.take(k + 1);
                    assert(post.drop_last() == pre);
                    assert(post.last() == json_view(items@[k as int]));
                    assert(post.len() - 1 == k);
                    let idx = decimal_string(k);
                    let key = join_key(prefix, idx.as_str());
                    let ghost lines_before = string_views(lines@);
                    let ghost meta_before = fields_view(meta@);
                    proof {
                        assert(decreases_to!(*value => value->Array_0));
                        assert(decreases_to!(items => items[k as int]));
                    }
                    flatten_value(key.as_str(), &items[k], depth + 1, lines, meta);
                    let ghost b = flatten_spec(key@, json_view(items@[k as int]), (depth + 1) as nat);
                    let ghost a = flatten_items(prefix@, pre, (depth + 1) as nat);
                    assert(string_views(lines@) =~= string_views(old(lines)@) + (a.0 + b.0));
                    proof {
                        lemma_insert_all_concat(fields_view(old(meta)@), a.1, b.1);
                    }
                    k += 1;
                }
                assert(iv.take(items.len() as int) == iv);
            }
        },
        Json::Object(fields) => {
            proof {
                lemma_fields_view(fields@);
            }
            let ghost fv = fields_view(fields@);
            let mut k: usize = 0;
            assert(fv.take(0) =~= Seq::<(Seq<char>, JsonValue)>::empty());
            assert(string_views(lines@) =~= string_views(old(lines)@) + seq![]);
            while k < fields.len()
                invariant
                    k <= fields.len(),
                    depth < MAX_FLATTEN_DEPTH,
                    *value == Json::Object(*fields),
                    fv == fields_view(fields@),
                    fv.len() == fields@.len(),
                    forall|q: int|
                        0 <= q < fields@.len() ==> #[trigger] fv[q] == (
                            fields@[q].key@,
                            json_view(fields@[q].value),
                        ),
                    string_views(lines@) == string_views(old(lines)@) + flatten_fields(
                        prefix@,
                        fv.take(k as int),
                        (depth + 1) as nat,
                    ).0,
                    fields_view(meta@) == assoc_insert_all(
                        fields_view(old(meta)@),
                        flatten_fields(prefix@, fv.take(k as int), (depth + 1) as nat).1,
                    ),
                decreases fields.len() - k,
            {
                let ghost pre = fv.take(k as int);
                let ghost post = fv.take(k + 1);
                assert(post.drop_last() == pre);
                assert(post.last() == fv[k as int]);
                let key = join_key(prefix, fields[k].key.as_str());
                proof {
                    assert(decreases_to!(*value => value->Object_0));
                    assert(decreases_to!(fields => fields[k as int]));
                    assert(decreases_to!(fields[k as int] => fields[k as int].value));
                }
                flatten_value(key.as_str(), &fields[k].value, depth + 1, lines, meta);
                let ghost b = flatten_spec(key@, json_view(fields@[k as int].value), (depth + 1) as nat);
                let ghost a = flatten_fields(prefix@, pre, (depth + 1) as nat);
                assert(string_views(lines@) =~= string_views(old(lines)@) + (a.0 + b.0));
                proof {
                    lemma_insert_all_concat(fields_view(old(meta)@), a.1, b.1);
                }
                k += 1;
            }
            assert(fv.take(fields.len() as int) == fv);
        },
        _ => {
            if !prefix.is_empty() {
                let v = value.copy();
                let mut key = String::new();
                push_str(&mut key, prefix);
                meta_insert(meta, key, v);
                assert(seq![(prefix@, value@)].drop_last() =~= Seq::<(Seq<char>, JsonValue)>::empty());
                assert(flatten_spec(prefix@, value@, depth as nat).1 == seq![(prefix@, value@)]);
                assert(fields_view(meta@) == assoc_insert(fields_view(old(meta)@), prefix@, value@));
                let ghost one = seq![(prefix@, value@)];
                assert(one.drop_last() =~= Seq::<(Seq<char>, JsonValue)>::empty());
                assert(assoc_insert_all(fields_view(old(meta)@), one.drop_last()) == fields_view(old(meta)@));
                assert(one.last() == (prefix@, value@));
            } else {
                assert(flatten_spec(prefix@, value@, depth as nat).1 == Seq::<(Seq<char>, JsonValue)>::empty());
            }
            assert(string_views(lines@) =~= string_views(old(lines)@) + seq![]);
            assert(fields_view(final(meta)@) == assoc_insert_all(
                fields_view(old(meta)@),
                flatten_spec(prefix@, value@, depth as nat).1,
            ));
        },
    }
}


#[verifier::external_type_specification]
#[verifier::external_body]
pub struct ExJsonValue(serde_json::Value);

/// The value that the JSON library's parser (`serde_json::from_str`) reads
/// from `text`, or `None` where it rejects the text.
pub uninterp spec fn json_parse(text: Seq<char>) -> Option<JsonValue>;

/// Converts the JSON library's value into a `Json`, variant for variant;
/// numbers keep the text the library prints for them.
#[verifier::external_body]
fn json_from_value(v: serde_json::Value) -> Json {
    match v {
        serde_json::Value::Null => Json::Null,
        serde_json::Value::Bool(b) => Json::Bool(b),
        serde_json::Value::Number(n) => Json::Number(n.to_string()),
        serde_json::Value::String(s) => Json::Str(s),
        serde_json::Value::Array(a) => Json::Array(a.into_iter().map(json_from_value).collect()),
        serde_json::Value::Object(m) => Json::Object(
            m.into_iter().map(|(key, value)| Field { key, value: json_from_value(value) }).collect(),
        ),
    }
}

/// `serde_json::from_str::<serde_json::Value>` on `text`. Claimed: the
/// outcome depends on the text alone (it is `json_parse(text)`); what the
/// parser accepts and what it builds is not restated here.
#[verifier::external_body]
pub(crate) fn parse_json(text: &str) -> (r: Option<Json>)
    ensures
        match r {
            Some(j) => json_parse(text@) == Some(j@),
            None => json_parse(text@) is None,
        },
{
    serde_json::from_str::<serde_json::Value>(text).ok().map(json_from_value)
}

/// The records of the non-blank lines of a JSONL document: every such line
/// that parses as JSON, in order.
pub open spec fn line_records(ls: Seq<Seq<char>>) -> Seq<JsonValue>
    decreases ls.len(),
{
    if ls.len() == 0 {
        seq![]
    } else {
        let r = line_records(ls.drop_last());
        let l = ls.last();
        if trim(l).len() == 0 {
            r
        } else {
            match json_parse(l) {
                Some(v) => r.push(v),
                None => r,
            }
        }
    }
}

/// The records in `text` given the outcome `whole` of parsing all of it: an
/// array yields its elements, any other value is one record, and text that
/// is not one JSON document is read as JSONL.
pub open spec fn records_from(text: Seq<char>, whole: Option<JsonValue>) -> Seq<JsonValue> {
    match whole {
        Some(JsonValue::Array(items)) => items,
        Some(v) => seq![v],
        None => line_records(lines(text)),
    }
}

/// The records in `text` (see `records_from`).
pub open spec fn json_records(text: Seq<char>) -> Seq<JsonValue> {
    records_from(text, json_parse(text))
}

/// The records of `text`, given what parsing all of it gave.
pub fn records_of(text: &str, whole: Option<Json>) -> (records: Vec<Json>)
    requires
        match whole {
            Some(j) => json_parse(text@) == Some(j@),
            None => json_parse(text@) is None,
        },
    ensures
        items_view(records@) == json_records(text@),
{
    match whole {
        Some(Json::Array(items)) => items,
        Some(other) => {
            let ghost ov = other@;
            let mut v: Vec<Json> = Vec::new();
            v.push(other);
            assert(v@.drop_last() =~= Seq::<Json>::empty());
            assert(items_view(v@.drop_last()) =~= Seq::<JsonValue>::empty());
            assert(json_view(v@.last()) == ov);
            assert(items_view(v@) =~= seq![ov]);
            v
        },
        None => {
            let chars = chars_of(text);
            let ls = split_lines(&chars);
            let ghost lv = views(ls@);
            let mut out: Vec<Json> = Vec::new();
            let mut i: usize = 0;
            assert(lv.take(0) =~= Seq::<Seq<char>>::empty());
            while i < ls.len()
                invariant
                    i <= ls.len(),
                    lv == views(ls@),
                    lv == lines(text@),
                    items_view(out@) == line_records(lv.take(i as int)),
                decreases ls.len() - i,
            {
                let ghost pre = lv.take(i as int);
                let ghost post = lv.take(i + 1);
                assert(post.drop_last() == pre);
                assert(post.last() == ls@[i as int]@);
                let t = trim_chars(&ls[i]);
                if t.len() > 0 {
                    let line = string_of(&ls[i]);
                    match parse_json(line.as_str()) {
                        Some(j) => {
                            let ghost before = out@;
                            out.push(j);
                            assert(out@.drop_last() == before);
                        },
                        None => {},
                    }
                }
                i += 1;
            }
            assert(lv.take(ls.len() as int) == lv);
            out
        },
    }
}

/// Parse `text` into JSON records. Whole-text JSON is tried first: an
/// array yields one record per element, any other value a single record.
/// Otherwise every non-blank line is parsed on its own (JSONL), keeping the
/// lines that parse. Empty or non-JSON input yields no records.
pub fn parse_json_records(text: &str) -> (records: Vec<Json>)
    ensures
        items_view(records@) == json_records(text@),
{
    let whole = parse_json(text);
    records_of(text, whole)
}


/// A deep copy of an association list of members.
pub fn copy_fields(v: &Vec<Field>) -> (r: Vec<Field>)
    ensures
        fields_view(r@) == fields_view(v@),
{
    let mut out: Vec<Field> = Vec::new();
    let mut i: usize = 0;
    while i < v.len()
        invariant
            i <= v.len(),
            fields_view(out@) == fields_view(v@.take(i as int)),
        decreases v.len() - i,
    {
        let ghost before = out@;
        let f = Field { key: v[i].key.clone(), value: v[i].value.copy() };
        out.push(f);
        assert(out@.drop_last() == before);
        assert(v@.take(i + 1).drop_last() == v@.take(i as int));
        i += 1;
    }
    assert(v@.take(v.len() as int) == v@);
    out
}

} // verus!
