//! The data model of a parsed JSON document, its size measures, and the
//! equality of two leaf values.

use vstd::prelude::*;

verus! {

/// A parsed JSON value. A number is held as the text that `serde_json`
/// writes for it; an object holds its entries in the order the parser
/// yields them.
#[derive(Debug)]
pub enum Json {
    Null,
    Bool(bool),
    Number(String),
    String(String),
    Array(Vec<Json>),
    Object(Vec<(String, Json)>),
}

/// The mathematical value of a [`Json`].
pub enum SpecJson {
    Null,
    Bool(bool),
    Number(Seq<char>),
    String(Seq<char>),
    Array(Seq<SpecJson>),
    Object(Seq<(Seq<char>, SpecJson)>),
}

/// The mathematical value of `j`.
pub open spec fn json_view(j: &Json) -> SpecJson
    decreases j,
{
    match j {
        Json::Null => SpecJson::Null,
        Json::Bool(b) => SpecJson::Bool(*b),
        Json::Number(t) => SpecJson::Number(t@),
        Json::String(s) => SpecJson::String(s@),
        Json::Array(items) => SpecJson::Array(
            Seq::new(
                items.len() as nat,
                |i: int|
                    if 0 <= i < items.len() {
                        json_view(&items@[i])
                    } else {
                        SpecJson::Null
                    },
            ),
        ),
        Json::Object(entries) => SpecJson::Object(
            Seq::new(
                entries.len() as nat,
                |i: int|
                    if 0 <= i < entries.len() {
                        (entries@[i].0@, json_view(&entries@[i].1))
                    } else {
                        (Seq::empty(), SpecJson::Null)
                    },
            ),
        ),
    }
}

impl View for Json {
    type V = SpecJson;

    open spec fn view(&self) -> SpecJson {
        json_view(self)
    }
}


/// The values of a sequence of items.
pub open spec fn items_view(items: Seq<Json>) -> Seq<SpecJson> {
    Seq::new(items.len(), |i: int| json_view(&items[i]))
}

/// The keys and values of a sequence of object entries.
pub open spec fn entries_view(entries: Seq<(String, Json)>) -> Seq<(Seq<char>, SpecJson)> {
    Seq::new(entries.len(), |i: int| (entries[i].0@, json_view(&entries[i].1)))
}

/// The value of an array is the sequence of the values of its items.
pub broadcast proof fn lemma_array_view(items: Vec<Json>)
    ensures
        #[trigger] json_view(&Json::Array(items)) == SpecJson::Array(items_view(items@)),
{
    let a = json_view(&Json::Array(items));
    assert(a->Array_0 =~= items_view(items@));
}

/// The value of an object is the sequence of its keys and entry values.
pub broadcast proof fn lemma_object_view(entries: Vec<(String, Json)>)
    ensures
        #[trigger] json_view(&Json::Object(entries)) == SpecJson::Object(entries_view(entries@)),
{
    let o = json_view(&Json::Object(entries));
    assert(o->Object_0 =~= entries_view(entries@));
}

/// The number of values in `v`, itself and every nested value counted once.
pub open spec fn node_count(v: SpecJson) -> nat
    decreases v,
{
    match v {
        SpecJson::Array(xs) => 1 + items_node_count(xs),
        SpecJson::Object(es) => 1 + entries_node_count(es),
        _ => 1,
    }
}

/// The number of values in a sequence of items.
pub open spec fn items_node_count(xs: Seq<SpecJson>) -> nat
    decreases xs,
{
    if xs.len() == 0 {
        0
    } else {
        items_node_count(xs.subrange(0, xs.len() - 1)) + node_count(xs[xs.len() - 1])
    }
}

/// The number of values in a sequence of object entries.
pub open spec fn entries_node_count(es: Seq<(Seq<char>, SpecJson)>) -> nat
    decreases es,
{
    if es.len() == 0 {
        0
    } else {
        entries_node_count(es.subrange(0, es.len() - 1)) + node_count(es[es.len() - 1].1)
    }
}

/// How deeply `v` nests: 0 for a scalar, and for an array or object one
/// more than its deepest element (0 when it has none).
pub open spec fn height(v: SpecJson) -> nat
    decreases v,
{
    match v {
        SpecJson::Array(xs) => 1 + items_height(xs),
        SpecJson::Object(es) => 1 + entries_height(es),
        _ => 0,
    }
}

/// The greatest height of a sequence of items, 0 when it is empty.
pub open spec fn items_height(xs: Seq<SpecJson>) -> nat
    decreases xs,
{
    if xs.len() == 0 {
        0
    } else {
        let a = items_height(xs.subrange(0, xs.len() - 1));
        let b = height(xs[xs.len() - 1]);
        if a >= b { a } else { b }
    }
}

/// The greatest height of the values of a sequence of entries.
pub open spec fn entries_height(es: Seq<(Seq<char>, SpecJson)>) -> nat
    decreases es,
{
    if es.len() == 0 {
        0
    } else {
        let a = entries_height(es.subrange(0, es.len() - 1));
        let b = height(es[es.len() - 1].1);
        if a >= b { a } else { b }
    }
}

/// A prefix of a sequence of items holds at most as many values as the whole.
pub proof fn lemma_items_count_prefix(xs: Seq<SpecJson>, i: int)
    requires
        0 <= i <= xs.len(),
    ensures
        items_node_count(xs.subrange(0, i)) <= items_node_count(xs),
        i < xs.len() ==> items_node_count(xs.subrange(0, i + 1)) == items_node_count(
            xs.subrange(0, i),
        ) + node_count(xs[i]),
        i < xs.len() ==> items_height(xs.subrange(0, i + 1)) == (if items_height(
            xs.subrange(0, i),
        ) >= height(xs[i]) {
            items_height(xs.subrange(0, i))
        } else {
            height(xs[i])
        }),
    decreases xs.len() - i,
{
    if i < xs.len() {
        assert(xs.subrange(0, i + 1).subrange(0, i) =~= xs.subrange(0, i));
        lemma_items_count_prefix(xs, i + 1);
    } else {
        assert(xs.subrange(0, i) =~= xs);
    }
}

/// A prefix of a sequence of entries holds at most as many values as the whole.
pub proof fn lemma_entries_count_prefix(es: Seq<(Seq<char>, SpecJson)>, i: int)
    requires
        0 <= i <= es.len(),
    ensures
        entries_node_count(es.subrange(0, i)) <= entries_node_count(es),
        i < es.len() ==> entries_node_count(es.subrange(0, i + 1)) == entries_node_count(
            es.subrange(0, i),
        ) + node_count(es[i].1),
        i < es.len() ==> entries_height(es.subrange(0, i + 1)) == (if entries_height(
            es.subrange(0, i),
        ) >= height(es[i].1) {
            entries_height(es.subrange(0, i))
        } else {
            height(es[i].1)
        }),
    decreases es.len() - i,
{
    if i < es.len() {
        assert(es.subrange(0, i + 1).subrange(0, i) =~= es.subrange(0, i));
        lemma_entries_count_prefix(es, i + 1);
    } else {
        assert(es.subrange(0, i) =~= es);
    }
}

/// A value nests no deeper than it has values.
pub proof fn lemma_height_le_count(v: SpecJson)
    ensures
        height(v) <= node_count(v),
        node_count(v) >= 1,
    decreases v,
{
    match v {
        SpecJson::Array(xs) => lemma_items_height_le_count(xs),
        SpecJson::Object(es) => lemma_entries_height_le_count(es),
        _ => {},
    }
}

/// The deepest item of a sequence nests no deeper than the sequence has values.
pub proof fn lemma_items_height_le_count(xs: Seq<SpecJson>)
    ensures
        items_height(xs) <= items_node_count(xs),
    decreases xs,
{
    if xs.len() > 0 {
        lemma_items_height_le_count(xs.subrange(0, xs.len() - 1));
        lemma_height_le_count(xs[xs.len() - 1]);
    }
}

/// The deepest entry of a sequence nests no deeper than the sequence has values.
pub proof fn lemma_entries_height_le_count(es: Seq<(Seq<char>, SpecJson)>)
    ensures
        entries_height(es) <= entries_node_count(es),
    decreases es,
{
    if es.len() > 0 {
        lemma_entries_height_le_count(es.subrange(0, es.len() - 1));
        lemma_height_le_count(es[es.len() - 1].1);
    }
}

impl Json {
    /// A copy of this value.
    pub fn deep_clone(&self) -> (r: Json)
        ensures
            r@ == self@,
        decreases self,
    {
        broadcast use {lemma_array_view, lemma_object_view};

        match self {
            Json::Null => Json::Null,
            Json::Bool(b) => Json::Bool(*b),
            Json::Number(t) => Json::Number(t.clone()),
            Json::String(s) => Json::String(s.clone()),
            Json::Array(items) => {
                let mut out: Vec<Json> = Vec::new();
                let mut i: usize = 0;
                while i < items.len()
                    invariant
                        i <= items@.len(),
                        decreases_to!(*self => *items),
                        out@.len() == i,
                        forall|j: int| 0 <= j < i ==> json_view(&out@[j]) == json_view(&items@[j]),
                    decreases items@.len() - i,
                {
                    proof {
                        assert(decreases_to!(*items => items[i as int]));
                        assert(decreases_to!(*self => items[i as int]));
                    }
                    let c = items[i].deep_clone();
                    out.push(c);
                    i = i + 1;
                }
                assert(items_view(out@) =~= items_view(items@));
                Json::Array(out)
            },
            Json::Object(entries) => {
                let mut out: Vec<(String, Json)> = Vec::new();
                let mut i: usize = 0;
                while i < entries.len()
                    invariant
                        i <= entries@.len(),
                        decreases_to!(*self => *entries),
                        out@.len() == i,
                        forall|j: int|
                            0 <= j < i ==> out@[j].0@ == entries@[j].0@ && json_view(&out@[j].1)
                                == json_view(&entries@[j].1),
                    decreases entries@.len() - i,
                {
                    let k = entries[i].0.clone();
                    proof {
                        assert(decreases_to!(*entries => entries[i as int]));
                        assert(decreases_to!(*self => entries[i as int].1));
                    }
                    let c = entries[i].1.deep_clone();
                    out.push((k, c));
                    i = i + 1;
                }
                assert(entries_view(out@) =~= entries_view(entries@));
                Json::Object(out)
            },
        }
    }
}


/// The number of values in `value`, itself and every nested value counted
/// once.
pub fn count_nodes(value: &Json) -> (r: usize)
    requires
        node_count(value@) <= usize::MAX,
    ensures
        r == node_count(value@),
    decreases value,
{
    broadcast use {lemma_array_view, lemma_object_view};

    match value {
        Json::Array(items) => {
            let ghost xs = items_view(items@);
            let mut acc: usize = 0;
            let mut i: usize = 0;
            while i < items.len()
                invariant
                    decreases_to!(*value => *items),
                    xs == items_view(items@),
                    1 + items_node_count(xs) <= usize::MAX,
                    i <= items@.len(),
                    acc == items_node_count(xs.subrange(0, i as int)),
                decreases items@.len() - i,
            {
                proof {
                    assert(decreases_to!(*items => items[i as int]));
                    lemma_items_count_prefix(xs, i as int);
                    lemma_items_count_prefix(xs, i + 1);
                }
                let c = count_nodes(&items[i]);
                acc = acc + c;
                i = i + 1;
            }
            proof {
                assert(xs.subrange(0, i as int) =~= xs);
            }
            1 + acc
        },
        Json::Object(entries) => {
            let ghost es = entries_view(entries@);
            let mut acc: usize = 0;
            let mut i: usize = 0;
            while i < entries.len()
                invariant
                    decreases_to!(*value => *entries),
                    es == entries_view(entries@),
                    1 + entries_node_count(es) <= usize::MAX,
                    i <= entries@.len(),
                    acc == entries_node_count(es.subrange(0, i as int)),
                decreases entries@.len() - i,
            {
                proof {
                    assert(decreases_to!(*entries => entries[i as int]));
                    lemma_entries_count_prefix(es, i as int);
                    lemma_entries_count_prefix(es, i + 1);
                }
                let c = count_nodes(&entries[i].1);
                acc = acc + c;
                i = i + 1;
            }
            proof {
                assert(es.subrange(0, i as int) =~= es);
            }
            1 + acc
        },
        _ => 1,
    }
}

/// The number of values in `value` when it fits in a `usize`, `None` when
/// it does not.
pub fn node_count_checked(value: &Json) -> (r: Option<usize>)
    ensures
        node_count(value@) <= usize::MAX ==> r == Some(node_count(value@) as usize),
        node_count(value@) > usize::MAX ==> r is None,
    decreases value,
{
    broadcast use {lemma_array_view, lemma_object_view};

    match value {
        Json::Array(items) => {
            let ghost xs = items_view(items@);
            let mut acc: usize = 0;
            let mut i: usize = 0;
            while i < items.len()
                invariant
                    decreases_to!(*value => *items),
                    xs == items_view(items@),
                    value@ == SpecJson::Array(xs),
                    i <= items@.len(),
                    acc == items_node_count(xs.subrange(0, i as int)),
                decreases items@.len() - i,
            {
                proof {
                    assert(decreases_to!(*items => items[i as int]));
                    lemma_items_count_prefix(xs, i as int);
                    lemma_items_count_prefix(xs, i + 1);
                }
                match node_count_checked(&items[i]) {
                    Some(c) => match acc.checked_add(c) {
                        Some(t) => {
                            acc = t;
                        },
                        None => {
                            return None;
                        },
                    },
                    None => {
                        return None;
                    },
                }
                i = i + 1;
            }
            proof {
                assert(xs.subrange(0, i as int) =~= xs);
            }
            acc.checked_add(1)
        },
        Json::Object(entries) => {
            let ghost es = entries_view(entries@);
            let mut acc: usize = 0;
            let mut i: usize = 0;
            while i < entries.len()
                invariant
                    decreases_to!(*value => *entries),
                    es == entries_view(entries@),
                    value@ == SpecJson::Object(es),
                    i <= entries@.len(),
                    acc == entries_node_count(es.subrange(0, i as int)),
                decreases entries@.len() - i,
            {
                proof {
                    assert(decreases_to!(*entries => entries[i as int]));
                    lemma_entries_count_prefix(es, i as int);
                    lemma_entries_count_prefix(es, i + 1);
                }
                match node_count_checked(&entries[i].1) {
                    Some(c) => match acc.checked_add(c) {
                        Some(t) => {
                            acc = t;
                        },
                        None => {
                            return None;
                        },
                    },
                    None => {
                        return None;
                    },
                }
                i = i + 1;
            }
            proof {
                assert(es.subrange(0, i as int) =~= es);
            }
            acc.checked_add(1)
        },
        _ => Some(1),
    }
}

/// The depth that the viewer reports for `value` found at depth `current`:
/// `current` for a scalar, and for an array or object the greatest depth
/// of its elements found one level deeper (one level deeper itself when it
/// is empty).
pub fn max_depth(value: &Json, current: usize) -> (r: usize)
    requires
        current + height(value@) <= usize::MAX,
    ensures
        r == current + height(value@),
    decreases value,
{
    broadcast use {lemma_array_view, lemma_object_view};

    match value {
        Json::Array(items) => {
            let ghost xs = items_view(items@);
            let next = current + 1;
            let mut best: usize = next;
            let mut i: usize = 0;
            while i < items.len()
                invariant
                    decreases_to!(*value => *items),
                    xs == items_view(items@),
                    next == current + 1,
                    next + items_height(xs) <= usize::MAX,
                    i <= items@.len(),
                    best == next + items_height(xs.subrange(0, i as int)),
                decreases items@.len() - i,
            {
                proof {
                    assert(decreases_to!(*items => items[i as int]));
                    lemma_items_count_prefix(xs, i as int);
                    lemma_items_height_prefix(xs, i + 1);
                }
                let d = max_depth(&items[i], next);
                if d > best {
                    best = d;
                }
                i = i + 1;
            }
            proof {
                assert(xs.subrange(0, i as int) =~= xs);
            }
            best
        },
        Json::Object(entries) => {
            let ghost es = entries_view(entries@);
            let next = current + 1;
            let mut best: usize = next;
            let mut i: usize = 0;
            while i < entries.len()
                invariant
                    decreases_to!(*value => *entries),
                    es == entries_view(entries@),
                    next == current + 1,
                    next + entries_height(es) <= usize::MAX,
                    i <= entries@.len(),
                    best == next + entries_height(es.subrange(0, i as int)),
                decreases entries@.len() - i,
            {
                proof {
                    assert(decreases_to!(*entries => entries[i as int]));
                    lemma_entries_count_prefix(es, i as int);
                    lemma_entries_height_prefix(es, i + 1);
                }
                let d = max_depth(&entries[i].1, next);
                if d > best {
                    best = d;
                }
                i = i + 1;
            }
            proof {
                assert(es.subrange(0, i as int) =~= es);
            }
            best
        },
        _ => current,
    }
}

/// The deepest item of a prefix nests no deeper than the deepest of the whole.
pub proof fn lemma_items_height_prefix(xs: Seq<SpecJson>, i: int)
    requires
        0 <= i <= xs.len(),
    ensures
        items_height(xs.subrange(0, i)) <= items_height(xs),
        i > 0 ==> height(xs[i - 1]) <= items_height(xs),
    decreases xs.len() - i,
{
    if i < xs.len() {
        lemma_items_count_prefix(xs, i);
        lemma_items_height_prefix(xs, i + 1);
    } else {
        assert(xs.subrange(0, i) =~= xs);
        if i > 0 {
            lemma_items_count_prefix(xs, i - 1);
            assert(xs.subrange(0, i - 1 + 1) =~= xs);
        }
    }
}

/// The deepest entry of a prefix nests no deeper than the deepest of the whole.
pub proof fn lemma_entries_height_prefix(es: Seq<(Seq<char>, SpecJson)>, i: int)
    requires
        0 <= i <= es.len(),
    ensures
        entries_height(es.subrange(0, i)) <= entries_height(es),
        i > 0 ==> height(es[i - 1].1) <= entries_height(es),
    decreases es.len() - i,
{
    if i < es.len() {
        lemma_entries_count_prefix(es, i);
        lemma_entries_height_prefix(es, i + 1);
    } else {
        assert(es.subrange(0, i) =~= es);
        if i > 0 {
            lemma_entries_count_prefix(es, i - 1);
            assert(es.subrange(0, i - 1 + 1) =~= es);
        }
    }
}

/// The size figures that the viewer shows for a document.
pub struct JsonStats {
    pub nodes: usize,
    pub depth: usize,
}

impl JsonStats {
    /// The number of values in `value` and how deeply it nests.
    pub fn compute(value: &Json) -> (r: JsonStats)
        requires
            node_count(value@) <= usize::MAX,
        ensures
            r.nodes == node_count(value@),
            r.depth == height(value@),
    {
        proof {
            lemma_height_le_count(value@);
        }
        JsonStats { nodes: count_nodes(value), depth: max_depth(value, 0) }
    }
}


/// `serde_json`'s parsed value, carried through the conversion below
/// without Verus looking inside.
#[verifier::external_type_specification]
#[verifier::external_body]
pub struct ExValue(serde_json::Value);

/// No object anywhere in `v` has two entries with one key, as in every
/// value `serde_json` parses.
pub open spec fn unique_keys(v: SpecJson) -> bool
    decreases v,
{
    match v {
        SpecJson::Object(es) => {
            &&& forall|i: int, j: int| 0 <= i < j < es.len() ==> es[i].0 != es[j].0
            &&& forall|i: int| 0 <= i < es.len() ==> unique_keys(#[trigger] es[i].1)
        },
        SpecJson::Array(xs) => forall|i: int| 0 <= i < xs.len() ==> unique_keys(#[trigger] xs[i]),
        _ => true,
    }
}

/// What `serde_json::from_str::<serde_json::Value>` makes of `text`, taken
/// into this model: the value (numbers as `serde_json` writes them, object
/// entries in the order its map yields them), or the error's message.
pub uninterp spec fn parsed_document(text: Seq<char>) -> Result<SpecJson, Seq<char>>;

/// Moves a `serde_json::Value` into this model, one variant for one; a
/// number becomes the text `serde_json` writes for it. Only
/// [`parse_document`] uses it, and nothing is claimed of it on its own.
#[verifier::external_body]
fn json_of_value(v: &serde_json::Value) -> Json {
    match v {
        serde_json::Value::Null => Json::Null,
        serde_json::Value::Bool(b) => Json::Bool(*b),
        serde_json::Value::Number(n) => Json::Number(n.to_string()),
        serde_json::Value::String(t) => Json::String(t.clone()),
        serde_json::Value::Array(items) => Json::Array(items.iter().map(json_of_value).collect()),
        serde_json::Value::Object(map) => Json::Object(
            map.iter().map(|(k, x)| (k.clone(), json_of_value(x))).collect(),
        ),
    }
}

/// Moves a value of this model into a `serde_json::Value`, one variant for
/// one; a number text goes through `serde_json::Number`'s `FromStr` (a text
/// that does not parse becomes `null`). Only [`value_display`] uses it, and
/// nothing is claimed of it on its own.
#[verifier::external_body]
fn value_of_json(v: &Json) -> serde_json::Value {
    match v {
        Json::Null => serde_json::Value::Null,
        Json::Bool(b) => serde_json::Value::Bool(*b),
        Json::Number(t) => t.parse::<serde_json::Number>().map(serde_json::Value::Number).unwrap_or(serde_json::Value::Null),
        Json::String(t) => serde_json::Value::String(t.clone()),
        Json::Array(items) => serde_json::Value::Array(items.iter().map(value_of_json).collect()),
        Json::Object(es) => serde_json::Value::Object(es.iter().map(|(k, x)| (k.clone(), value_of_json(x))).collect()),
    }
}

/// The compact text that `serde_json::Value`'s `Display` writes for `v`.
pub uninterp spec fn displayed_value(v: SpecJson) -> Seq<char>;

/// Moves `v` into a `serde_json::Value` and writes it with that type's
/// `Display` (compact JSON). The contract names the text: it is a function
/// of `v` alone.
#[verifier::external_body]
pub(crate) fn value_display(v: &Json) -> (r: String)
    ensures
        r@ == displayed_value(v@),
{
    value_of_json(v).to_string()
}

/// Calls `serde_json::from_str::<serde_json::Value>` on `text` and moves
/// the result into this model, or gives the error's `Display` text. The
/// contract names the outcome: it is a function of `text` alone. It also
/// claims that no parsed object holds one key twice: `serde_json::Map` is a
/// `BTreeMap` (an `IndexMap` under `preserve_order`) keyed by `String`.
#[verifier::external_body]
pub fn parse_document(text: &str) -> (r: Result<Json, String>)
    ensures
        match r {
            Ok(v) => parsed_document(text@) == Ok::<SpecJson, Seq<char>>(v@) && unique_keys(v@),
            Err(e) => parsed_document(text@) == Err::<SpecJson, Seq<char>>(e@),
        },
{
    match serde_json::from_str::<serde_json::Value>(text) {
        Ok(v) => Ok(json_of_value(&v)),
        Err(e) => Err(e.to_string()),
    }
}

/// Whether `serde_json` holds the numbers that it writes as `a` and `b` to
/// be equal (an integer never equals a float; `0.0` equals `-0.0`).
pub uninterp spec fn number_text_eq(a: Seq<char>, b: Seq<char>) -> bool;

/// Calls `serde_json::Number`'s `FromStr` on both texts and compares the
/// two numbers with `serde_json::Number`'s `==`; a text that does not parse
/// as a number equals nothing. The contract only names the result.
#[verifier::external_body]
fn numbers_equal(a: &str, b: &str) -> (r: bool)
    ensures
        r == number_text_eq(a@, b@),
{
    match (a.parse::<serde_json::Number>(), b.parse::<serde_json::Number>()) {
        (Ok(x), Ok(y)) => x == y,
        _ => false,
    }
}

/// Two number texts stand for equal numbers: the texts are the same
/// (`serde_json` writes one text for one value, and a value equals itself),
/// or `serde_json`'s `==` holds of the numbers they parse to, asked in
/// either order (that `==` is symmetric, so asking both ways changes no
/// answer and gives the comparison its symmetry by construction).
pub open spec fn number_eq(a: Seq<char>, b: Seq<char>) -> bool {
    a == b || number_text_eq(a, b) || number_text_eq(b, a)
}

/// The equality of two values of which at most one is an array and at most
/// one is an object: scalars of one kind compare by content, and values of
/// different kinds differ.
pub open spec fn leaf_eq(a: SpecJson, b: SpecJson) -> bool {
    match (a, b) {
        (SpecJson::Null, SpecJson::Null) => true,
        (SpecJson::Bool(x), SpecJson::Bool(y)) => x == y,
        (SpecJson::Number(x), SpecJson::Number(y)) => number_eq(x, y),
        (SpecJson::String(x), SpecJson::String(y)) => x == y,
        _ => false,
    }
}

/// Whether `a` and `b`, of which at most one is an array and at most one an
/// object, are equal values.
pub fn leaf_equal(a: &Json, b: &Json) -> (r: bool)
    ensures
        r == leaf_eq(a@, b@),
{
    match (a, b) {
        (Json::Null, Json::Null) => true,
        (Json::Bool(x), Json::Bool(y)) => *x == *y,
        (Json::Number(x), Json::Number(y)) => {
            *x == *y || numbers_equal(x.as_str(), y.as_str()) || numbers_equal(y.as_str(), x.as_str())
        },
        (Json::String(x), Json::String(y)) => *x == *y,
        (Json::Array(_), _) => {
            proof { broadcast use lemma_array_view; }
            false
        },
        (Json::Object(_), _) => {
            proof { broadcast use lemma_object_view; }
            false
        },
        (_, Json::Array(_)) => {
            proof { broadcast use lemma_array_view; }
            false
        },
        (_, Json::Object(_)) => {
            proof { broadcast use lemma_object_view; }
            false
        },
        _ => false,
    }
}


/// The deepest of some items is at least as deep as each of them and, when
/// there is one, as deep as one of them.
proof fn lemma_items_height_max(xs: Seq<SpecJson>)
    ensures
        forall|i: int| 0 <= i < xs.len() ==> height(#[trigger] xs[i]) <= items_height(xs),
        xs.len() == 0 ==> items_height(xs) == 0,
        xs.len() > 0 ==> exists|i: int| 0 <= i < xs.len() && height(#[trigger] xs[i]) == items_height(xs),
    decreases xs.len(),
{
    if xs.len() > 0 {
        let p = xs.subrange(0, xs.len() - 1);
        lemma_items_height_max(p);
        assert forall|i: int| 0 <= i < xs.len() implies height(#[trigger] xs[i]) <= items_height(xs) by {
            if i < xs.len() - 1 {
                assert(p[i] == xs[i]);
            }
        }
        if p.len() > 0 && items_height(p) >= height(xs[xs.len() - 1]) {
            let w = choose|w: int| 0 <= w < p.len() && height(#[trigger] p[w]) == items_height(p);
            assert(p[w] == xs[w]);
        } else {
            assert(height(xs[xs.len() - 1]) == items_height(xs));
        }
    }
}

/// The same for the values of object entries.
proof fn lemma_entries_height_max(es: Seq<(Seq<char>, SpecJson)>)
    ensures
        forall|i: int| 0 <= i < es.len() ==> height(#[trigger] es[i].1) <= entries_height(es),
        es.len() == 0 ==> entries_height(es) == 0,
        es.len() > 0 ==> exists|i: int| 0 <= i < es.len() && height(#[trigger] es[i].1) == entries_height(es),
    decreases es.len(),
{
    if es.len() > 0 {
        let p = es.subrange(0, es.len() - 1);
        lemma_entries_height_max(p);
        assert forall|i: int| 0 <= i < es.len() implies height(#[trigger] es[i].1) <= entries_height(es) by {
            if i < es.len() - 1 {
                assert(p[i] == es[i]);
            }
        }
        if p.len() > 0 && entries_height(p) >= height(es[es.len() - 1].1) {
            let w = choose|w: int| 0 <= w < p.len() && height(#[trigger] p[w].1) == entries_height(p);
            assert(p[w] == es[w]);
        } else {
            assert(height(es[es.len() - 1].1) == entries_height(es));
        }
    }
}

/// The depth of an array: it is deeper than each of its items; an empty array has depth 1; and a non-empty one is
/// exactly one deeper than its deepest item.
pub proof fn lemma_array_depth(xs: Seq<SpecJson>)
    ensures
        forall|i: int| 0 <= i < xs.len() ==> height(#[trigger] xs[i]) < height(SpecJson::Array(xs)),
        xs.len() == 0 ==> height(SpecJson::Array(xs)) == 1,
        xs.len() > 0 ==> exists|i: int| 0 <= i < xs.len() && height(#[trigger] xs[i]) + 1 == height(SpecJson::Array(xs)),
{
    lemma_items_height_max(xs);
}

/// The depth of an object, as for an array, over the values of its entries.
pub proof fn lemma_object_depth(es: Seq<(Seq<char>, SpecJson)>)
    ensures
        forall|i: int| 0 <= i < es.len() ==> height(#[trigger] es[i].1) < height(SpecJson::Object(es)),
        es.len() == 0 ==> height(SpecJson::Object(es)) == 1,
        es.len() > 0 ==> exists|i: int| 0 <= i < es.len() && height(#[trigger] es[i].1) + 1 == height(SpecJson::Object(es)),
{
    lemma_entries_height_max(es);
}

/// A scalar nests nothing and is one value.
pub proof fn lemma_scalar_figures(v: SpecJson)
    requires
        !(v is Array),
        !(v is Object),
    ensures
        height(v) == 0,
        node_count(v) == 1,
{
}

/// Counting values: an empty array or object is one value, and appending
/// an item or entry adds the values in it.
pub proof fn lemma_count_append(xs: Seq<SpecJson>, x: SpecJson, es: Seq<(Seq<char>, SpecJson)>, e: (Seq<char>, SpecJson))
    ensures
        node_count(SpecJson::Array(Seq::empty())) == 1,
        node_count(SpecJson::Object(Seq::empty())) == 1,
        node_count(SpecJson::Array(xs.push(x))) == node_count(SpecJson::Array(xs)) + node_count(x),
        node_count(SpecJson::Object(es.push(e))) == node_count(SpecJson::Object(es)) + node_count(e.1),
{
    assert(xs.push(x).subrange(0, xs.len() as int) =~= xs);
    assert(es.push(e).subrange(0, es.len() as int) =~= es);
}

} // verus!
