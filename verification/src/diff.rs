//! The structural comparison of two JSON documents. Two objects are compared
//! key by key (the keys of the new object first, in its order, then the keys
//! that only the old one has), two arrays index by index, and any other two
//! values as leaves: unchanged when equal, changed otherwise.

use vstd::prelude::*;
use crate::json::{
    Json, SpecJson, entries_view, items_view, leaf_eq, leaf_equal, lemma_array_view,
    lemma_object_view, unique_keys, displayed_value, value_display, number_text_eq,
};
use crate::text::{decimal, usize_to_string};
use crate::tree::key_view;

verus! {

/// One node of the comparison of two documents. (`Unchaged` is the name
/// the viewer has always used for an unchanged leaf.)
#[derive(Debug)]
pub enum DiffNode {
    Unchaged { key: Option<String>, value: Json },
    Added { key: Option<String>, value: Json },
    Removed { key: Option<String>, value: Json },
    Changed { key: Option<String>, old: Json, new: Json },
    Object { key: Option<String>, children: Vec<DiffNode> },
    Array { key: Option<String>, children: Vec<DiffNode> },
}

/// The mathematical value of a [`DiffNode`].
pub enum SpecDiff {
    Unchaged { key: Option<Seq<char>>, value: SpecJson },
    Added { key: Option<Seq<char>>, value: SpecJson },
    Removed { key: Option<Seq<char>>, value: SpecJson },
    Changed { key: Option<Seq<char>>, old: SpecJson, new: SpecJson },
    Object { key: Option<Seq<char>>, children: Seq<SpecDiff> },
    Array { key: Option<Seq<char>>, children: Seq<SpecDiff> },
}

/// The characters of an optional key.
pub open spec fn opt_string_view(key: &Option<String>) -> Option<Seq<char>> {
    match key {
        Some(k) => Some(k@),
        None => None,
    }
}

/// The mathematical value of `d`.
pub open spec fn diff_view(d: &DiffNode) -> SpecDiff
    decreases d,
{
    match d {
        DiffNode::Unchaged { key, value } => SpecDiff::Unchaged {
            key: opt_string_view(key),
            value: value@,
        },
        DiffNode::Added { key, value } => SpecDiff::Added { key: opt_string_view(key), value: value@ },
        DiffNode::Removed { key, value } => SpecDiff::Removed {
            key: opt_string_view(key),
            value: value@,
        },
        DiffNode::Changed { key, old, new } => SpecDiff::Changed {
            key: opt_string_view(key),
            old: old@,
            new: new@,
        },
        DiffNode::Object { key, children } => SpecDiff::Object {
            key: opt_string_view(key),
            children: Seq::new(
                children.len() as nat,
                |i: int|
                    if 0 <= i < children.len() {
                        diff_view(&children@[i])
                    } else {
                        SpecDiff::Unchaged { key: None, value: SpecJson::Null }
                    },
            ),
        },
        DiffNode::Array { key, children } => SpecDiff::Array {
            key: opt_string_view(key),
            children: Seq::new(
                children.len() as nat,
                |i: int|
                    if 0 <= i < children.len() {
                        diff_view(&children@[i])
                    } else {
                        SpecDiff::Unchaged { key: None, value: SpecJson::Null }
                    },
            ),
        },
    }
}

impl View for DiffNode {
    type V = SpecDiff;

    open spec fn view(&self) -> SpecDiff {
        diff_view(self)
    }
}

/// The values of a sequence of diff nodes.
pub open spec fn diffs_view(ns: Seq<DiffNode>) -> Seq<SpecDiff> {
    Seq::new(ns.len(), |i: int| diff_view(&ns[i]))
}

/// The value of an object node is made of its key and its children's values.
pub broadcast proof fn lemma_object_diff_view(key: Option<String>, children: Vec<DiffNode>)
    ensures
        #[trigger] diff_view(&DiffNode::Object { key, children }) == (SpecDiff::Object {
            key: opt_string_view(&key),
            children: diffs_view(children@),
        }),
{
    let d = diff_view(&DiffNode::Object { key, children });
    assert(d->Object_children =~= diffs_view(children@));
}

/// The value of an array node is made of its key and its children's values.
pub broadcast proof fn lemma_array_diff_view(key: Option<String>, children: Vec<DiffNode>)
    ensures
        #[trigger] diff_view(&DiffNode::Array { key, children }) == (SpecDiff::Array {
            key: opt_string_view(&key),
            children: diffs_view(children@),
        }),
{
    let d = diff_view(&DiffNode::Array { key, children });
    assert(d->Array_children =~= diffs_view(children@));
}

/// `i` is the position of the first entry of `es` with key `k`.
pub open spec fn is_first_key(es: Seq<(Seq<char>, SpecJson)>, k: Seq<char>, i: int) -> bool {
    &&& 0 <= i < es.len()
    &&& es[i].0 == k
    &&& forall|j: int| 0 <= j < i ==> es[j].0 != k
}

/// Some entry of `es` has key `k`.
pub open spec fn has_key(es: Seq<(Seq<char>, SpecJson)>, k: Seq<char>) -> bool {
    exists|i: int| 0 <= i < es.len() && es[i].0 == k
}

/// The position of the entry that a map lookup of `k` in `es` finds (the
/// first with that key), or -1 when there is none.
pub open spec fn key_index(es: Seq<(Seq<char>, SpecJson)>, k: Seq<char>) -> int {
    if exists|i: int| is_first_key(es, k, i) {
        choose|i: int| is_first_key(es, k, i)
    } else {
        -1
    }
}

/// The keys of `es`, in order.
pub open spec fn keys_of(es: Seq<(Seq<char>, SpecJson)>) -> Seq<Seq<char>> {
    Seq::new(es.len(), |i: int| es[i].0)
}

/// The keys of `old`, in order, that `new` does not have.
pub open spec fn removed_keys(old: Seq<(Seq<char>, SpecJson)>, new: Seq<(Seq<char>, SpecJson)>) -> Seq<Seq<char>>
    decreases old.len(),
{
    if old.len() == 0 {
        Seq::empty()
    } else {
        let p = removed_keys(old.subrange(0, old.len() - 1), new);
        let k = old[old.len() - 1].0;
        if has_key(new, k) {
            p
        } else {
            p.push(k)
        }
    }
}

/// The keys that the comparison of two objects visits: those of the new
/// object in its order, then those that only the old object has.
pub open spec fn diff_keys(old: Seq<(Seq<char>, SpecJson)>, new: Seq<(Seq<char>, SpecJson)>) -> Seq<Seq<char>> {
    keys_of(new) + removed_keys(old, new)
}

/// The comparison of the values `old` and `new` found under `key`.
pub open spec fn diff_of(key: Option<Seq<char>>, old: SpecJson, new: SpecJson) -> SpecDiff
    decreases old,
{
    match (old, new) {
        (SpecJson::Object(oe), SpecJson::Object(ne)) => {
            let ks = diff_keys(oe, ne);
            SpecDiff::Object {
                key: key,
                children: Seq::new(
                    ks.len(),
                    |i: int|
                        {
                            let k = ks[i];
                            let jo = key_index(oe, k);
                            let jn = key_index(ne, k);
                            if 0 <= jo < oe.len() && 0 <= jn < ne.len() {
                                diff_of(Some(k), oe[jo].1, ne[jn].1)
                            } else if 0 <= jo < oe.len() {
                                SpecDiff::Removed { key: Some(k), value: oe[jo].1 }
                            } else {
                                SpecDiff::Added { key: Some(k), value: ne[jn].1 }
                            }
                        },
                ),
            }
        },
        (SpecJson::Array(oa), SpecJson::Array(na)) => {
            let n = if oa.len() >= na.len() { oa.len() } else { na.len() };
            SpecDiff::Array {
                key: key,
                children: Seq::new(
                    n,
                    |i: int|
                        if 0 <= i < oa.len() && i < na.len() {
                            diff_of(Some(decimal(i as nat)), oa[i], na[i])
                        } else if 0 <= i < oa.len() {
                            SpecDiff::Removed { key: Some(decimal(i as nat)), value: oa[i] }
                        } else {
                            SpecDiff::Added { key: Some(decimal(i as nat)), value: na[i] }
                        },
                ),
            }
        },
        _ => if leaf_eq(old, new) {
            SpecDiff::Unchaged { key: key, value: new }
        } else {
            SpecDiff::Changed { key: key, old: old, new: new }
        },
    }
}


/// The comparison node for the key `k` of two objects with entries `oe`
/// and `ne`.
pub open spec fn object_child(k: Seq<char>, oe: Seq<(Seq<char>, SpecJson)>, ne: Seq<(Seq<char>, SpecJson)>) -> SpecDiff {
    let jo = key_index(oe, k);
    let jn = key_index(ne, k);
    if 0 <= jo < oe.len() && 0 <= jn < ne.len() {
        diff_of(Some(k), oe[jo].1, ne[jn].1)
    } else if 0 <= jo < oe.len() {
        SpecDiff::Removed { key: Some(k), value: oe[jo].1 }
    } else {
        SpecDiff::Added { key: Some(k), value: ne[jn].1 }
    }
}

/// The comparison nodes of two objects, one per key of [`diff_keys`].
pub open spec fn object_children(oe: Seq<(Seq<char>, SpecJson)>, ne: Seq<(Seq<char>, SpecJson)>) -> Seq<SpecDiff> {
    let ks = diff_keys(oe, ne);
    Seq::new(ks.len(), |i: int| object_child(ks[i], oe, ne))
}

/// The comparison node for the index `i` of two arrays `oa` and `na`.
pub open spec fn array_child(i: int, oa: Seq<SpecJson>, na: Seq<SpecJson>) -> SpecDiff {
    if i < oa.len() && i < na.len() {
        diff_of(Some(decimal(i as nat)), oa[i], na[i])
    } else if i < oa.len() {
        SpecDiff::Removed { key: Some(decimal(i as nat)), value: oa[i] }
    } else {
        SpecDiff::Added { key: Some(decimal(i as nat)), value: na[i] }
    }
}

/// The comparison nodes of two arrays, one per index of the longer.
pub open spec fn array_children(oa: Seq<SpecJson>, na: Seq<SpecJson>) -> Seq<SpecDiff> {
    let n = if oa.len() >= na.len() { oa.len() } else { na.len() };
    Seq::new(n, |i: int| array_child(i, oa, na))
}

/// The comparison of two objects is made of the comparisons of their keys.
pub broadcast proof fn lemma_diff_objects(
    key: Option<Seq<char>>,
    oe: Seq<(Seq<char>, SpecJson)>,
    ne: Seq<(Seq<char>, SpecJson)>,
)
    ensures
        #[trigger] diff_of(key, SpecJson::Object(oe), SpecJson::Object(ne)) == (SpecDiff::Object {
            key: key,
            children: object_children(oe, ne),
        }),
{
    let d = diff_of(key, SpecJson::Object(oe), SpecJson::Object(ne));
    assert(d->Object_children =~= object_children(oe, ne));
}

/// The comparison of two arrays is made of the comparisons of their indexes.
pub broadcast proof fn lemma_diff_arrays(key: Option<Seq<char>>, oa: Seq<SpecJson>, na: Seq<SpecJson>)
    ensures
        #[trigger] diff_of(key, SpecJson::Array(oa), SpecJson::Array(na)) == (SpecDiff::Array {
            key: key,
            children: array_children(oa, na),
        }),
{
    let d = diff_of(key, SpecJson::Array(oa), SpecJson::Array(na));
    assert(d->Array_children =~= array_children(oa, na));
}

/// There is only one first entry with a given key.
proof fn lemma_first_key_unique(es: Seq<(Seq<char>, SpecJson)>, k: Seq<char>, i: int)
    requires
        is_first_key(es, k, i),
    ensures
        key_index(es, k) == i,
{
    let c = choose|c: int| is_first_key(es, k, c);
    assert(is_first_key(es, k, c));
    if c < i {
        assert(es[c].0 == k);
    } else if i < c {
        assert(es[i].0 == k);
    }
}

/// The position of the first entry of `es` whose key is `k`.
fn find_key(es: &Vec<(String, Json)>, k: &String) -> (r: Option<usize>)
    ensures
        match r {
            Some(j) => is_first_key(entries_view(es@), k@, j as int) && key_index(
                entries_view(es@),
                k@,
            ) == j,
            None => !has_key(entries_view(es@), k@) && key_index(entries_view(es@), k@) == -1,
        },
{
    let ghost ev = entries_view(es@);
    let mut i: usize = 0;
    while i < es.len()
        invariant
            ev == entries_view(es@),
            i <= es@.len(),
            forall|j: int| 0 <= j < i ==> ev[j].0 != k@,
        decreases es@.len() - i,
    {
        if es[i].0 == *k {
            proof {
                lemma_first_key_unique(ev, k@, i as int);
            }
            return Some(i);
        }
        i = i + 1;
    }
    proof {
        assert(!has_key(ev, k@));
        if exists|c: int| is_first_key(ev, k@, c) {
            let c = choose|c: int| is_first_key(ev, k@, c);
            assert(ev[c].0 == k@);
        }
    }
    None
}

/// The key text of an optional key.
fn key_string(key: Option<&str>) -> (r: Option<String>)
    ensures
        opt_string_view(&r) == key_view(key),
{
    match key {
        Some(s) => Some(String::from_str(s)),
        None => None,
    }
}

/// The comparison of the document `old` with the document `new`.
pub fn compute_diff(old: &Json, new: &Json) -> (r: DiffNode)
    ensures
        r@ == diff_of(None, old@, new@),
{
    diff_values(None, old, new)
}

/// The comparison of the values `old` and `new` found under `key`.
fn diff_values(key: Option<&str>, old: &Json, new: &Json) -> (r: DiffNode)
    ensures
        r@ == diff_of(key_view(key), old@, new@),
    decreases old, 1nat,
{
    broadcast use {
        lemma_array_view,
        lemma_object_view,
        lemma_object_diff_view,
        lemma_array_diff_view,
        lemma_diff_objects,
        lemma_diff_arrays,
    };

    let k = key_string(key);
    match (old, new) {
        (Json::Object(old_map), Json::Object(new_map)) => {
            let children = diff_objects(old_map, new_map);
            DiffNode::Object { key: k, children }
        },
        (Json::Array(old_arr), Json::Array(new_arr)) => {
            let children = diff_arrays(old_arr, new_arr);
            DiffNode::Array { key: k, children }
        },
        _ => {
            proof {
                assert(!(old@ is Object && new@ is Object));
                assert(!(old@ is Array && new@ is Array));
            }
            if leaf_equal(old, new) {
                DiffNode::Unchaged { key: k, value: new.deep_clone() }
            } else {
                DiffNode::Changed { key: k, old: old.deep_clone(), new: new.deep_clone() }
            }
        },
    }
}

/// The comparison nodes of two arrays.
fn diff_arrays(old_arr: &Vec<Json>, new_arr: &Vec<Json>) -> (r: Vec<DiffNode>)
    ensures
        diffs_view(r@) == array_children(items_view(old_arr@), items_view(new_arr@)),
    decreases old_arr, 0nat,
{
    let ghost oa = items_view(old_arr@);
    let ghost na = items_view(new_arr@);
    let ghost ch = array_children(oa, na);
    let max_len = if old_arr.len() >= new_arr.len() { old_arr.len() } else { new_arr.len() };
    let mut children: Vec<DiffNode> = Vec::new();
    let mut i: usize = 0;
    while i < max_len
        invariant
            oa == items_view(old_arr@),
            na == items_view(new_arr@),
            ch == array_children(oa, na),
            max_len == ch.len(),
            max_len == old_arr@.len() || max_len == new_arr@.len(),
            old_arr@.len() <= max_len && new_arr@.len() <= max_len,
            i <= max_len,
            children@.len() == i,
            diffs_view(children@) == ch.subrange(0, i as int),
        decreases max_len - i,
    {
        let idx = usize_to_string(i);
        let ghost before = children@;
        if i < old_arr.len() && i < new_arr.len() {
            proof {
                assert(decreases_to!(*old_arr => old_arr[i as int]));
            }
            let c = diff_values(Some(idx.as_str()), &old_arr[i], &new_arr[i]);
            proof {
                assert(c@ == ch[i as int]);
            }
            children.push(c);
        } else if i < old_arr.len() {
            let c = DiffNode::Removed { key: Some(idx), value: old_arr[i].deep_clone() };
            proof {
                assert(c@ == ch[i as int]);
            }
            children.push(c);
        } else {
            let c = DiffNode::Added { key: Some(idx), value: new_arr[i].deep_clone() };
            proof {
                assert(c@ == ch[i as int]);
            }
            children.push(c);
        }
        proof {
            assert(diff_view(&children@[i as int]) == ch[i as int]);
            assert(diffs_view(children@) =~= ch.subrange(0, i + 1));
        }
        i = i + 1;
    }
    proof {
        assert(ch.subrange(0, i as int) =~= ch);
    }
    children
}

/// The comparison nodes of two objects.
fn diff_objects(old_map: &Vec<(String, Json)>, new_map: &Vec<(String, Json)>) -> (r: Vec<DiffNode>)
    ensures
        diffs_view(r@) == object_children(entries_view(old_map@), entries_view(new_map@)),
    decreases old_map, 0nat,
{
    let ghost oe = entries_view(old_map@);
    let ghost ne = entries_view(new_map@);
    let ghost ks = diff_keys(oe, ne);
    // collect all keys from both sides: the new object's order is
    // authoritative, then the keys that only the old object has
    let mut all_keys: Vec<&String> = Vec::new();
    let mut i: usize = 0;
    while i < new_map.len()
        invariant
            ne == entries_view(new_map@),
            i <= new_map@.len(),
            all_keys@.len() == i,
            forall|j: int| 0 <= j < i ==> (#[trigger] all_keys@[j])@ == keys_of(ne)[j],
        decreases new_map@.len() - i,
    {
        all_keys.push(&new_map[i].0);
        i = i + 1;
    }
    let mut i: usize = 0;
    while i < old_map.len()
        invariant
            oe == entries_view(old_map@),
            ne == entries_view(new_map@),
            i <= old_map@.len(),
            all_keys@.len() == ne.len() + removed_keys(oe.subrange(0, i as int), ne).len(),
            forall|j: int| 0 <= j < ne.len() ==> (#[trigger] all_keys@[j])@ == keys_of(ne)[j],
            forall|j: int|
                ne.len() <= j < all_keys@.len() ==> (#[trigger] all_keys@[j])@ == removed_keys(
                    oe.subrange(0, i as int),
                    ne,
                )[j - ne.len()],
        decreases old_map@.len() - i,
    {
        proof {
            assert(oe.subrange(0, i + 1).subrange(0, i as int) =~= oe.subrange(0, i as int));
        }
        if find_key(new_map, &old_map[i].0).is_none() {
            all_keys.push(&old_map[i].0);
        }
        i = i + 1;
    }
    proof {
        assert(oe.subrange(0, i as int) =~= oe);
        lemma_removed_keys_from_old(oe, ne);
    }
    let mut children: Vec<DiffNode> = Vec::new();
    let mut i: usize = 0;
    while i < all_keys.len()
        invariant
            oe == entries_view(old_map@),
            ne == entries_view(new_map@),
            ks == diff_keys(oe, ne),
            all_keys@.len() == ks.len(),
            forall|j: int| 0 <= j < ks.len() ==> (#[trigger] all_keys@[j])@ == ks[j],
            forall|j: int| 0 <= j < ks.len() ==> has_key(oe, #[trigger] ks[j]) || has_key(ne, ks[j]),
            i <= ks.len(),
            children@.len() == i,
            diffs_view(children@) == object_children(oe, ne).subrange(0, i as int),
        decreases ks.len() - i,
    {
        let key = all_keys[i];
        proof {
            assert(key@ == ks[i as int]);
        }
        match (find_key(old_map, key), find_key(new_map, key)) {
            (Some(jo), Some(jn)) => {
                proof {
                    assert(decreases_to!(*old_map => old_map[jo as int]));
                }
                let c = diff_values(Some(key.as_str()), &old_map[jo].1, &new_map[jn].1);
                children.push(c);
            },
            (Some(jo), None) => {
                children.push(DiffNode::Removed { key: Some(key.clone()), value: old_map[jo].1.deep_clone() });
            },
            (None, Some(jn)) => {
                children.push(DiffNode::Added { key: Some(key.clone()), value: new_map[jn].1.deep_clone() });
            },
            (None, None) => {
                proof {
                    assert(has_key(oe, ks[i as int]) || has_key(ne, ks[i as int]));
                    assert(false);
                }
            },
        }
        proof {
            assert(diff_view(&children@[i as int]) == object_children(oe, ne)[i as int]);
            assert(diffs_view(children@) =~= object_children(oe, ne).subrange(0, i + 1));
        }
        i = i + 1;
    }
    proof {
        assert(object_children(oe, ne).subrange(0, i as int) =~= object_children(oe, ne));
    }
    children
}

/// Every key that only the old object is listed for is a key of the old
/// object and not of the new one.
proof fn lemma_removed_keys_from_old(oe: Seq<(Seq<char>, SpecJson)>, ne: Seq<(Seq<char>, SpecJson)>)
    ensures
        forall|j: int|
            0 <= j < removed_keys(oe, ne).len() ==> has_key(oe, #[trigger] removed_keys(oe, ne)[j])
                && !has_key(ne, removed_keys(oe, ne)[j]),
        forall|j: int| 0 <= j < diff_keys(oe, ne).len() ==> has_key(oe, #[trigger] diff_keys(oe, ne)[j]) || has_key(ne, diff_keys(oe, ne)[j]),
    decreases oe.len(),
{
    if oe.len() > 0 {
        let p = oe.subrange(0, oe.len() - 1);
        lemma_removed_keys_from_old(p, ne);
        assert forall|j: int|
            0 <= j < removed_keys(oe, ne).len() implies has_key(oe, #[trigger] removed_keys(oe, ne)[j])
                && !has_key(ne, removed_keys(oe, ne)[j]) by {
            let r = removed_keys(p, ne);
            if j < r.len() {
                let k = r[j];
                assert(has_key(p, k));
                let w = choose|w: int| 0 <= w < p.len() && p[w].0 == k;
                assert(oe[w].0 == k);
            } else {
                assert(oe[oe.len() - 1].0 == removed_keys(oe, ne)[j]);
            }
        }
    }
    let ks = diff_keys(oe, ne);
    assert forall|j: int| 0 <= j < ks.len() implies has_key(oe, #[trigger] ks[j]) || has_key(ne, ks[j]) by {
        if j < ne.len() {
            assert(ne[j].0 == ks[j]);
        } else {
            assert(ks[j] == removed_keys(oe, ne)[j - ne.len()]);
        }
    }
}


/// The label of a tree row: `key: suffix` when there is a key, `suffix`
/// alone when there is none.
pub open spec fn key_prefix_spec(key: Option<Seq<char>>, suffix: Seq<char>) -> Seq<char> {
    match key {
        Some(k) => k + ": "@ + suffix,
        None => suffix,
    }
}

/// The label of a tree row: `key: suffix`, or `suffix` without a key.
pub fn key_prefix(key: &Option<String>, suffix: &str) -> (r: String)
    ensures
        r@ == key_prefix_spec(opt_string_view(key), suffix@),
{
    match key {
        Some(k) => {
            let mut s = k.clone();
            s.append(": ");
            s.append(suffix);
            s
        },
        None => String::from_str(suffix),
    }
}

/// Nothing in `d` was added, removed or changed.
pub open spec fn no_changes(d: SpecDiff) -> bool
    decreases d,
{
    match d {
        SpecDiff::Unchaged { .. } => true,
        SpecDiff::Object { children, .. } => forall|i: int|
            0 <= i < children.len() ==> no_changes(#[trigger] children[i]),
        SpecDiff::Array { children, .. } => forall|i: int|
            0 <= i < children.len() ==> no_changes(#[trigger] children[i]),
        _ => false,
    }
}

/// `serde_json`'s equality of two values: objects with the same keys whose
/// values under each key are equal (a lookup takes the first entry with a
/// key), arrays of the same length with equal items, and leaves by
/// [`leaf_eq`] (so numbers compare as `serde_json` numbers).
pub open spec fn json_eq(a: SpecJson, b: SpecJson) -> bool
    decreases a,
{
    match (a, b) {
        (SpecJson::Object(oe), SpecJson::Object(ne)) => {
            &&& forall|k: Seq<char>| #[trigger] has_key(oe, k) == has_key(ne, k)
            &&& forall|k: Seq<char>|
                #[trigger] has_key(ne, k) ==> {
                    let jo = key_index(oe, k);
                    let jn = key_index(ne, k);
                    if 0 <= jo < oe.len() && 0 <= jn < ne.len() {
                        json_eq(oe[jo].1, ne[jn].1)
                    } else {
                        false
                    }
                }
        },
        (SpecJson::Array(oa), SpecJson::Array(na)) => {
            &&& oa.len() == na.len()
            &&& forall|i: int| 0 <= i < oa.len() ==> json_eq(#[trigger] oa[i], na[i])
        },
        _ => leaf_eq(a, b),
    }
}

/// The comparison of two documents shows no change anywhere exactly when
/// the two are equal as `serde_json` values.
pub proof fn lemma_no_changes_iff_equal(key: Option<Seq<char>>, a: SpecJson, b: SpecJson)
    ensures
        no_changes(diff_of(key, a, b)) == json_eq(a, b),
    decreases a, 1nat,
{
    match (a, b) {
        (SpecJson::Object(oe), SpecJson::Object(ne)) => {
            lemma_diff_objects(key, oe, ne);
            lemma_objects_no_changes_iff_equal(oe, ne);
            let d = diff_of(key, a, b);
            let ch = object_children(oe, ne);
            assert(d == SpecDiff::Object { key: key, children: ch });
            if forall|i: int| 0 <= i < ch.len() ==> no_changes(#[trigger] ch[i]) {
                assert(no_changes(d));
            }
            if no_changes(d) {
                assert forall|i: int| 0 <= i < ch.len() implies no_changes(#[trigger] ch[i]) by {
                    assert(d->Object_children == ch);
                    assert(d->Object_children[i] == ch[i]);
                }
            }
        },
        (SpecJson::Array(oa), SpecJson::Array(na)) => {
            lemma_diff_arrays(key, oa, na);
            lemma_arrays_no_changes_iff_equal(oa, na);
            let d = diff_of(key, a, b);
            assert(no_changes(d) == (forall|i: int|
                0 <= i < array_children(oa, na).len() ==> no_changes(#[trigger] array_children(oa, na)[i])));
        },
        _ => {
            assert(!(a is Object && b is Object));
            assert(!(a is Array && b is Array));
        },
    }
}

proof fn lemma_arrays_no_changes_iff_equal(oa: Seq<SpecJson>, na: Seq<SpecJson>)
    ensures
        (forall|i: int| 0 <= i < array_children(oa, na).len() ==> no_changes(#[trigger] array_children(oa, na)[i]))
            == json_eq(SpecJson::Array(oa), SpecJson::Array(na)),
    decreases oa, 0nat,
{
    let ch = array_children(oa, na);
    assert forall|i: int| 0 <= i < oa.len() && i < na.len() implies no_changes(#[trigger] ch[i])
        == json_eq(oa[i], na[i]) by {
        lemma_no_changes_iff_equal(Some(decimal(i as nat)), oa[i], na[i]);
    }
    if oa.len() != na.len() {
        let m = if oa.len() < na.len() { oa.len() as int } else { na.len() as int };
        assert(!no_changes(ch[m]));
        assert(!json_eq(SpecJson::Array(oa), SpecJson::Array(na)));
    } else {
        if forall|i: int| 0 <= i < ch.len() ==> no_changes(#[trigger] ch[i]) {
            assert forall|i: int| 0 <= i < oa.len() implies json_eq(#[trigger] oa[i], na[i]) by {
                assert(no_changes(ch[i]));
            }
        }
        if json_eq(SpecJson::Array(oa), SpecJson::Array(na)) {
            assert forall|i: int| 0 <= i < ch.len() implies no_changes(#[trigger] ch[i]) by {
                assert(json_eq(oa[i], na[i]));
            }
        }
    }
}

proof fn lemma_objects_no_changes_iff_equal(oe: Seq<(Seq<char>, SpecJson)>, ne: Seq<(Seq<char>, SpecJson)>)
    ensures
        (forall|i: int| 0 <= i < object_children(oe, ne).len() ==> no_changes(#[trigger] object_children(oe, ne)[i]))
            == json_eq(SpecJson::Object(oe), SpecJson::Object(ne)),
    decreases oe, 0nat,
{
    let ks = diff_keys(oe, ne);
    let ch = object_children(oe, ne);
    lemma_removed_keys_from_old(oe, ne);
    lemma_removed_keys_complete(oe, ne);
    assert forall|k: Seq<char>| has_key(oe, k) && has_key(ne, k) implies no_changes(
        #[trigger] object_child(k, oe, ne),
    ) == json_eq(oe[key_index(oe, k)].1, ne[key_index(ne, k)].1) by {
        lemma_key_index_range(oe, k);
        lemma_key_index_range(ne, k);
        lemma_no_changes_iff_equal(Some(k), oe[key_index(oe, k)].1, ne[key_index(ne, k)].1);
    }
    let all = forall|i: int| 0 <= i < ch.len() ==> no_changes(#[trigger] ch[i]);
    if all {
        assert forall|k: Seq<char>| #[trigger] has_key(oe, k) == has_key(ne, k) by {
            if has_key(ne, k) && !has_key(oe, k) {
                let w = choose|w: int| 0 <= w < ne.len() && ne[w].0 == k;
                assert(ks[w] == k);
                lemma_key_index_range(oe, k);
                assert(!no_changes(ch[w]));
            }
            if has_key(oe, k) && !has_key(ne, k) {
                let r = removed_keys(oe, ne);
                assert(r.contains(k));
                let w = choose|w: int| 0 <= w < r.len() && r[w] == k;
                assert(ks[ne.len() + w] == k);
                lemma_key_index_range(oe, k);
                lemma_key_index_range(ne, k);
                assert(!no_changes(ch[ne.len() + w]));
            }
        }
        assert forall|k: Seq<char>| #[trigger] has_key(ne, k) implies {
            let jo = key_index(oe, k);
            let jn = key_index(ne, k);
            if 0 <= jo < oe.len() && 0 <= jn < ne.len() {
                json_eq(oe[jo].1, ne[jn].1)
            } else {
                false
            }
        } by {
            let w = choose|w: int| 0 <= w < ne.len() && ne[w].0 == k;
            assert(ks[w] == k);
            assert(has_key(oe, k));
            lemma_key_index_range(oe, k);
            lemma_key_index_range(ne, k);
            assert(no_changes(ch[w]));
        }
    }
    if json_eq(SpecJson::Object(oe), SpecJson::Object(ne)) {
        let j = json_eq(SpecJson::Object(oe), SpecJson::Object(ne));
        assert(j);
        assert(SpecJson::Object(oe) matches SpecJson::Object(x) && x == oe);
        assert(forall|k: Seq<char>| #[trigger] has_key(oe, k) == has_key(ne, k));
        assert forall|i: int| 0 <= i < ch.len() implies no_changes(#[trigger] ch[i]) by {
            let k = ks[i];
            assert(has_key(oe, k) || has_key(ne, k));
            assert(has_key(oe, k) == has_key(ne, k));
            lemma_key_index_range(oe, k);
            lemma_key_index_range(ne, k);
            assert(ch[i] == object_child(k, oe, ne));
        }
    }
}

/// The key text of a node: its key, or the empty text at the root.
pub open spec fn key_text(d: SpecDiff) -> Seq<char> {
    let k = match d {
        SpecDiff::Unchaged { key, .. } => key,
        SpecDiff::Added { key, .. } => key,
        SpecDiff::Removed { key, .. } => key,
        SpecDiff::Changed { key, .. } => key,
        SpecDiff::Object { key, .. } => key,
        SpecDiff::Array { key, .. } => key,
    };
    match k {
        Some(t) => t,
        None => Seq::empty(),
    }
}

/// The new document as a comparison records it: an unchanged or added
/// value, the new side of a change, nothing for a removal, and for an
/// object or array the new sides of its children that have one, in order.
pub open spec fn new_side(d: SpecDiff) -> Option<SpecJson>
    decreases d,
{
    match d {
        SpecDiff::Unchaged { value, .. } => Some(value),
        SpecDiff::Added { value, .. } => Some(value),
        SpecDiff::Changed { new, .. } => Some(new),
        SpecDiff::Removed { .. } => None,
        SpecDiff::Object { children, .. } => Some(SpecJson::Object(new_entries(children))),
        SpecDiff::Array { children, .. } => Some(SpecJson::Array(new_items(children))),
    }
}

/// The keys and new sides of those of `ch` that have one, in order.
pub open spec fn new_entries(ch: Seq<SpecDiff>) -> Seq<(Seq<char>, SpecJson)>
    decreases ch,
{
    if ch.len() == 0 {
        Seq::empty()
    } else {
        let p = new_entries(ch.subrange(0, ch.len() - 1));
        match new_side(ch[ch.len() - 1]) {
            Some(v) => p.push((key_text(ch[ch.len() - 1]), v)),
            None => p,
        }
    }
}

/// The new sides of those of `ch` that have one, in order.
pub open spec fn new_items(ch: Seq<SpecDiff>) -> Seq<SpecJson>
    decreases ch,
{
    if ch.len() == 0 {
        Seq::empty()
    } else {
        let p = new_items(ch.subrange(0, ch.len() - 1));
        match new_side(ch[ch.len() - 1]) {
            Some(v) => p.push(v),
            None => p,
        }
    }
}

proof fn lemma_new_entries(ch: Seq<SpecDiff>, ne: Seq<(Seq<char>, SpecJson)>)
    requires
        ch.len() >= ne.len(),
        forall|i: int| 0 <= i < ne.len() ==> new_side(#[trigger] ch[i]) == Some(ne[i].1) && key_text(ch[i]) == ne[i].0,
        forall|i: int| ne.len() <= i < ch.len() ==> new_side(#[trigger] ch[i]) is None,
    ensures
        new_entries(ch) == ne,
    decreases ch.len(),
{
    if ch.len() > 0 {
        let p = ch.subrange(0, ch.len() - 1);
        if ch.len() > ne.len() {
            assert forall|i: int| 0 <= i < ne.len() implies new_side(#[trigger] p[i]) == Some(ne[i].1) && key_text(p[i]) == ne[i].0 by {
                assert(p[i] == ch[i]);
            }
            assert forall|i: int| ne.len() <= i < p.len() implies new_side(#[trigger] p[i]) is None by {
                assert(p[i] == ch[i]);
            }
            lemma_new_entries(p, ne);
        } else {
            let q = ne.subrange(0, ne.len() - 1);
            assert forall|i: int| 0 <= i < q.len() implies new_side(#[trigger] p[i]) == Some(q[i].1) && key_text(p[i]) == q[i].0 by {
                assert(p[i] == ch[i]);
            }
            lemma_new_entries(p, q);
            let last = ch[ch.len() - 1];
            assert(new_side(last) == Some(ne[ne.len() - 1].1));
            assert(q.push((key_text(last), ne[ne.len() - 1].1)) =~= ne);
        }
    } else {
        assert(ne =~= Seq::<(Seq<char>, SpecJson)>::empty());
    }
}

proof fn lemma_new_items(ch: Seq<SpecDiff>, na: Seq<SpecJson>)
    requires
        ch.len() >= na.len(),
        forall|i: int| 0 <= i < na.len() ==> new_side(#[trigger] ch[i]) == Some(na[i]),
        forall|i: int| na.len() <= i < ch.len() ==> new_side(#[trigger] ch[i]) is None,
    ensures
        new_items(ch) == na,
    decreases ch.len(),
{
    if ch.len() > 0 {
        let p = ch.subrange(0, ch.len() - 1);
        if ch.len() > na.len() {
            assert forall|i: int| 0 <= i < na.len() implies new_side(#[trigger] p[i]) == Some(na[i]) by {
                assert(p[i] == ch[i]);
            }
            assert forall|i: int| na.len() <= i < p.len() implies new_side(#[trigger] p[i]) is None by {
                assert(p[i] == ch[i]);
            }
            lemma_new_items(p, na);
        } else {
            let q = na.subrange(0, na.len() - 1);
            assert forall|i: int| 0 <= i < q.len() implies new_side(#[trigger] p[i]) == Some(q[i]) by {
                assert(p[i] == ch[i]);
            }
            lemma_new_items(p, q);
            assert(q.push(na[na.len() - 1]) =~= na);
        }
    } else {
        assert(na =~= Seq::<SpecJson>::empty());
    }
}

/// The comparison loses nothing of the new document: its new side is the
/// new document itself (whose objects, as parsed, have distinct keys).
pub proof fn lemma_diff_keeps_new_side(key: Option<Seq<char>>, a: SpecJson, b: SpecJson)
    requires
        unique_keys(b),
    ensures
        new_side(diff_of(key, a, b)) == Some(b),
    decreases a, 1nat,
{
    match (a, b) {
        (SpecJson::Object(oe), SpecJson::Object(ne)) => {
            lemma_diff_objects(key, oe, ne);
            lemma_objects_new_side(oe, ne);
        },
        (SpecJson::Array(oa), SpecJson::Array(na)) => {
            lemma_diff_arrays(key, oa, na);
            lemma_arrays_new_side(oa, na);
        },
        _ => {},
    }
}

proof fn lemma_arrays_new_side(oa: Seq<SpecJson>, na: Seq<SpecJson>)
    requires
        forall|i: int| 0 <= i < na.len() ==> unique_keys(#[trigger] na[i]),
    ensures
        new_items(array_children(oa, na)) == na,
    decreases oa, 0nat,
{
    let ch = array_children(oa, na);
    assert forall|i: int| 0 <= i < na.len() implies new_side(#[trigger] ch[i]) == Some(na[i]) by {
        if i < oa.len() {
            lemma_diff_keeps_new_side(Some(decimal(i as nat)), oa[i], na[i]);
        }
    }
    lemma_new_items(ch, na);
}

proof fn lemma_objects_new_side(oe: Seq<(Seq<char>, SpecJson)>, ne: Seq<(Seq<char>, SpecJson)>)
    requires
        forall|i: int, j: int| 0 <= i < j < ne.len() ==> ne[i].0 != ne[j].0,
        forall|i: int| 0 <= i < ne.len() ==> unique_keys(#[trigger] ne[i].1),
    ensures
        new_entries(object_children(oe, ne)) == ne,
    decreases oe, 0nat,
{
    let ks = diff_keys(oe, ne);
    let ch = object_children(oe, ne);
    lemma_removed_keys_from_old(oe, ne);
    assert forall|i: int| 0 <= i < ne.len() implies new_side(#[trigger] ch[i]) == Some(ne[i].1) && key_text(ch[i]) == ne[i].0 by {
        let k = ne[i].0;
        assert(ks[i] == k);
        assert(is_first_key(ne, k, i));
        lemma_first_key_unique(ne, k, i);
        lemma_key_index_range(oe, k);
        let jo = key_index(oe, k);
        if 0 <= jo < oe.len() {
            lemma_diff_keeps_new_side(Some(k), oe[jo].1, ne[i].1);
            lemma_diff_key(Some(k), oe[jo].1, ne[i].1);
        }
    }
    assert forall|i: int| ne.len() <= i < ch.len() implies new_side(#[trigger] ch[i]) is None by {
        let k = ks[i];
        assert(k == removed_keys(oe, ne)[i - ne.len()]);
        lemma_key_index_range(oe, k);
        lemma_key_index_range(ne, k);
    }
    lemma_new_entries(ch, ne);
}

/// A comparison node carries the key it was made under.
proof fn lemma_diff_key(key: Option<Seq<char>>, a: SpecJson, b: SpecJson)
    ensures
        key_text(diff_of(key, a, b)) == match key {
            Some(t) => t,
            None => Seq::<char>::empty(),
        },
{
}

/// An entry with key `k` at `i` means a first such entry exists.
proof fn lemma_first_key_exists(es: Seq<(Seq<char>, SpecJson)>, k: Seq<char>, i: int)
    requires
        0 <= i < es.len(),
        es[i].0 == k,
    ensures
        0 <= key_index(es, k) < es.len(),
        is_first_key(es, k, key_index(es, k)),
    decreases i,
{
    if exists|j: int| 0 <= j < i && es[j].0 == k {
        let j = choose|j: int| 0 <= j < i && es[j].0 == k;
        lemma_first_key_exists(es, k, j);
    } else {
        assert(is_first_key(es, k, i));
        lemma_first_key_unique(es, k, i);
    }
}

/// When every key of `oe` is a key of `ne`, no key is listed as removed.
proof fn lemma_no_removed_keys(oe: Seq<(Seq<char>, SpecJson)>, ne: Seq<(Seq<char>, SpecJson)>)
    requires
        forall|i: int| 0 <= i < oe.len() ==> has_key(ne, #[trigger] oe[i].0),
    ensures
        removed_keys(oe, ne).len() == 0,
    decreases oe.len(),
{
    if oe.len() > 0 {
        let p = oe.subrange(0, oe.len() - 1);
        assert forall|i: int| 0 <= i < p.len() implies has_key(ne, #[trigger] p[i].0) by {
            assert(p[i] == oe[i]);
        }
        lemma_no_removed_keys(p, ne);
        assert(has_key(ne, oe[oe.len() - 1].0));
    }
}

/// Comparing a document with itself finds no change anywhere.
pub proof fn lemma_diff_self_no_changes(key: Option<Seq<char>>, v: SpecJson)
    ensures
        no_changes(diff_of(key, v, v)),
    decreases v, 1nat,
{
    match v {
        SpecJson::Object(es) => {
            lemma_diff_objects(key, es, es);
            lemma_entries_self_no_changes(es);
        },
        SpecJson::Array(xs) => {
            lemma_diff_arrays(key, xs, xs);
            lemma_items_self_no_changes(xs);
        },
        _ => {},
    }
}

/// Comparing an array's items with themselves finds no change.
proof fn lemma_items_self_no_changes(xs: Seq<SpecJson>)
    ensures
        forall|i: int| 0 <= i < array_children(xs, xs).len() ==> no_changes(#[trigger] array_children(xs, xs)[i]),
    decreases xs, 0nat,
{
    let ch = array_children(xs, xs);
    assert forall|i: int| 0 <= i < ch.len() implies no_changes(#[trigger] ch[i]) by {
        lemma_diff_self_no_changes(Some(decimal(i as nat)), xs[i]);
    }
}

/// Comparing an object's entries with themselves finds no change.
proof fn lemma_entries_self_no_changes(es: Seq<(Seq<char>, SpecJson)>)
    ensures
        forall|i: int| 0 <= i < object_children(es, es).len() ==> no_changes(#[trigger] object_children(es, es)[i]),
    decreases es, 0nat,
{
    assert forall|i: int| 0 <= i < es.len() implies has_key(es, #[trigger] es[i].0) by {}
    lemma_no_removed_keys(es, es);
    let ks = diff_keys(es, es);
    let ch = object_children(es, es);
    assert(ks.len() == es.len());
    assert forall|i: int| 0 <= i < ch.len() implies no_changes(#[trigger] ch[i]) by {
        let k = ks[i];
        assert(k == es[i].0);
        lemma_first_key_exists(es, k, i);
        let j = key_index(es, k);
        lemma_diff_self_no_changes(Some(k), es[j].1);
    }
}

/// The comparison of two objects has a node for every key that either has,
/// and a node is an addition exactly when only the new object has its key,
/// and a removal exactly when only the old object has it.
pub proof fn lemma_object_diff_keys(oe: Seq<(Seq<char>, SpecJson)>, ne: Seq<(Seq<char>, SpecJson)>)
    ensures
        forall|k: Seq<char>|
            has_key(oe, k) || has_key(ne, k) ==> #[trigger] diff_keys(oe, ne).contains(k),
        forall|i: int|
            0 <= i < object_children(oe, ne).len() ==> {
                let k = diff_keys(oe, ne)[i];
                &&& (#[trigger] object_children(oe, ne)[i] is Added) == (has_key(ne, k) && !has_key(oe, k))
                &&& (object_children(oe, ne)[i] is Removed) == (has_key(oe, k) && !has_key(ne, k))
            },
{
    lemma_removed_keys_from_old(oe, ne);
    lemma_removed_keys_complete(oe, ne);
    let ks = diff_keys(oe, ne);
    assert forall|k: Seq<char>| has_key(oe, k) || has_key(ne, k) implies #[trigger] ks.contains(k) by {
        if has_key(ne, k) {
            let w = choose|w: int| 0 <= w < ne.len() && ne[w].0 == k;
            assert(ks[w] == k);
        } else {
            let r = removed_keys(oe, ne);
            assert(r.contains(k));
            let w = choose|w: int| 0 <= w < r.len() && r[w] == k;
            assert(ks[ne.len() + w] == k);
        }
    }
    assert forall|i: int| 0 <= i < object_children(oe, ne).len() implies {
        let k = ks[i];
        &&& (#[trigger] object_children(oe, ne)[i] is Added) == (has_key(ne, k) && !has_key(oe, k))
        &&& (object_children(oe, ne)[i] is Removed) == (has_key(oe, k) && !has_key(ne, k))
    } by {
        let k = ks[i];
        lemma_key_index_range(oe, k);
        lemma_key_index_range(ne, k);
        lemma_diff_of_not_added(Some(k), oe, ne);
    }
}

/// A map lookup finds an entry exactly when the key is there.
proof fn lemma_key_index_range(es: Seq<(Seq<char>, SpecJson)>, k: Seq<char>)
    ensures
        has_key(es, k) ==> 0 <= key_index(es, k) < es.len() && es[key_index(es, k)].0 == k,
        !has_key(es, k) ==> key_index(es, k) == -1,
{
    if has_key(es, k) {
        let w = choose|w: int| 0 <= w < es.len() && es[w].0 == k;
        lemma_first_key_exists(es, k, w);
    } else {
        if exists|c: int| is_first_key(es, k, c) {
            let c = choose|c: int| is_first_key(es, k, c);
            assert(es[c].0 == k);
        }
    }
}

/// A comparison of two values present on both sides is never itself an
/// addition or a removal.
proof fn lemma_diff_of_not_added(key: Option<Seq<char>>, oe: Seq<(Seq<char>, SpecJson)>, ne: Seq<(Seq<char>, SpecJson)>)
    ensures
        forall|a: SpecJson, b: SpecJson| !(#[trigger] diff_of(key, a, b) is Added) && !(diff_of(key, a, b) is Removed),
{
    assert forall|a: SpecJson, b: SpecJson| !(#[trigger] diff_of(key, a, b) is Added) && !(diff_of(key, a, b) is Removed) by {
        match (a, b) {
            (SpecJson::Object(x), SpecJson::Object(y)) => {},
            (SpecJson::Array(x), SpecJson::Array(y)) => {},
            _ => {},
        }
    }
}

/// Every key of the old object that the new one lacks is listed as removed.
proof fn lemma_removed_keys_complete(oe: Seq<(Seq<char>, SpecJson)>, ne: Seq<(Seq<char>, SpecJson)>)
    ensures
        forall|k: Seq<char>| has_key(oe, k) && !has_key(ne, k) ==> #[trigger] removed_keys(oe, ne).contains(k),
    decreases oe.len(),
{
    if oe.len() > 0 {
        let p = oe.subrange(0, oe.len() - 1);
        lemma_removed_keys_complete(p, ne);
        assert forall|k: Seq<char>| has_key(oe, k) && !has_key(ne, k) implies #[trigger] removed_keys(oe, ne).contains(k) by {
            let w = choose|w: int| 0 <= w < oe.len() && oe[w].0 == k;
            let r = removed_keys(p, ne);
            if w < oe.len() - 1 {
                assert(p[w].0 == k);
                assert(has_key(p, k));
                assert(r.contains(k));
                let v = choose|v: int| 0 <= v < r.len() && r[v] == k;
                assert(removed_keys(oe, ne)[v] == k);
                assert(removed_keys(oe, ne).contains(k));
            } else {
                assert(removed_keys(oe, ne)[r.len() as int] == k);
                assert(removed_keys(oe, ne).contains(k));
            }
        }
    }
}


/// The old document as a comparison records it: an unchanged value (the
/// new one, equal to the old), a removed value, the old side of a change,
/// nothing for an addition, and for an object or array the old sides of its
/// children that have one, in order.
pub open spec fn old_side(d: SpecDiff) -> Option<SpecJson>
    decreases d,
{
    match d {
        SpecDiff::Unchaged { value, .. } => Some(value),
        SpecDiff::Removed { value, .. } => Some(value),
        SpecDiff::Changed { old, .. } => Some(old),
        SpecDiff::Added { .. } => None,
        SpecDiff::Object { children, .. } => Some(SpecJson::Object(old_entries(children))),
        SpecDiff::Array { children, .. } => Some(SpecJson::Array(old_items(children))),
    }
}

/// The keys and old sides of those of `ch` that have one, in order.
pub open spec fn old_entries(ch: Seq<SpecDiff>) -> Seq<(Seq<char>, SpecJson)>
    decreases ch,
{
    if ch.len() == 0 {
        Seq::empty()
    } else {
        let p = old_entries(ch.subrange(0, ch.len() - 1));
        match old_side(ch[ch.len() - 1]) {
            Some(v) => p.push((key_text(ch[ch.len() - 1]), v)),
            None => p,
        }
    }
}

/// The old sides of those of `ch` that have one, in order.
pub open spec fn old_items(ch: Seq<SpecDiff>) -> Seq<SpecJson>
    decreases ch,
{
    if ch.len() == 0 {
        Seq::empty()
    } else {
        let p = old_items(ch.subrange(0, ch.len() - 1));
        match old_side(ch[ch.len() - 1]) {
            Some(v) => p.push(v),
            None => p,
        }
    }
}

/// Every document equals itself as a `serde_json` value.
pub proof fn lemma_json_eq_refl(v: SpecJson)
    ensures
        json_eq(v, v),
{
    lemma_diff_self_no_changes(None, v);
    lemma_no_changes_iff_equal(None, v, v);
}

/// Each entry of the old entries comes from a child with its key and value.
proof fn lemma_old_entries_from(ch: Seq<SpecDiff>)
    ensures
        forall|p: int| #![trigger old_entries(ch)[p]] 0 <= p < old_entries(ch).len() ==> exists|i: int|
            0 <= i < ch.len() && key_text(#[trigger] ch[i]) == old_entries(ch)[p].0
                && old_side(ch[i]) == Some(old_entries(ch)[p].1),
    decreases ch.len(),
{
    if ch.len() > 0 {
        let q = ch.subrange(0, ch.len() - 1);
        lemma_old_entries_from(q);
        let e = old_entries(ch);
        let f = old_entries(q);
        assert forall|p: int| #![trigger e[p]] 0 <= p < e.len() implies exists|i: int|
            0 <= i < ch.len() && key_text(#[trigger] ch[i]) == e[p].0 && old_side(ch[i]) == Some(e[p].1) by {
            if p < f.len() {
                let i = choose|i: int| 0 <= i < q.len() && key_text(#[trigger] q[i]) == f[p].0 && old_side(q[i]) == Some(f[p].1);
                assert(q[i] == ch[i]);
                assert(e[p] == f[p]);
            } else {
                let i = ch.len() - 1;
                assert(key_text(ch[i]) == e[p].0);
            }
        }
    }
}

/// Every child with an old side gives an entry with its key.
proof fn lemma_old_entries_to(ch: Seq<SpecDiff>)
    ensures
        forall|i: int| 0 <= i < ch.len() && old_side(#[trigger] ch[i]) is Some ==> has_key(old_entries(ch), key_text(ch[i])),
    decreases ch.len(),
{
    if ch.len() > 0 {
        let q = ch.subrange(0, ch.len() - 1);
        lemma_old_entries_to(q);
        let e = old_entries(ch);
        let f = old_entries(q);
        assert forall|i: int| 0 <= i < ch.len() && old_side(#[trigger] ch[i]) is Some implies has_key(e, key_text(ch[i])) by {
            if i < ch.len() - 1 {
                assert(q[i] == ch[i]);
                assert(has_key(f, key_text(q[i])));
                let w = choose|w: int| 0 <= w < f.len() && f[w].0 == key_text(q[i]);
                assert(e[w] == f[w]);
            } else {
                assert(e[f.len() as int].0 == key_text(ch[i]));
            }
        }
    }
}

proof fn lemma_old_items(ch: Seq<SpecDiff>, oa: Seq<SpecJson>)
    requires
        ch.len() >= oa.len(),
        forall|i: int| 0 <= i < oa.len() ==> old_side(#[trigger] ch[i]) == Some(oa[i]),
        forall|i: int| oa.len() <= i < ch.len() ==> old_side(#[trigger] ch[i]) is None,
    ensures
        old_items(ch) == oa,
    decreases ch.len(),
{
    if ch.len() > 0 {
        let p = ch.subrange(0, ch.len() - 1);
        if ch.len() > oa.len() {
            assert forall|i: int| 0 <= i < oa.len() implies old_side(#[trigger] p[i]) == Some(oa[i]) by {
                assert(p[i] == ch[i]);
            }
            assert forall|i: int| oa.len() <= i < p.len() implies old_side(#[trigger] p[i]) is None by {
                assert(p[i] == ch[i]);
            }
            lemma_old_items(p, oa);
        } else {
            let q = oa.subrange(0, oa.len() - 1);
            assert forall|i: int| 0 <= i < q.len() implies old_side(#[trigger] p[i]) == Some(q[i]) by {
                assert(p[i] == ch[i]);
            }
            lemma_old_items(p, q);
            assert(q.push(oa[oa.len() - 1]) =~= oa);
        }
    } else {
        assert(oa =~= Seq::<SpecJson>::empty());
    }
}

/// The comparison loses nothing of the old document either: its old side
/// equals the old document as a `serde_json` value (object entries may come
/// in another order, and an unchanged leaf is recorded by its equal new
/// value).
pub proof fn lemma_diff_keeps_old_side(key: Option<Seq<char>>, a: SpecJson, b: SpecJson)
    ensures
        old_side(diff_of(key, a, b)) matches Some(o) && json_eq(a, o),
    decreases a, 1nat,
{
    match (a, b) {
        (SpecJson::Object(oe), SpecJson::Object(ne)) => {
            lemma_diff_objects(key, oe, ne);
            lemma_objects_old_side(oe, ne);
        },
        (SpecJson::Array(oa), SpecJson::Array(na)) => {
            lemma_diff_arrays(key, oa, na);
            lemma_arrays_old_side(oa, na);
        },
        _ => {
            lemma_json_eq_refl(a);
        },
    }
}

proof fn lemma_arrays_old_side(oa: Seq<SpecJson>, na: Seq<SpecJson>)
    ensures
        json_eq(SpecJson::Array(oa), SpecJson::Array(old_items(array_children(oa, na)))),
    decreases oa, 0nat,
{
    let ch = array_children(oa, na);
    let os = Seq::new(oa.len(), |i: int| old_side(ch[i])->0);
    assert forall|i: int| 0 <= i < oa.len() implies old_side(#[trigger] ch[i]) == Some(os[i]) && json_eq(oa[i], os[i]) by {
        if i < na.len() {
            lemma_diff_keeps_old_side(Some(decimal(i as nat)), oa[i], na[i]);
        } else {
            lemma_json_eq_refl(oa[i]);
        }
    }
    lemma_old_items(ch, os);
}

proof fn lemma_objects_old_side(oe: Seq<(Seq<char>, SpecJson)>, ne: Seq<(Seq<char>, SpecJson)>)
    ensures
        json_eq(SpecJson::Object(oe), SpecJson::Object(old_entries(object_children(oe, ne)))),
    decreases oe, 0nat,
{
    let ks = diff_keys(oe, ne);
    let ch = object_children(oe, ne);
    let e = old_entries(ch);
    lemma_old_entries_from(ch);
    lemma_old_entries_to(ch);
    lemma_removed_keys_from_old(oe, ne);
    lemma_removed_keys_complete(oe, ne);
    lemma_object_children_keys(oe, ne);
    // The old side of the child made for a key of the old object.
    assert forall|k: Seq<char>| #[trigger] has_key(oe, k) implies
        old_side(object_child(k, oe, ne)) matches Some(o) && json_eq(oe[key_index(oe, k)].1, o) by {
        lemma_key_index_range(oe, k);
        lemma_key_index_range(ne, k);
        let jo = key_index(oe, k);
        let jn = key_index(ne, k);
        if 0 <= jn < ne.len() {
            lemma_diff_keeps_old_side(Some(k), oe[jo].1, ne[jn].1);
        } else {
            lemma_json_eq_refl(oe[jo].1);
        }
    }
    assert forall|k: Seq<char>| #[trigger] has_key(oe, k) == has_key(e, k) by {
        lemma_key_index_range(oe, k);
        lemma_key_index_range(ne, k);
        if has_key(oe, k) {
            let i: int = if has_key(ne, k) {
                let w = choose|w: int| 0 <= w < ne.len() && ne[w].0 == k;
                assert(ks[w] == k);
                w
            } else {
                assert(removed_keys(oe, ne).contains(k));
                let v = choose|v: int| 0 <= v < removed_keys(oe, ne).len() && removed_keys(oe, ne)[v] == k;
                assert(ks[ne.len() + v] == k);
                ne.len() + v
            };
            assert(ch[i] == object_child(k, oe, ne));
            assert(key_text(ch[i]) == k);
        }
        if has_key(e, k) {
            let p = choose|p: int| 0 <= p < e.len() && e[p].0 == k;
            let i = choose|i: int| 0 <= i < ch.len() && key_text(#[trigger] ch[i]) == e[p].0 && old_side(ch[i]) == Some(e[p].1);
            assert(ks[i] == k);
            assert(ch[i] == object_child(k, oe, ne));
        }
    }
    assert forall|k: Seq<char>| #[trigger] has_key(e, k) implies {
        let jo = key_index(oe, k);
        let jn = key_index(e, k);
        if 0 <= jo < oe.len() && 0 <= jn < e.len() {
            json_eq(oe[jo].1, e[jn].1)
        } else {
            false
        }
    } by {
        assert(has_key(oe, k) == has_key(e, k));
        lemma_key_index_range(oe, k);
        lemma_key_index_range(e, k);
        let p = key_index(e, k);
        let i = choose|i: int| 0 <= i < ch.len() && key_text(#[trigger] ch[i]) == e[p].0 && old_side(ch[i]) == Some(e[p].1);
        assert(ks[i] == k);
        assert(ch[i] == object_child(k, oe, ne));
    }
}


/// `e` records the comparison the other way round from `d`: additions and
/// removals trade places, a change swaps its sides, unchanged stays
/// unchanged, an array's children correspond by position and an object's
/// children by key (in whatever order).
pub open spec fn mirrored(d: SpecDiff, e: SpecDiff) -> bool
    decreases d, 0nat,
{
    match (d, e) {
        (SpecDiff::Unchaged { key: k, .. }, SpecDiff::Unchaged { key: l, .. }) => k == l,
        (SpecDiff::Added { key: k, value: v }, SpecDiff::Removed { key: l, value: w }) => k == l && v == w,
        (SpecDiff::Removed { key: k, value: v }, SpecDiff::Added { key: l, value: w }) => k == l && v == w,
        (SpecDiff::Changed { key: k, old: o, new: n }, SpecDiff::Changed { key: l, old: p, new: q }) =>
            k == l && o == q && n == p,
        (SpecDiff::Array { key: k, children: cs }, SpecDiff::Array { key: l, children: ds }) => {
            &&& k == l
            &&& cs.len() == ds.len()
            &&& forall|i: int| 0 <= i < cs.len() ==> mirrored(#[trigger] cs[i], ds[i])
        },
        (SpecDiff::Object { key: k, children: cs }, SpecDiff::Object { key: l, children: ds }) => {
            &&& k == l
            &&& forall|i: int| 0 <= i < cs.len() ==> mirror_in(#[trigger] cs[i], ds)
            &&& forall|j: int| 0 <= j < ds.len() ==> mirror_of_in(cs, #[trigger] ds[j])
        },
        _ => false,
    }
}

/// Some node of `ds` with the key of `c` mirrors `c`.
pub open spec fn mirror_in(c: SpecDiff, ds: Seq<SpecDiff>) -> bool
    decreases c, 1nat,
{
    exists|j: int| #![trigger ds[j]] 0 <= j < ds.len() && key_text(ds[j]) == key_text(c) && mirrored(c, ds[j])
}

/// Some node of `cs` with the key of `e` is mirrored by `e`.
pub open spec fn mirror_of_in(cs: Seq<SpecDiff>, e: SpecDiff) -> bool
    decreases cs, 1nat,
{
    exists|i: int| #![trigger cs[i]] 0 <= i < cs.len() && key_text(cs[i]) == key_text(e) && mirrored(cs[i], e)
}

/// Comparing the two documents the other way round gives the mirror image
/// of the comparison.
pub proof fn lemma_diff_mirrored(key: Option<Seq<char>>, a: SpecJson, b: SpecJson)
    ensures
        mirrored(diff_of(key, a, b), diff_of(key, b, a)),
    decreases a, 1nat,
{
    match (a, b) {
        (SpecJson::Object(oe), SpecJson::Object(ne)) => {
            lemma_diff_objects(key, oe, ne);
            lemma_diff_objects(key, ne, oe);
            lemma_objects_mirrored(oe, ne);
        },
        (SpecJson::Array(oa), SpecJson::Array(na)) => {
            lemma_diff_arrays(key, oa, na);
            lemma_diff_arrays(key, na, oa);
            lemma_arrays_mirrored(oa, na);
        },
        _ => {},
    }
}

proof fn lemma_arrays_mirrored(oa: Seq<SpecJson>, na: Seq<SpecJson>)
    ensures
        array_children(oa, na).len() == array_children(na, oa).len(),
        forall|i: int| 0 <= i < array_children(oa, na).len() ==>
            mirrored(#[trigger] array_children(oa, na)[i], array_children(na, oa)[i]),
    decreases oa, 0nat,
{
    let cs = array_children(oa, na);
    let ds = array_children(na, oa);
    assert forall|i: int| 0 <= i < cs.len() implies mirrored(#[trigger] cs[i], ds[i]) by {
        if i < oa.len() && i < na.len() {
            lemma_diff_mirrored(Some(decimal(i as nat)), oa[i], na[i]);
        }
    }
}

/// The children made for one key in the two directions mirror each other.
proof fn lemma_object_child_mirrored(k: Seq<char>, oe: Seq<(Seq<char>, SpecJson)>, ne: Seq<(Seq<char>, SpecJson)>)
    requires
        has_key(oe, k) || has_key(ne, k),
    ensures
        mirrored(object_child(k, oe, ne), object_child(k, ne, oe)),
    decreases oe, 0nat,
{
    lemma_key_index_range(oe, k);
    lemma_key_index_range(ne, k);
    let jo = key_index(oe, k);
    let jn = key_index(ne, k);
    if 0 <= jo < oe.len() && 0 <= jn < ne.len() {
        lemma_diff_mirrored(Some(k), oe[jo].1, ne[jn].1);
    }
}

/// Where the key `k` stands among the keys compared.
proof fn lemma_diff_keys_cover(oe: Seq<(Seq<char>, SpecJson)>, ne: Seq<(Seq<char>, SpecJson)>, k: Seq<char>)
    requires
        has_key(oe, k) || has_key(ne, k),
    ensures
        exists|j: int| 0 <= j < diff_keys(oe, ne).len() && #[trigger] diff_keys(oe, ne)[j] == k,
{
    let ks = diff_keys(oe, ne);
    if has_key(ne, k) {
        let w = choose|w: int| 0 <= w < ne.len() && ne[w].0 == k;
        assert(ks[w] == k);
    } else {
        lemma_removed_keys_complete(oe, ne);
        assert(removed_keys(oe, ne).contains(k));
        let v = choose|v: int| 0 <= v < removed_keys(oe, ne).len() && removed_keys(oe, ne)[v] == k;
        assert(ks[ne.len() + v] == k);
    }
}

/// A child of an object comparison is the one made for its key.
proof fn lemma_object_children_keys(oe: Seq<(Seq<char>, SpecJson)>, ne: Seq<(Seq<char>, SpecJson)>)
    ensures
        forall|i: int| 0 <= i < object_children(oe, ne).len() ==> key_text(#[trigger] object_children(oe, ne)[i]) == diff_keys(oe, ne)[i]
            && object_children(oe, ne)[i] == object_child(diff_keys(oe, ne)[i], oe, ne)
            && (has_key(oe, diff_keys(oe, ne)[i]) || has_key(ne, diff_keys(oe, ne)[i])),
{
    let ks = diff_keys(oe, ne);
    let ch = object_children(oe, ne);
    lemma_removed_keys_from_old(oe, ne);
    assert forall|i: int| 0 <= i < ch.len() implies key_text(#[trigger] ch[i]) == ks[i] by {
        let k = ks[i];
        lemma_key_index_range(oe, k);
        lemma_key_index_range(ne, k);
        let jo = key_index(oe, k);
        let jn = key_index(ne, k);
        if 0 <= jo < oe.len() && 0 <= jn < ne.len() {
            lemma_diff_key(Some(k), oe[jo].1, ne[jn].1);
        }
    }
}

proof fn lemma_objects_mirrored(oe: Seq<(Seq<char>, SpecJson)>, ne: Seq<(Seq<char>, SpecJson)>)
    ensures
        forall|i: int| 0 <= i < object_children(oe, ne).len() ==>
            mirror_in(#[trigger] object_children(oe, ne)[i], object_children(ne, oe)),
        forall|j: int| 0 <= j < object_children(ne, oe).len() ==>
            mirror_of_in(object_children(oe, ne), #[trigger] object_children(ne, oe)[j]),
    decreases oe, 1nat,
{
    let cs = object_children(oe, ne);
    let ds = object_children(ne, oe);
    let ks = diff_keys(oe, ne);
    let ls = diff_keys(ne, oe);
    lemma_object_children_keys(oe, ne);
    lemma_object_children_keys(ne, oe);
    assert forall|i: int| 0 <= i < cs.len() implies mirror_in(#[trigger] cs[i], ds) by {
        let k = ks[i];
        assert(key_text(cs[i]) == k);
        lemma_diff_keys_cover(ne, oe, k);
        let j = choose|j: int| 0 <= j < ls.len() && #[trigger] ls[j] == k;
        assert(key_text(ds[j]) == k);
        lemma_object_child_mirrored(k, oe, ne);
        assert(mirrored(cs[i], ds[j]));
    }
    assert forall|j: int| 0 <= j < ds.len() implies mirror_of_in(cs, #[trigger] ds[j]) by {
        let k = ls[j];
        assert(key_text(ds[j]) == k);
        lemma_diff_keys_cover(oe, ne, k);
        let i = choose|i: int| 0 <= i < ks.len() && #[trigger] ks[i] == k;
        assert(key_text(cs[i]) == k);
        lemma_object_child_mirrored(k, oe, ne);
        assert(mirrored(cs[i], ds[j]));
    }
}


/// How a leaf of a comparison is written: a string in double quotes (its
/// characters as they are), `null`, a number as its text (the text
/// `serde_json` wrote for it), and anything else as `serde_json` writes the
/// value.
pub open spec fn value_text(v: SpecJson) -> Seq<char> {
    match v {
        SpecJson::String(s) => "\""@ + s + "\""@,
        SpecJson::Null => "null"@,
        SpecJson::Number(t) => t,
        _ => displayed_value(v),
    }
}

/// Writes a value of a comparison: see [`value_text`].
pub fn format_value(value: &Json) -> (r: String)
    ensures
        r@ == value_text(value@),
{
    match value {
        Json::String(s) => {
            let mut r = String::from_str("\"");
            r.append(s.as_str());
            r.append("\"");
            r
        },
        Json::Null => String::from_str("null"),
        Json::Number(t) => t.clone(),
        _ => value_display(value),
    }
}

/// Writes a leaf of a comparison under its key: `key: value`, or the value
/// alone at the root.
pub fn format_leaf(key: &Option<String>, value: &Json) -> (r: String)
    ensures
        r@ == key_prefix_spec(opt_string_view(key), value_text(value@)),
{
    let text = format_value(value);
    key_prefix(key, text.as_str())
}


/// Two values that are not both arrays and not both objects compare as a
/// leaf: the node is an unchanged node holding the new value or a change
/// holding both. Values of different kinds always change; strings, booleans
/// and nulls are unchanged exactly when they are the same value; numbers are
/// unchanged exactly when their texts are the same or `serde_json` holds
/// the numbers equal.
pub proof fn lemma_leaf_diff(key: Option<Seq<char>>, a: SpecJson, b: SpecJson)
    requires
        !(a is Array && b is Array),
        !(a is Object && b is Object),
    ensures
        diff_of(key, a, b) == (SpecDiff::Unchaged { key: key, value: b })
            || diff_of(key, a, b) == (SpecDiff::Changed { key: key, old: a, new: b }),
        !(a is Number) ==> ((diff_of(key, a, b) is Unchaged) == (a == b)),
        (a is Number && b is Number) ==> ((diff_of(key, a, b) is Unchaged) == (a->Number_0 == b->Number_0
            || number_text_eq(a->Number_0, b->Number_0) || number_text_eq(b->Number_0, a->Number_0))),
        (a is Number && !(b is Number)) ==> diff_of(key, a, b) is Changed,
{
}


/// A lookup in a prefix that finds a key finds it where the whole does.
proof fn lemma_key_index_prefix(es: Seq<(Seq<char>, SpecJson)>, n: int, k: Seq<char>)
    requires
        0 <= n <= es.len(),
        has_key(es.subrange(0, n), k),
    ensures
        key_index(es, k) == key_index(es.subrange(0, n), k),
        0 <= key_index(es, k) < n,
{
    let p = es.subrange(0, n);
    lemma_key_index_range(p, k);
    let c = key_index(p, k);
    assert(is_first_key(p, k, c));
    assert forall|j: int| 0 <= j < c implies es[j].0 != k by {
        assert(es[j] == p[j]);
    }
    assert(es[c] == p[c]);
    assert(is_first_key(es, k, c));
    lemma_first_key_unique(es, k, c);
}

/// The keys listed as removed come in the old object's order.
proof fn lemma_removed_keys_order(oe: Seq<(Seq<char>, SpecJson)>, ne: Seq<(Seq<char>, SpecJson)>)
    requires
        forall|i: int, j: int| 0 <= i < j < oe.len() ==> oe[i].0 != oe[j].0,
    ensures
        forall|i: int, j: int| 0 <= i < j < removed_keys(oe, ne).len() ==>
            key_index(oe, #[trigger] removed_keys(oe, ne)[i]) < key_index(oe, #[trigger] removed_keys(oe, ne)[j]),
    decreases oe.len(),
{
    if oe.len() > 0 {
        let n = oe.len() - 1;
        let p = oe.subrange(0, n);
        lemma_removed_keys_order(p, ne);
        lemma_removed_keys_from_old(p, ne);
        let rp = removed_keys(p, ne);
        let r = removed_keys(oe, ne);
        assert(oe.subrange(0, n) =~= p);
        assert forall|i: int| 0 <= i < rp.len() implies key_index(oe, #[trigger] rp[i]) == key_index(p, rp[i])
            && key_index(oe, rp[i]) < n by {
            lemma_key_index_prefix(oe, n, rp[i]);
        }
        let k = oe[n].0;
        assert(is_first_key(oe, k, n));
        lemma_first_key_unique(oe, k, n);
        assert forall|i: int, j: int| 0 <= i < j < r.len() implies
            key_index(oe, #[trigger] r[i]) < key_index(oe, #[trigger] r[j]) by {
            assert(r[i] == rp[i]);
            if j < rp.len() {
                assert(r[j] == rp[j]);
            } else {
                assert(r[j] == k);
            }
        }
    }
}

/// The children of an object comparison come in a fixed order: first one
/// for each entry of the new object, in its order and under its key; then
/// one for each key that only the old object has, in the old object's
/// order (given that the old object has no key twice, as no parsed object
/// has).
pub proof fn lemma_object_diff_order(oe: Seq<(Seq<char>, SpecJson)>, ne: Seq<(Seq<char>, SpecJson)>)
    requires
        forall|i: int, j: int| 0 <= i < j < oe.len() ==> oe[i].0 != oe[j].0,
    ensures
        object_children(oe, ne).len() >= ne.len(),
        forall|i: int| 0 <= i < ne.len() ==> key_text(#[trigger] object_children(oe, ne)[i]) == ne[i].0,
        forall|i: int| ne.len() <= i < object_children(oe, ne).len() ==>
            has_key(oe, key_text(#[trigger] object_children(oe, ne)[i])) && !has_key(ne, key_text(object_children(oe, ne)[i])),
        forall|i: int, j: int| ne.len() <= i < j < object_children(oe, ne).len() ==>
            key_index(oe, key_text(#[trigger] object_children(oe, ne)[i])) < key_index(oe, key_text(#[trigger] object_children(oe, ne)[j])),
{
    let ch = object_children(oe, ne);
    let ks = diff_keys(oe, ne);
    let r = removed_keys(oe, ne);
    lemma_object_children_keys(oe, ne);
    lemma_removed_keys_from_old(oe, ne);
    lemma_removed_keys_order(oe, ne);
    assert forall|i: int| 0 <= i < ne.len() implies key_text(#[trigger] ch[i]) == ne[i].0 by {
        assert(ks[i] == ne[i].0);
    }
    assert forall|i: int| ne.len() <= i < ch.len() implies
        has_key(oe, key_text(#[trigger] ch[i])) && !has_key(ne, key_text(ch[i])) by {
        assert(ks[i] == r[i - ne.len()]);
    }
    assert forall|i: int, j: int| ne.len() <= i < j < ch.len() implies
        key_index(oe, key_text(#[trigger] ch[i])) < key_index(oe, key_text(#[trigger] ch[j])) by {
        assert(ks[i] == r[i - ne.len()]);
        assert(ks[j] == r[j - ne.len()]);
    }
}

/// The children of an array comparison: one per index up to the longer
/// array, each under its index written in decimal; an index both arrays
/// have compares the two items, one only the old array has is a removal of
/// its item, and one only the new array has is an addition of its item.
pub proof fn lemma_array_diff_shape(oa: Seq<SpecJson>, na: Seq<SpecJson>)
    ensures
        array_children(oa, na).len() == if oa.len() >= na.len() { oa.len() } else { na.len() },
        forall|i: int| 0 <= i < array_children(oa, na).len() ==> key_text(#[trigger] array_children(oa, na)[i]) == decimal(i as nat),
        forall|i: int| 0 <= i < oa.len() && i < na.len() ==> #[trigger] array_children(oa, na)[i] == diff_of(Some(decimal(i as nat)), oa[i], na[i]),
        forall|i: int| na.len() <= i < oa.len() ==> #[trigger] array_children(oa, na)[i] == (SpecDiff::Removed { key: Some(decimal(i as nat)), value: oa[i] }),
        forall|i: int| oa.len() <= i < na.len() ==> #[trigger] array_children(oa, na)[i] == (SpecDiff::Added { key: Some(decimal(i as nat)), value: na[i] }),
{
    let ch = array_children(oa, na);
    assert forall|i: int| 0 <= i < ch.len() implies key_text(#[trigger] ch[i]) == decimal(i as nat) by {
        if i < oa.len() && i < na.len() {
            lemma_diff_key(Some(decimal(i as nat)), oa[i], na[i]);
        }
    }
}

} // verus!
