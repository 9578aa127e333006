//! The search index over a JSON document: for every value, whether its key
//! or its text matches the query, whether anything in it matches, and how
//! many matches it holds. The index mirrors the document's shape so that a
//! viewer can walk both together.

use vstd::prelude::*;
use crate::json::{
    Json, SpecJson, entries_view, items_view, node_count, items_node_count, entries_node_count,
    lemma_array_view, lemma_object_view, lemma_items_count_prefix, lemma_entries_count_prefix,
};
use crate::text::{lemma_lower_idempotent, lemma_trim_idempotent, lemma_trim_lower, chars_of, contains_ci, decimal, lower_chars, lower_seq, matches_query, trim, trim_chars, usize_to_chars, usize_to_string};

verus! {

/// The search result for one value of a document and, in the same order,
/// for each of its elements.
#[derive(Debug)]
pub struct SearchNode {
    pub key_match: bool,
    pub value_match: bool,
    pub subtree_match: bool,
    pub match_count: usize,
    children: Vec<SearchNode>,
}

/// The mathematical value of a [`SearchNode`].
pub struct SpecSearchNode {
    pub key_match: bool,
    pub value_match: bool,
    pub subtree_match: bool,
    pub match_count: nat,
    pub children: Seq<SpecSearchNode>,
}

/// The mathematical value of `n`.
pub closed spec fn search_view(n: &SearchNode) -> SpecSearchNode
    decreases n,
{
    SpecSearchNode {
        key_match: n.key_match,
        value_match: n.value_match,
        subtree_match: n.subtree_match,
        match_count: n.match_count as nat,
        children: Seq::new(
            n.children.len() as nat,
            |i: int|
                if 0 <= i < n.children.len() {
                    search_view(&n.children@[i])
                } else {
                    SpecSearchNode {
                        key_match: false,
                        value_match: false,
                        subtree_match: false,
                        match_count: 0,
                        children: Seq::empty(),
                    }
                },
        ),
    }
}

impl View for SearchNode {
    type V = SpecSearchNode;

    open spec fn view(&self) -> SpecSearchNode {
        search_view(self)
    }
}

/// The values of a sequence of search nodes.
pub open spec fn nodes_view(ns: Seq<SearchNode>) -> Seq<SpecSearchNode> {
    Seq::new(ns.len(), |i: int| search_view(&ns[i]))
}

/// A node's value is made of its fields and the values of its children.
broadcast proof fn lemma_search_view(n: SearchNode)
    ensures
        #[trigger] search_view(&n) == (SpecSearchNode {
            key_match: n.key_match,
            value_match: n.value_match,
            subtree_match: n.subtree_match,
            match_count: n.match_count as nat,
            children: nodes_view(n.children@),
        }),
{
    assert(search_view(&n).children =~= nodes_view(n.children@));
}

/// Whether the key of a value matches the query; a value without a key
/// (the document's root) never does.
pub open spec fn key_matches(key: Option<Seq<char>>, query: Seq<char>) -> bool {
    match key {
        Some(k) => matches_query(k, query),
        None => false,
    }
}

/// Whether the text of a scalar matches the query: a string by its
/// content, a number by its text, a boolean as `true` or `false`, null as
/// `null`. Arrays and objects have no text of their own.
pub open spec fn value_matches(v: SpecJson, query: Seq<char>) -> bool {
    match v {
        SpecJson::String(t) => matches_query(t, query),
        SpecJson::Number(t) => matches_query(t, query),
        SpecJson::Bool(b) => matches_query(if b { "true"@ } else { "false"@ }, query),
        SpecJson::Null => matches_query("null"@, query),
        _ => false,
    }
}

/// Whether some node of `ns` has a match in it.
pub open spec fn any_subtree_match(ns: Seq<SpecSearchNode>) -> bool {
    exists|j: int| 0 <= j < ns.len() && #[trigger] ns[j].subtree_match
}

/// The number of matches in the nodes of `ns` together.
pub open spec fn sum_matches(ns: Seq<SpecSearchNode>) -> nat
    decreases ns.len(),
{
    if ns.len() == 0 {
        0
    } else {
        sum_matches(ns.subrange(0, ns.len() - 1)) + ns[ns.len() - 1].match_count
    }
}

/// The search node of an array or object whose own key matches when
/// `key_match` holds and whose elements have the nodes `children`.
pub open spec fn container_node(key_match: bool, children: Seq<SpecSearchNode>) -> SpecSearchNode {
    SpecSearchNode {
        key_match: key_match,
        value_match: false,
        subtree_match: key_match || any_subtree_match(children),
        match_count: (if key_match { 1nat } else { 0nat }) + sum_matches(children),
        children: children,
    }
}

/// The search node of a scalar.
pub open spec fn leaf_node(key_match: bool, value_match: bool) -> SpecSearchNode {
    SpecSearchNode {
        key_match: key_match,
        value_match: value_match,
        subtree_match: key_match || value_match,
        match_count: if key_match || value_match { 1nat } else { 0nat },
        children: Seq::empty(),
    }
}

/// The search index of the value `v` found under `key`, for the normalised
/// query `query`. The elements of an array are keyed by their index written
/// in decimal, those of an object by their key.
pub open spec fn search_of(key: Option<Seq<char>>, v: SpecJson, query: Seq<char>) -> SpecSearchNode
    decreases v,
{
    let km = key_matches(key, query);
    match v {
        SpecJson::Array(xs) => container_node(
            km,
            Seq::new(
                xs.len(),
                |i: int|
                    if 0 <= i < xs.len() {
                        search_of(Some(decimal(i as nat)), xs[i], query)
                    } else {
                        leaf_node(false, false)
                    },
            ),
        ),
        SpecJson::Object(es) => container_node(
            km,
            Seq::new(
                es.len(),
                |i: int|
                    if 0 <= i < es.len() {
                        search_of(Some(es[i].0), es[i].1, query)
                    } else {
                        leaf_node(false, false)
                    },
            ),
        ),
        _ => leaf_node(km, value_matches(v, query)),
    }
}

/// The search nodes of the items of an array.
pub open spec fn item_nodes(xs: Seq<SpecJson>, query: Seq<char>) -> Seq<SpecSearchNode> {
    Seq::new(xs.len(), |i: int| search_of(Some(decimal(i as nat)), xs[i], query))
}

/// The search nodes of the entries of an object.
pub open spec fn entry_nodes(es: Seq<(Seq<char>, SpecJson)>, query: Seq<char>) -> Seq<SpecSearchNode> {
    Seq::new(es.len(), |i: int| search_of(Some(es[i].0), es[i].1, query))
}

/// The index of an array is made of the indexes of its items.
pub broadcast proof fn lemma_search_array(key: Option<Seq<char>>, xs: Seq<SpecJson>, query: Seq<char>)
    ensures
        #[trigger] search_of(key, SpecJson::Array(xs), query) == container_node(
            key_matches(key, query),
            item_nodes(xs, query),
        ),
{
    assert(search_of(key, SpecJson::Array(xs), query).children =~= item_nodes(xs, query));
}

/// The index of an object is made of the indexes of its entries.
pub broadcast proof fn lemma_search_object(
    key: Option<Seq<char>>,
    es: Seq<(Seq<char>, SpecJson)>,
    query: Seq<char>,
)
    ensures
        #[trigger] search_of(key, SpecJson::Object(es), query) == container_node(
            key_matches(key, query),
            entry_nodes(es, query),
        ),
{
    assert(search_of(key, SpecJson::Object(es), query).children =~= entry_nodes(es, query));
}

/// Adding one node to a sequence adds its matches to the total.
pub proof fn lemma_sum_matches_step(ns: Seq<SpecSearchNode>, i: int)
    requires
        0 <= i < ns.len(),
    ensures
        sum_matches(ns.subrange(0, i + 1)) == sum_matches(ns.subrange(0, i)) + ns[i].match_count,
{
    assert(ns.subrange(0, i + 1).subrange(0, i) =~= ns.subrange(0, i));
}

/// A prefix one node longer has a match in it exactly when the shorter
/// prefix or the added node has.
pub proof fn lemma_any_step(ns: Seq<SpecSearchNode>, i: int)
    requires
        0 <= i < ns.len(),
    ensures
        any_subtree_match(ns.subrange(0, i + 1)) == (any_subtree_match(ns.subrange(0, i))
            || ns[i].subtree_match),
{
    let p = ns.subrange(0, i + 1);
    let q = ns.subrange(0, i);
    if any_subtree_match(q) {
        let j = choose|j: int| 0 <= j < q.len() && #[trigger] q[j].subtree_match;
        assert(p[j] == q[j]);
    }
    if ns[i].subtree_match {
        assert(p[i] == ns[i]);
    }
    if any_subtree_match(p) {
        let j = choose|j: int| 0 <= j < p.len() && #[trigger] p[j].subtree_match;
        if j < i {
            assert(q[j] == p[j]);
        }
    }
}

/// Nodes without matches hold no matches together.
proof fn lemma_sum_matches_zero(ns: Seq<SpecSearchNode>)
    requires
        forall|i: int| 0 <= i < ns.len() ==> #[trigger] ns[i].match_count == 0,
    ensures
        sum_matches(ns) == 0,
    decreases ns.len(),
{
    if ns.len() > 0 {
        let p = ns.subrange(0, ns.len() - 1);
        assert forall|i: int| 0 <= i < p.len() implies #[trigger] p[i].match_count == 0 by {
            assert(p[i] == ns[i]);
        }
        lemma_sum_matches_zero(p);
    }
}

/// A query that is empty, or only whitespace before normalising, matches
/// nothing: no key, no value and no node anywhere in the index.
pub proof fn lemma_empty_query_matches_nothing(key: Option<Seq<char>>, v: SpecJson, query: Seq<char>)
    requires
        query.len() == 0,
    ensures
        search_of(key, v, query).match_count == 0,
        !search_of(key, v, query).subtree_match,
        !search_of(key, v, query).key_match,
        !search_of(key, v, query).value_match,
    decreases v, 1nat,
{
    match v {
        SpecJson::Array(xs) => {
            lemma_search_array(key, xs, query);
            lemma_items_match_nothing(xs, query);
        },
        SpecJson::Object(es) => {
            lemma_search_object(key, es, query);
            lemma_entries_match_nothing(es, query);
        },
        _ => {},
    }
}

/// With an empty query, no item of an array matches.
proof fn lemma_items_match_nothing(xs: Seq<SpecJson>, query: Seq<char>)
    requires
        query.len() == 0,
    ensures
        sum_matches(item_nodes(xs, query)) == 0,
        !any_subtree_match(item_nodes(xs, query)),
    decreases xs, 0nat,
{
    let ch = item_nodes(xs, query);
    assert forall|i: int| 0 <= i < ch.len() implies #[trigger] ch[i].match_count == 0
        && !ch[i].subtree_match by {
        lemma_empty_query_matches_nothing(Some(decimal(i as nat)), xs[i], query);
    }
    lemma_sum_matches_zero(ch);
    if any_subtree_match(ch) {
        let j = choose|j: int| 0 <= j < ch.len() && #[trigger] ch[j].subtree_match;
        lemma_empty_query_matches_nothing(Some(decimal(j as nat)), xs[j], query);
    }
}

/// With an empty query, no entry of an object matches.
proof fn lemma_entries_match_nothing(es: Seq<(Seq<char>, SpecJson)>, query: Seq<char>)
    requires
        query.len() == 0,
    ensures
        sum_matches(entry_nodes(es, query)) == 0,
        !any_subtree_match(entry_nodes(es, query)),
    decreases es, 0nat,
{
    let ch = entry_nodes(es, query);
    assert forall|i: int| 0 <= i < ch.len() implies #[trigger] ch[i].match_count == 0
        && !ch[i].subtree_match by {
        lemma_empty_query_matches_nothing(Some(es[i].0), es[i].1, query);
    }
    lemma_sum_matches_zero(ch);
    if any_subtree_match(ch) {
        let j = choose|j: int| 0 <= j < ch.len() && #[trigger] ch[j].subtree_match;
        lemma_empty_query_matches_nothing(Some(es[j].0), es[j].1, query);
    }
}

/// The search ignores the ASCII case of the query and whitespace around it:
/// the normalised query is the same with or without them.
pub proof fn lemma_query_normalization(query: Seq<char>)
    ensures
        normalize_query(lower_seq(query)) == normalize_query(query),
        normalize_query(trim(query)) == normalize_query(query),
{
    lemma_trim_lower(query);
    lemma_lower_idempotent(trim(query));
    lemma_trim_idempotent(query);
}

/// The index mirrors the document: an array's or object's node has one
/// child per element, in order, and a scalar's node has none.
pub proof fn lemma_search_mirrors_shape(key: Option<Seq<char>>, v: SpecJson, query: Seq<char>)
    ensures
        match v {
            SpecJson::Array(xs) => search_of(key, v, query).children.len() == xs.len()
                && forall|i: int| 0 <= i < xs.len() ==> #[trigger] search_of(key, v, query).children[i]
                    == search_of(Some(decimal(i as nat)), xs[i], query),
            SpecJson::Object(es) => search_of(key, v, query).children.len() == es.len()
                && forall|i: int| 0 <= i < es.len() ==> #[trigger] search_of(key, v, query).children[i]
                    == search_of(Some(es[i].0), es[i].1, query),
            _ => search_of(key, v, query).children.len() == 0,
        },
{
    match v {
        SpecJson::Array(xs) => lemma_search_array(key, xs, query),
        SpecJson::Object(es) => lemma_search_object(key, es, query),
        _ => {},
    }
}

/// The flags of one search node agree: it has a match in it exactly when
/// it holds a match, its own key or value matching means it has one, and
/// only a scalar's node (which has no children) can match by value.
pub open spec fn node_consistent(n: SpecSearchNode) -> bool {
    &&& n.subtree_match == (n.match_count > 0)
    &&& n.key_match ==> n.subtree_match
    &&& n.value_match ==> n.subtree_match && n.children.len() == 0
}

/// Every node of the index rooted at `n` is consistent.
pub open spec fn all_consistent(n: SpecSearchNode) -> bool
    decreases n,
{
    &&& node_consistent(n)
    &&& forall|i: int| 0 <= i < n.children.len() ==> all_consistent(#[trigger] n.children[i])
}

/// Nodes that each have a match in them exactly when they hold one have,
/// together, a match in them exactly when they hold one.
proof fn lemma_any_iff_sum(ns: Seq<SpecSearchNode>)
    requires
        forall|i: int| 0 <= i < ns.len() ==> (#[trigger] ns[i]).subtree_match == (ns[i].match_count > 0),
    ensures
        any_subtree_match(ns) == (sum_matches(ns) > 0),
    decreases ns.len(),
{
    if ns.len() > 0 {
        let n = ns.len() - 1;
        let p = ns.subrange(0, n);
        assert forall|i: int| 0 <= i < p.len() implies (#[trigger] p[i]).subtree_match == (p[i].match_count > 0) by {
            assert(p[i] == ns[i]);
        }
        lemma_any_iff_sum(p);
        lemma_any_step(ns, n);
        lemma_sum_matches_step(ns, n);
        assert(ns.subrange(0, n + 1) =~= ns);
    } else {
        assert(!any_subtree_match(ns));
    }
}

/// Every node of a search index is consistent, not only its root.
pub proof fn lemma_search_consistent(key: Option<Seq<char>>, v: SpecJson, query: Seq<char>)
    ensures
        all_consistent(search_of(key, v, query)),
    decreases v, 1nat,
{
    match v {
        SpecJson::Array(xs) => {
            lemma_search_array(key, xs, query);
            lemma_items_consistent(xs, query);
            lemma_any_iff_sum(item_nodes(xs, query));
        },
        SpecJson::Object(es) => {
            lemma_search_object(key, es, query);
            lemma_entries_consistent(es, query);
            lemma_any_iff_sum(entry_nodes(es, query));
        },
        _ => {},
    }
}

proof fn lemma_items_consistent(xs: Seq<SpecJson>, query: Seq<char>)
    ensures
        forall|i: int| 0 <= i < xs.len() ==> all_consistent(#[trigger] item_nodes(xs, query)[i]),
    decreases xs, 0nat,
{
    assert forall|i: int| 0 <= i < xs.len() implies all_consistent(#[trigger] item_nodes(xs, query)[i]) by {
        lemma_search_consistent(Some(decimal(i as nat)), xs[i], query);
    }
}

proof fn lemma_entries_consistent(es: Seq<(Seq<char>, SpecJson)>, query: Seq<char>)
    ensures
        forall|i: int| 0 <= i < es.len() ==> all_consistent(#[trigger] entry_nodes(es, query)[i]),
    decreases es, 0nat,
{
    assert forall|i: int| 0 <= i < es.len() implies all_consistent(#[trigger] entry_nodes(es, query)[i]) by {
        lemma_search_consistent(Some(es[i].0), es[i].1, query);
    }
}

/// Normalising leaves a query empty exactly when it held only whitespace.
pub proof fn lemma_normalize_empty(query: Seq<char>)
    ensures
        (normalize_query(query).len() == 0) == (trim(query).len() == 0),
{
}

/// The characters of an optional key.
pub open spec fn key_view(key: Option<&str>) -> Option<Seq<char>> {
    match key {
        Some(k) => Some(k@),
        None => None,
    }
}

/// The characters of an optional key held as characters.
pub open spec fn key_chars_view(key: Option<&Vec<char>>) -> Option<Seq<char>> {
    match key {
        Some(k) => Some(k@),
        None => None,
    }
}

/// How the viewer normalises a search query: surrounding whitespace
/// removed, then ASCII lower-cased.
pub open spec fn normalize_query(query: Seq<char>) -> Seq<char> {
    lower_seq(trim(query))
}

/// Whether the scalar `value` has a text that matches `query`.
fn value_matches_query(value: &Json, query: &Vec<char>) -> (r: bool)
    ensures
        r == value_matches(value@, query@),
{
    if query.len() == 0 {
        return false;
    }
    match value {
        Json::String(text) => {
            let cs = chars_of(text.as_str());
            contains_ci(&cs, query)
        },
        Json::Number(number) => {
            let cs = chars_of(number.as_str());
            contains_ci(&cs, query)
        },
        Json::Bool(boolean) => {
            let cs = if *boolean { chars_of("true") } else { chars_of("false") };
            contains_ci(&cs, query)
        },
        Json::Null => {
            let cs = chars_of("null");
            contains_ci(&cs, query)
        },
        Json::Object(_) => {
            proof { broadcast use lemma_object_view; }
            false
        },
        Json::Array(_) => {
            proof { broadcast use lemma_array_view; }
            false
        },
    }
}

impl SearchNode {
    /// Builds the search index of `value`, found under `key`, for `query`.
    /// The query is normalised first: surrounding whitespace is removed and
    /// it is ASCII lower-cased. The index mirrors the document's shape; a
    /// node has a match in it exactly when it holds at least one match, and
    /// it never holds more matches than values.
    pub fn build(key: Option<&str>, value: &Json, query: &str) -> (r: SearchNode)
        requires
            node_count(value@) <= usize::MAX,
        ensures
            r@ == search_of(key_view(key), value@, normalize_query(query@)),
            r@.subtree_match == (r@.match_count > 0),
            r@.match_count <= node_count(value@),
            all_consistent(r@),
    {
        proof {
            lemma_search_consistent(key_view(key), value@, normalize_query(query@));
        }
        let q = chars_of(query);
        let t = trim_chars(&q);
        let normalized_query = lower_chars(&t);
        match key {
            Some(k) => {
                let kc = chars_of(k);
                Self::build_with_query(Some(&kc), value, &normalized_query)
            },
            None => Self::build_with_query(None, value, &normalized_query),
        }
    }

    fn build_with_query(key: Option<&Vec<char>>, value: &Json, query: &Vec<char>) -> (r: SearchNode)
        requires
            node_count(value@) <= usize::MAX,
        ensures
            r@ == search_of(key_chars_view(key), value@, query@),
            r@.subtree_match == (r@.match_count > 0),
            r@.match_count <= node_count(value@),
        decreases value, 1nat,
    {
        broadcast use {lemma_array_view, lemma_object_view, lemma_search_view, lemma_search_array, lemma_search_object};

        let key_match = match key {
            Some(entry) => contains_ci(entry, query),
            None => false,
        };
        let ghost km = key_matches(key_chars_view(key), query@);
        match value {
            Json::Array(items) => {
                let (children, count, any) = Self::build_items(items, query);
                let total = if key_match { count + 1 } else { count };
                let node = SearchNode {
                    key_match,
                    value_match: false,
                    subtree_match: key_match || any,
                    match_count: total,
                    children,
                };
                proof {
                    assert(node@ == container_node(km, item_nodes(items_view(items@), query@)));
                }
                node
            },
            Json::Object(entries) => {
                let (children, count, any) = Self::build_entries(entries, query);
                let total = if key_match { count + 1 } else { count };
                let node = SearchNode {
                    key_match,
                    value_match: false,
                    subtree_match: key_match || any,
                    match_count: total,
                    children,
                };
                proof {
                    assert(node@ == container_node(km, entry_nodes(entries_view(entries@), query@)));
                }
                node
            },
            _ => {
                let value_match = value_matches_query(value, query);
                let node = SearchNode {
                    key_match,
                    value_match,
                    subtree_match: key_match || value_match,
                    match_count: if key_match || value_match { 1 } else { 0 },
                    children: Vec::new(),
                };
                proof {
                    assert(nodes_view(node.children@) =~= Seq::<SpecSearchNode>::empty());
                }
                node
            },
        }
    }

    /// The search nodes of the items of an array, their total number of
    /// matches and whether any of them has a match in it.
    fn build_items(items: &Vec<Json>, query: &Vec<char>) -> (r: (Vec<SearchNode>, usize, bool))
        requires
            1 + items_node_count(items_view(items@)) <= usize::MAX,
        ensures
            nodes_view(r.0@) == item_nodes(items_view(items@), query@),
            r.1 == sum_matches(item_nodes(items_view(items@), query@)),
            r.1 <= items_node_count(items_view(items@)),
            r.2 == any_subtree_match(item_nodes(items_view(items@), query@)),
            r.2 == (r.1 > 0),
        decreases items, 0nat,
    {
        let ghost xs = items_view(items@);
        let ghost ch = item_nodes(xs, query@);
        let mut children: Vec<SearchNode> = Vec::new();
        let mut count: usize = 0;
        let mut any: bool = false;
        let mut i: usize = 0;
        while i < items.len()
            invariant
                xs == items_view(items@),
                ch == item_nodes(xs, query@),
                1 + items_node_count(xs) <= usize::MAX,
                i <= items@.len(),
                nodes_view(children@) == ch.subrange(0, i as int),
                count == sum_matches(ch.subrange(0, i as int)),
                count <= items_node_count(xs.subrange(0, i as int)),
                any == any_subtree_match(ch.subrange(0, i as int)),
                any == (count > 0),
            decreases items@.len() - i,
        {
            proof {
                assert(decreases_to!(*items => items[i as int]));
                lemma_items_count_prefix(xs, i as int);
                lemma_items_count_prefix(xs, i + 1);
                lemma_sum_matches_step(ch, i as int);
            }
            let index_key = usize_to_chars(i);
            let child = Self::build_with_query(Some(&index_key), &items[i], query);
            count = count + child.match_count;
            any = any || child.subtree_match;
            children.push(child);
            proof {
                lemma_any_step(ch, i as int);
                assert(nodes_view(children@) =~= ch.subrange(0, i + 1));
            }
            i = i + 1;
        }
        proof {
            assert(ch.subrange(0, i as int) =~= ch);
            assert(xs.subrange(0, i as int) =~= xs);
        }
        (children, count, any)
    }

    /// The search nodes of the entries of an object, their total number of
    /// matches and whether any of them has a match in it.
    fn build_entries(entries: &Vec<(String, Json)>, query: &Vec<char>) -> (r: (Vec<SearchNode>, usize, bool))
        requires
            1 + entries_node_count(entries_view(entries@)) <= usize::MAX,
        ensures
            nodes_view(r.0@) == entry_nodes(entries_view(entries@), query@),
            r.1 == sum_matches(entry_nodes(entries_view(entries@), query@)),
            r.1 <= entries_node_count(entries_view(entries@)),
            r.2 == any_subtree_match(entry_nodes(entries_view(entries@), query@)),
            r.2 == (r.1 > 0),
        decreases entries, 0nat,
    {
        let ghost es = entries_view(entries@);
        let ghost ch = entry_nodes(es, query@);
        let mut children: Vec<SearchNode> = Vec::new();
        let mut count: usize = 0;
        let mut any: bool = false;
        let mut i: usize = 0;
        while i < entries.len()
            invariant
                es == entries_view(entries@),
                ch == entry_nodes(es, query@),
                1 + entries_node_count(es) <= usize::MAX,
                i <= entries@.len(),
                nodes_view(children@) == ch.subrange(0, i as int),
                count == sum_matches(ch.subrange(0, i as int)),
                count <= entries_node_count(es.subrange(0, i as int)),
                any == any_subtree_match(ch.subrange(0, i as int)),
                any == (count > 0),
            decreases entries@.len() - i,
        {
            proof {
                assert(decreases_to!(*entries => entries[i as int]));
                lemma_entries_count_prefix(es, i as int);
                lemma_entries_count_prefix(es, i + 1);
                lemma_sum_matches_step(ch, i as int);
            }
            let entry_key = chars_of(entries[i].0.as_str());
            let child = Self::build_with_query(Some(&entry_key), &entries[i].1, query);
            count = count + child.match_count;
            any = any || child.subtree_match;
            children.push(child);
            proof {
                lemma_any_step(ch, i as int);
                assert(nodes_view(children@) =~= ch.subrange(0, i + 1));
            }
            i = i + 1;
        }
        proof {
            assert(ch.subrange(0, i as int) =~= ch);
            assert(es.subrange(0, i as int) =~= es);
        }
        (children, count, any)
    }

    /// Whether the key of this value matches the query.
    pub fn key_match(&self) -> (r: bool)
        ensures
            r == self@.key_match,
    {
        self.key_match
    }

    /// Whether this value, a scalar, matches the query.
    pub fn value_match(&self) -> (r: bool)
        ensures
            r == self@.value_match,
    {
        self.value_match
    }

    /// Whether anything in this value matches the query.
    pub fn subtree_match(&self) -> (r: bool)
        ensures
            r == self@.subtree_match,
    {
        self.subtree_match
    }

    /// How many keys and values in this value match the query.
    pub fn match_count(&self) -> (r: usize)
        ensures
            r == self@.match_count,
    {
        self.match_count
    }

    /// The search node of the element at `index`, if there is one.
    pub fn child_at(&self, index: usize) -> (r: Option<&SearchNode>)
        ensures
            index < self@.children.len() ==> (r matches Some(c) && c@ == self@.children[index as int]),
            index >= self@.children.len() ==> r is None,
    {
        proof { broadcast use lemma_search_view; }
        if index < self.children.len() {
            Some(&self.children[index])
        } else {
            None
        }
    }
}

/// The path shown for the entry `key` of the object at `path`: `path.key`.
pub fn object_child_path(path: &str, key: &str) -> (r: String)
    ensures
        r@ == path@ + "."@ + key@,
{
    let mut p = String::from_str(path);
    p.append(".");
    p.append(key);
    p
}

/// The path shown for the item `index` of the array at `path`:
/// `path[index]`.
pub fn array_child_path(path: &str, index: usize) -> (r: String)
    ensures
        r@ == path@ + "["@ + decimal(index as nat) + "]"@,
{
    let mut p = String::from_str(path);
    p.append("[");
    let digits = usize_to_string(index);
    p.append(digits.as_str());
    p.append("]");
    p
}

/// The search node of the element at `index` under `search`, if there is
/// a search and it has such an element.
pub fn child_search(search: Option<&SearchNode>, index: usize) -> (r: Option<&SearchNode>)
    ensures
        match search {
            Some(node) => if index < node@.children.len() {
                (r matches Some(c) && c@ == node@.children[index as int])
            } else {
                r is None
            },
            None => r is None,
        },
{
    match search {
        Some(node) => node.child_at(index),
        None => None,
    }
}


/// `c` written in ASCII lower case is `d`: a capital letter A to Z becomes
/// the small letter 32 code points on, and every other character stays.
pub open spec fn folds_to(c: char, d: char) -> bool {
    if 'A' <= c && c <= 'Z' {
        d == ((c as u32) + 32) as char
    } else {
        d == c
    }
}

/// `q` occurs in `t` from position `i` on once `t` is written in ASCII
/// lower case.
pub open spec fn folded_at(q: Seq<char>, t: Seq<char>, i: int) -> bool {
    &&& 0 <= i
    &&& i + q.len() <= t.len()
    &&& forall|j: int| 0 <= j < q.len() ==> folds_to(t[i + j], #[trigger] q[j])
}

/// The query `q` is not empty and occurs somewhere in `t` once `t` is
/// written in ASCII lower case.
pub open spec fn found_in(q: Seq<char>, t: Seq<char>) -> bool {
    q.len() > 0 && exists|i: int| #[trigger] folded_at(q, t, i)
}

/// The search rule, `matches_query`, is [`found_in`].
proof fn lemma_found_in(q: Seq<char>, t: Seq<char>)
    ensures
        found_in(q, t) == matches_query(t, q),
{
    let l = lower_seq(t);
    if matches_query(t, q) {
        let i = choose|i: int| crate::text::occurs_at(q, l, i);
        assert forall|j: int| 0 <= j < q.len() implies folds_to(t[i + j], #[trigger] q[j]) by {
            assert(l.subrange(i, i + q.len())[j] == q[j]);
            assert(l[i + j] == q[j]);
        }
        assert(folded_at(q, t, i));
    }
    if found_in(q, t) {
        let i = choose|i: int| #[trigger] folded_at(q, t, i);
        assert(l.subrange(i, i + q.len()) =~= q) by {
            assert forall|j: int| 0 <= j < q.len() implies #[trigger] l.subrange(i, i + q.len())[j] == q[j] by {
                assert(folds_to(t[i + j], q[j]));
                assert(l[i + j] == crate::text::lower(t[i + j]));
            }
        }
        assert(crate::text::occurs_at(q, l, i));
    }
}

/// The search node of a scalar: it has no children; its key matches when
/// it has a key in which the query is found; its value matches when the
/// query is found in its text (a string's content, a number's text, `true`
/// or `false` for a boolean, `null` for null); and it counts one match when
/// either does.
pub proof fn lemma_search_scalar(key: Option<Seq<char>>, v: SpecJson, q: Seq<char>)
    requires
        !(v is Array),
        !(v is Object),
    ensures
        search_of(key, v, q).children.len() == 0,
        search_of(key, v, q).key_match == (key matches Some(k) && found_in(q, k)),
        search_of(key, v, q).value_match == found_in(q, match v {
            SpecJson::String(t) => t,
            SpecJson::Number(t) => t,
            SpecJson::Bool(b) => if b { "true"@ } else { "false"@ },
            _ => "null"@,
        }),
        search_of(key, v, q).match_count == if search_of(key, v, q).key_match || search_of(key, v, q).value_match { 1nat } else { 0nat },
        search_of(key, v, q).subtree_match == (search_of(key, v, q).key_match || search_of(key, v, q).value_match),
{
    if let Some(k) = key {
        lemma_found_in(q, k);
    }
    match v {
        SpecJson::String(t) => lemma_found_in(q, t),
        SpecJson::Number(t) => lemma_found_in(q, t),
        SpecJson::Bool(b) => lemma_found_in(q, if b { "true"@ } else { "false"@ }),
        _ => lemma_found_in(q, "null"@),
    }
}


/// Totals of matches: none in no nodes, and one more node adds its count.
pub proof fn lemma_sum_matches_push(ns: Seq<SpecSearchNode>, n: SpecSearchNode)
    ensures
        sum_matches(Seq::<SpecSearchNode>::empty()) == 0,
        sum_matches(ns.push(n)) == sum_matches(ns) + n.match_count,
{
    assert(ns.push(n).subrange(0, ns.len() as int) =~= ns);
}

/// The search node of an array or object: its key matches when it has a
/// key in which the query is found; it has no value match of its own; it
/// has one child per element, the search node of that element under its
/// index (written in decimal) or its key; something in it matches when its
/// key or something in a child does; and it counts its key's match and its
/// children's matches.
pub proof fn lemma_search_container(key: Option<Seq<char>>, v: SpecJson, q: Seq<char>)
    requires
        v is Array || v is Object,
    ensures
        search_of(key, v, q).key_match == (key matches Some(k) && found_in(q, k)),
        !search_of(key, v, q).value_match,
        v is Array ==> ({
            let xs = v->Array_0;
            let n = search_of(key, v, q);
            &&& n.children.len() == xs.len()
            &&& forall|i: int| 0 <= i < xs.len() ==> #[trigger] n.children[i] == search_of(Some(decimal(i as nat)), xs[i], q)
        }),
        v is Object ==> ({
            let es = v->Object_0;
            let n = search_of(key, v, q);
            &&& n.children.len() == es.len()
            &&& forall|i: int| 0 <= i < es.len() ==> #[trigger] n.children[i] == search_of(Some(es[i].0), es[i].1, q)
        }),
        search_of(key, v, q).subtree_match == (search_of(key, v, q).key_match
            || exists|j: int| 0 <= j < search_of(key, v, q).children.len() && #[trigger] search_of(key, v, q).children[j].subtree_match),
        search_of(key, v, q).match_count == (if search_of(key, v, q).key_match { 1nat } else { 0nat })
            + sum_matches(search_of(key, v, q).children),
{
    if let Some(k) = key {
        lemma_found_in(q, k);
    }
    match v {
        SpecJson::Array(xs) => lemma_search_array(key, xs, q),
        SpecJson::Object(es) => lemma_search_object(key, es, q),
        _ => {},
    }
    let n = search_of(key, v, q);
    assert(n.subtree_match == (n.key_match || any_subtree_match(n.children)));
}

} // verus!
