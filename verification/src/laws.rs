//! General properties of resolution and mutation, stated and proved once
//! over the model that the pointer contracts speak.

use vstd::prelude::*;

use crate::model::idx_child;
use crate::model::lemma_tbl_set_len;
use crate::model::lemma_tbl_set_lookup;
use crate::model::lemma_tbl_set_other;
use crate::model::lemma_update_at_same;
use crate::model::node_at;
use crate::model::step_key_read;
use crate::model::tbl_contains;
use crate::model::tbl_lookup;
use crate::model::tbl_set;
use crate::model::update_at;
use crate::model::walk_read;
use crate::model::extract_bool_spec;
use crate::model::extract_float_spec;
use crate::model::extract_int_spec;
use crate::model::extract_text_spec;
use crate::model::StepView;
use crate::node::NodeView;
use crate::path::digits_val;
use crate::path::is_delim;
use crate::path::is_digits;
use crate::path::lemma_split_no_delim;
use crate::path::lemma_split_segments_no_delim;
use crate::path::split_path;

verus! {

/// A first-match lookup succeeds exactly when some entry holds the key,
/// and then returns the value of one such entry.
pub proof fn lemma_tbl_lookup_contains(es: Seq<(Seq<char>, NodeView)>, key: Seq<char>)
    ensures
        tbl_lookup(es, key) is Some <==> tbl_contains(es, key),
        tbl_lookup(es, key) matches Some(v) ==> exists|i: int|
            0 <= i < es.len() && es[i].0 == key && es[i].1 == v,
    decreases es.len(),
{
    if es.len() == 0 {
    } else if es[0].0 == key {
    } else {
        let tail = es.subrange(1, es.len() as int);
        lemma_tbl_lookup_contains(tail, key);
        assert(forall|i: int| 0 <= i < tail.len() ==> tail[i] == es[i + 1]);
        if tbl_contains(es, key) {
            let w = choose|i: int| 0 <= i < es.len() && es[i].0 == key;
            assert(tail[w - 1] == es[w]);
            assert(tbl_contains(tail, key));
        }
    }
}

/// Every table key of the document is plain: non-empty, free of path
/// delimiters, and not a pure digit string.
pub open spec fn keys_plain(n: NodeView) -> bool
    decreases n,
{
    match n {
        NodeView::Table(es) => forall|i: int|
            0 <= i < es.len() ==> {
                &&& (#[trigger] es[i]).0.len() > 0
                &&& (forall|j: int| 0 <= j < es[i].0.len() ==> !is_delim(es[i].0[j]))
                &&& !is_digits(es[i].0)
                &&& keys_plain(es[i].1)
            },
        NodeView::Array(xs) => forall|i: int| 0 <= i < xs.len() ==> keys_plain(#[trigger] xs[i]),
        _ => true,
    }
}

/// Chaining the individual steps equivalent to a segment sequence: an
/// all-digit segment becomes an index step, any other segment a single
/// string step.
pub open spec fn chain_steps(n: NodeView, segs: Seq<Seq<char>>) -> Option<NodeView>
    decreases segs.len(),
{
    if segs.len() == 0 {
        Some(n)
    } else {
        let s = segs[0];
        let first = if is_digits(s) {
            idx_child(n, digits_val(s) as int)
        } else {
            step_key_read(n, s)
        };
        match first {
            Some(c) => chain_steps(c, segs.subrange(1, segs.len() as int)),
            None => None,
        }
    }
}

/// Law: over a document whose table keys are plain — no delimiter
/// characters and not pure digit strings — resolving a compound path is
/// the same as chaining the equivalent individual steps, for any
/// non-empty segments.
pub proof fn lemma_compound_equals_chained(n: NodeView, segs: Seq<Seq<char>>)
    requires
        keys_plain(n),
        forall|i: int|
            0 <= i < segs.len() ==> (#[trigger] segs[i]).len() > 0 && (forall|j: int|
                0 <= j < segs[i].len() ==> !is_delim(segs[i][j])),
    ensures
        walk_read(n, segs) == chain_steps(n, segs),
    decreases segs.len(),
{
    if segs.len() == 0 {
    } else {
        let s = segs[0];
        let rest = segs.subrange(1, segs.len() as int);
        assert(forall|i: int| 0 <= i < rest.len() ==> rest[i] == segs[i + 1]);
        match n {
            NodeView::Table(es) => {
                lemma_tbl_lookup_contains(es, s);
                if is_digits(s) {
                    assert(tbl_lookup(es, s) is None);
                } else {
                    match tbl_lookup(es, s) {
                        Some(c) => {
                            let w = choose|i: int|
                                0 <= i < es.len() && es[i].0 == s && es[i].1 == c;
                            assert(keys_plain(c));
                            lemma_compound_equals_chained(c, rest);
                        },
                        None => {
                            lemma_split_no_delim(s);
                            assert(split_path(s).len() == 1);
                        },
                    }
                }
            },
            NodeView::Array(xs) => {
                if is_digits(s) && digits_val(s) < xs.len() {
                    let c = xs[digits_val(s) as int];
                    assert(keys_plain(c));
                    lemma_compound_equals_chained(c, rest);
                } else if !is_digits(s) {
                    lemma_split_no_delim(s);
                    assert(split_path(s).len() == 1);
                }
            },
            _ => {
                if !is_digits(s) {
                    lemma_split_no_delim(s);
                    assert(split_path(s).len() == 1);
                }
            },
        }
    }
}

/// Law: over a document whose table keys are plain, resolving a whole
/// compound path string in one step is the same as chaining the
/// equivalent individual steps over its segments, as long as no segment
/// is empty. The string holds a delimiter, so no plain key equals it and
/// the direct lookup tier cannot interfere.
pub proof fn lemma_compound_string_equals_chained(n: NodeView, p: Seq<char>)
    requires
        keys_plain(n),
        split_path(p).len() > 1,
        forall|i: int| 0 <= i < split_path(p).len() ==> (#[trigger] split_path(p)[i]).len() > 0,
    ensures
        step_key_read(n, p) == chain_steps(n, split_path(p)),
{
    if forall|i: int| 0 <= i < p.len() ==> !is_delim(p[i]) {
        lemma_split_no_delim(p);
        assert(false);
    }
    let d = choose|i: int| 0 <= i < p.len() && is_delim(p[i]);
    match n {
        NodeView::Table(es) => {
            lemma_tbl_lookup_contains(es, p);
            if tbl_lookup(es, p) is Some {
                let w = choose|i: int| 0 <= i < es.len() && es[i].0 == p;
                assert(!is_delim(es[w].0[d]));
                assert(false);
            }
        },
        _ => {},
    }
    lemma_split_segments_no_delim(p);
    lemma_compound_equals_chained(n, split_path(p));
}

/// Law: a missing key, an out-of-range index and a scalar target all
/// resolve to nothing. For a single plain step the other direction holds
/// too: it is bound exactly when the node is a table holding the key.
/// Stepping or extracting from an empty pointer stays empty by the
/// pointers' own contracts.
pub proof fn lemma_step_miss(n: NodeView, p: Seq<char>, i: int)
    requires
        p.len() > 0,
        forall|j: int| 0 <= j < p.len() ==> !is_delim(p[j]),
    ensures
        step_key_read(n, p) is Some <==> (n is Table && tbl_contains(n->Table_0, p)),
        idx_child(n, i) is Some <==> (n is Array && 0 <= i < n->Array_0.len()),
{
    lemma_split_no_delim(p);
    assert(split_path(p).len() == 1);
    match n {
        NodeView::Table(es) => {
            lemma_tbl_lookup_contains(es, p);
        },
        _ => {},
    }
}

/// Law: inserting under a key that pre-exists never changes the table
/// size, and inserting a fresh key grows it by exactly one entry.
pub proof fn lemma_insert_table_size(es: Seq<(Seq<char>, NodeView)>, key: Seq<char>, v: NodeView)
    ensures
        tbl_contains(es, key) ==> tbl_set(es, key, v).len() == es.len(),
        !tbl_contains(es, key) ==> tbl_set(es, key, v).len() == es.len() + 1,
{
    lemma_tbl_set_len(es, key, v);
}

/// Law: after an insert, the inserted key reads back exactly the new
/// value, and every other key reads as it did before.
pub proof fn lemma_insert_then_lookup(
    es: Seq<(Seq<char>, NodeView)>,
    key: Seq<char>,
    v: NodeView,
    other: Seq<char>,
)
    requires
        other != key,
    ensures
        tbl_lookup(tbl_set(es, key, v), key) == Some(v),
        tbl_lookup(tbl_set(es, key, v), other) == tbl_lookup(es, other),
{
    lemma_tbl_set_lookup(es, key, v);
    lemma_tbl_set_other(es, key, v, other);
}

/// Law: appending a sequence of values grows an array by exactly the
/// number of appended elements.
pub proof fn lemma_append_grows(xs: Seq<NodeView>, vs: Seq<NodeView>, v: NodeView)
    ensures
        (xs + vs).len() == xs.len() + vs.len(),
        xs.push(v).len() == xs.len() + 1,
{
}

/// Law: replacing the node at a bound location and then extracting with a
/// default of the stored value's kind returns exactly the stored value,
/// for each extractable scalar kind. This is the round trip of `reassign`
/// followed by `extract`, read off the two contracts.
pub proof fn lemma_reassign_extract_roundtrip(
    doc: NodeView,
    loc: Seq<StepView>,
    x: NodeView,
    dt: Seq<char>,
    di: i64,
    df: u64,
    db: bool,
)
    requires
        node_at(doc, loc) is Some,
    ensures
        node_at(update_at(doc, loc, x), loc) == Some(x),
        x matches NodeView::Text(s) ==> extract_text_spec(
            node_at(update_at(doc, loc, x), loc),
            dt,
        ) == s,
        x matches NodeView::Int(v) ==> extract_int_spec(node_at(update_at(doc, loc, x), loc), di)
            == v,
        x matches NodeView::Float(b) ==> extract_float_spec(
            node_at(update_at(doc, loc, x), loc),
            df,
        ) == b,
        x matches NodeView::Bool(b) ==> extract_bool_spec(node_at(update_at(doc, loc, x), loc), db)
            == b,
{
    lemma_update_at_same(doc, loc, x);
}

} // verus!
