//! The mathematical model of path resolution and mutation.
//!
//! Everything here is specification-level: resolution of a path expression
//! against a [`NodeView`], the location a write pointer has resolved to,
//! and the effect of each mutation primitive on the document model.

use vstd::prelude::*;

use crate::node::NodeView;
use crate::path::digits_val;
use crate::path::is_digits;
use crate::path::split_path;

verus! {

/// One resolved step of a location: a table key or an array index.
pub enum Step {
    Key(String),
    Idx(usize),
}

/// Model of a resolved step.
pub enum StepView {
    Key(Seq<char>),
    Idx(int),
}

impl View for Step {
    type V = StepView;

    open spec fn view(&self) -> StepView {
        match self {
            Step::Key(k) => StepView::Key(k@),
            Step::Idx(i) => StepView::Idx(*i as int),
        }
    }
}

/// The views of a vector of resolved steps.
pub open spec fn step_views(l: Seq<Step>) -> Seq<StepView> {
    l.map_values(|s: Step| s@)
}

/// First-match lookup in a table model.
pub open spec fn tbl_lookup(es: Seq<(Seq<char>, NodeView)>, key: Seq<char>) -> Option<NodeView>
    decreases es.len(),
{
    if es.len() == 0 {
        None
    } else if es[0].0 == key {
        Some(es[0].1)
    } else {
        tbl_lookup(es.subrange(1, es.len() as int), key)
    }
}

/// Whether a table model holds a key.
pub open spec fn tbl_contains(es: Seq<(Seq<char>, NodeView)>, key: Seq<char>) -> bool {
    exists|i: int| 0 <= i < es.len() && es[i].0 == key
}

/// Set a key in a table model: replace the value of the first matching
/// entry, or append a new entry at the end.
pub open spec fn tbl_set(
    es: Seq<(Seq<char>, NodeView)>,
    key: Seq<char>,
    v: NodeView,
) -> Seq<(Seq<char>, NodeView)>
    decreases es.len(),
{
    if es.len() == 0 {
        seq![(key, v)]
    } else if es[0].0 == key {
        seq![(es[0].0, v)] + es.subrange(1, es.len() as int)
    } else {
        seq![es[0]] + tbl_set(es.subrange(1, es.len() as int), key, v)
    }
}

/// The child of a node under a single key, as the direct lookup finds it:
/// only a table has key children.
pub open spec fn key_child(n: NodeView, key: Seq<char>) -> Option<NodeView> {
    match n {
        NodeView::Table(es) => tbl_lookup(es, key),
        _ => None,
    }
}

/// The child of a node under a single index: only an array has indexed
/// children.
pub open spec fn idx_child(n: NodeView, i: int) -> Option<NodeView> {
    match n {
        NodeView::Array(xs) => if 0 <= i < xs.len() {
            Some(xs[i])
        } else {
            None
        },
        _ => None,
    }
}

/// The child of a node under a resolved step.
pub open spec fn step_child(n: NodeView, s: StepView) -> Option<NodeView> {
    match s {
        StepView::Key(k) => key_child(n, k),
        StepView::Idx(i) => idx_child(n, i),
    }
}

/// The node reached from `n` by a sequence of resolved steps.
pub open spec fn node_at(n: NodeView, l: Seq<StepView>) -> Option<NodeView>
    decreases l.len(),
{
    if l.len() == 0 {
        Some(n)
    } else {
        match step_child(n, l[0]) {
            Some(c) => node_at(c, l.subrange(1, l.len() as int)),
            None => None,
        }
    }
}

/// `n` with its child under one valid step replaced by `c`; unchanged
/// where the step does not resolve.
pub open spec fn child_updated(n: NodeView, s: StepView, c: NodeView) -> NodeView {
    match (n, s) {
        (NodeView::Table(es), StepView::Key(k)) => NodeView::Table(tbl_set(es, k, c)),
        (NodeView::Array(xs), StepView::Idx(i)) => NodeView::Array(xs.update(i, c)),
        _ => n,
    }
}

/// `n` with the node at location `l` replaced by `v`; unchanged where `l`
/// does not resolve.
pub open spec fn update_at(n: NodeView, l: Seq<StepView>, v: NodeView) -> NodeView
    decreases l.len(),
{
    if l.len() == 0 {
        v
    } else {
        match step_child(n, l[0]) {
            Some(c) => child_updated(n, l[0], update_at(c, l.subrange(1, l.len() as int), v)),
            None => n,
        }
    }
}

// ------------------------------------------------------------------
// Read-side resolution.
// ------------------------------------------------------------------
/// The multi-segment read walk: empty segments are skipped; a table is
/// entered by key, an array by an in-range all-digit index; anything else,
/// or any failed segment, ends the walk with nothing.
pub open spec fn walk_read(n: NodeView, segs: Seq<Seq<char>>) -> Option<NodeView>
    decreases segs.len(),
{
    if segs.len() == 0 {
        Some(n)
    } else {
        let s = segs[0];
        let rest = segs.subrange(1, segs.len() as int);
        if s.len() == 0 {
            walk_read(n, rest)
        } else {
            match n {
                NodeView::Table(es) => match tbl_lookup(es, s) {
                    Some(c) => walk_read(c, rest),
                    None => None,
                },
                NodeView::Array(xs) => if is_digits(s) && digits_val(s) < xs.len() {
                    walk_read(xs[digits_val(s) as int], rest)
                } else {
                    None
                },
                _ => None,
            }
        }
    }
}

/// A single read step by string: the whole string is tried first as one
/// literal table key, and only if that misses and the string actually
/// contains a delimiter does the multi-segment walk run.
pub open spec fn step_key_read(n: NodeView, p: Seq<char>) -> Option<NodeView> {
    match key_child(n, p) {
        Some(c) => Some(c),
        None => {
            let segs = split_path(p);
            if segs.len() > 1 {
                walk_read(n, segs)
            } else {
                None
            }
        },
    }
}

// ------------------------------------------------------------------
// Write-side resolution.
// ------------------------------------------------------------------
/// The multi-segment write walk, returning the resolved steps it appends.
/// Unlike the read walk it classifies each segment by its own shape: an
/// all-digit segment is always an index step, so a table key made of
/// digits is not reachable this way.
pub open spec fn walk_write_ext(n: NodeView, segs: Seq<Seq<char>>) -> Option<Seq<StepView>>
    decreases segs.len(),
{
    if segs.len() == 0 {
        Some(Seq::empty())
    } else {
        let s = segs[0];
        let rest = segs.subrange(1, segs.len() as int);
        if s.len() == 0 {
            walk_write_ext(n, rest)
        } else if is_digits(s) {
            match idx_child(n, digits_val(s) as int) {
                Some(c) => match walk_write_ext(c, rest) {
                    Some(t) => Some(seq![StepView::Idx(digits_val(s) as int)] + t),
                    None => None,
                },
                None => None,
            }
        } else {
            match key_child(n, s) {
                Some(c) => match walk_write_ext(c, rest) {
                    Some(t) => Some(seq![StepView::Key(s)] + t),
                    None => None,
                },
                None => None,
            }
        }
    }
}

/// A single write step by string, as the resolved steps it appends to the
/// pointer's location: direct literal key first, multi-segment walk only
/// as a fallback.
pub open spec fn write_ext(n: NodeView, p: Seq<char>) -> Option<Seq<StepView>> {
    match key_child(n, p) {
        Some(_) => Some(seq![StepView::Key(p)]),
        None => {
            let segs = split_path(p);
            if segs.len() > 1 {
                walk_write_ext(n, segs)
            } else {
                None
            }
        },
    }
}

// ------------------------------------------------------------------
// Scalars and extraction.
// ------------------------------------------------------------------
/// A scalar node: anything but a table or an array.
pub open spec fn is_scalar(n: NodeView) -> bool {
    !(n is Table) && !(n is Array)
}

/// Two nodes are scalars of the same extractable kind. Date/time scalars
/// are never extractable or overwritable, so they match nothing, not even
/// each other.
pub open spec fn same_scalar_kind(a: NodeView, b: NodeView) -> bool {
    ||| (a is Text && b is Text)
    ||| (a is Int && b is Int)
    ||| (a is Float && b is Float)
    ||| (a is Bool && b is Bool)
}

/// Extraction of a text scalar: the stored characters exactly when the
/// target is a text node, the default in every other case.
pub open spec fn extract_text_spec(t: Option<NodeView>, d: Seq<char>) -> Seq<char> {
    match t {
        Some(NodeView::Text(s)) => s,
        _ => d,
    }
}

/// Extraction of an integer scalar, with no coercion from other kinds.
pub open spec fn extract_int_spec(t: Option<NodeView>, d: i64) -> i64 {
    match t {
        Some(NodeView::Int(i)) => i,
        _ => d,
    }
}

/// Extraction of a floating-point scalar as its bit pattern, with no
/// coercion from other kinds.
pub open spec fn extract_float_spec(t: Option<NodeView>, d: u64) -> u64 {
    match t {
        Some(NodeView::Float(bits)) => bits,
        _ => d,
    }
}

/// Extraction of a boolean scalar, with no coercion from other kinds.
pub open spec fn extract_bool_spec(t: Option<NodeView>, d: bool) -> bool {
    match t {
        Some(NodeView::Bool(b)) => b,
        _ => d,
    }
}

// ------------------------------------------------------------------
// Lemmas tying lookups, sets and locations together.
// ------------------------------------------------------------------
/// First-match lookup ignores a prefix of non-matching entries.
pub proof fn lemma_tbl_lookup_from(es: Seq<(Seq<char>, NodeView)>, key: Seq<char>, i: int)
    requires
        0 <= i <= es.len(),
        forall|j: int| 0 <= j < i ==> es[j].0 != key,
    ensures
        tbl_lookup(es, key) == tbl_lookup(es.subrange(i, es.len() as int), key),
    decreases i,
{
    if i == 0 {
        assert(es.subrange(0, es.len() as int) == es);
    } else {
        let tail = es.subrange(1, es.len() as int);
        lemma_tbl_lookup_from(tail, key, i - 1);
        assert(tail.subrange(i - 1, tail.len() as int) == es.subrange(i, es.len() as int));
    }
}

/// Setting a key whose first match is at `j` updates exactly that entry.
pub proof fn lemma_tbl_set_found(
    es: Seq<(Seq<char>, NodeView)>,
    key: Seq<char>,
    v: NodeView,
    j: int,
)
    requires
        0 <= j < es.len(),
        es[j].0 == key,
        forall|k: int| 0 <= k < j ==> es[k].0 != key,
    ensures
        tbl_set(es, key, v) == es.update(j, (es[j].0, v)),
    decreases j,
{
    if j == 0 {
        assert(tbl_set(es, key, v) =~= es.update(0, (es[0].0, v)));
    } else {
        let tail = es.subrange(1, es.len() as int);
        lemma_tbl_set_found(tail, key, v, j - 1);
        assert(tbl_set(es, key, v) =~= es.update(j, (es[j].0, v)));
    }
}

/// Setting a key that no entry holds appends one entry at the end.
pub proof fn lemma_tbl_set_missing(es: Seq<(Seq<char>, NodeView)>, key: Seq<char>, v: NodeView)
    requires
        !tbl_contains(es, key),
    ensures
        tbl_set(es, key, v) == es.push((key, v)),
    decreases es.len(),
{
    if es.len() == 0 {
        assert(tbl_set(es, key, v) =~= es.push((key, v)));
    } else {
        let tail = es.subrange(1, es.len() as int);
        assert(forall|i: int| 0 <= i < tail.len() ==> tail[i] == es[i + 1]);
        lemma_tbl_set_missing(tail, key, v);
        assert(tbl_set(es, key, v) =~= es.push((key, v)));
    }
}

/// After a set, looking the key up finds the new value.
pub proof fn lemma_tbl_set_lookup(es: Seq<(Seq<char>, NodeView)>, key: Seq<char>, v: NodeView)
    ensures
        tbl_lookup(tbl_set(es, key, v), key) == Some(v),
    decreases es.len(),
{
    if es.len() == 0 {
        assert(tbl_set(es, key, v) == seq![(key, v)]);
    } else if es[0].0 == key {
        let out = tbl_set(es, key, v);
        assert(out[0] == (es[0].0, v));
    } else {
        let tail = es.subrange(1, es.len() as int);
        lemma_tbl_set_lookup(tail, key, v);
        let out = tbl_set(es, key, v);
        assert(out[0] == es[0]);
        assert(out.subrange(1, out.len() as int) =~= tbl_set(tail, key, v));
    }
}

/// After a set, every other key looks up as before.
pub proof fn lemma_tbl_set_other(
    es: Seq<(Seq<char>, NodeView)>,
    key: Seq<char>,
    v: NodeView,
    other: Seq<char>,
)
    requires
        other != key,
    ensures
        tbl_lookup(tbl_set(es, key, v), other) == tbl_lookup(es, other),
    decreases es.len(),
{
    if es.len() == 0 {
        let out = tbl_set(es, key, v);
        assert(out.subrange(1, 1).len() == 0);
        assert(tbl_lookup(out, other) == tbl_lookup(out.subrange(1, 1), other));
    } else {
        let tail = es.subrange(1, es.len() as int);
        lemma_tbl_set_other(tail, key, v, other);
        let out = tbl_set(es, key, v);
        if es[0].0 == key {
            assert(out[0] == (es[0].0, v));
            assert(out.subrange(1, out.len() as int) =~= tail);
            assert(tbl_lookup(out, other) == tbl_lookup(tail, other));
            assert(tbl_lookup(es, other) == tbl_lookup(tail, other));
        } else {
            assert(out[0] == es[0]);
            assert(out.subrange(1, out.len() as int) =~= tbl_set(tail, key, v));
            if es[0].0 == other {
                assert(tbl_lookup(out, other) == Some(es[0].1));
            } else {
                assert(tbl_lookup(out, other) == tbl_lookup(tbl_set(tail, key, v), other));
                assert(tbl_lookup(es, other) == tbl_lookup(tail, other));
            }
        }
    }
}

/// A set keeps the table size when the key pre-exists, and grows it by
/// exactly one entry otherwise.
pub proof fn lemma_tbl_set_len(es: Seq<(Seq<char>, NodeView)>, key: Seq<char>, v: NodeView)
    ensures
        tbl_contains(es, key) ==> tbl_set(es, key, v).len() == es.len(),
        !tbl_contains(es, key) ==> tbl_set(es, key, v).len() == es.len() + 1,
    decreases es.len(),
{
    if es.len() == 0 {
    } else if es[0].0 == key {
    } else {
        let tail = es.subrange(1, es.len() as int);
        lemma_tbl_set_len(tail, key, v);
        assert(forall|i: int| 0 <= i < tail.len() ==> tail[i] == es[i + 1]);
        if tbl_contains(es, key) {
            let w = choose|i: int| 0 <= i < es.len() && es[i].0 == key;
            assert(tail[w - 1] == es[w]);
            assert(tbl_contains(tail, key));
        } else {
            assert(!tbl_contains(tail, key));
        }
    }
}

/// After replacing the node at a valid location, that location resolves
/// to the new node.
pub proof fn lemma_update_at_same(n: NodeView, l: Seq<StepView>, v: NodeView)
    requires
        node_at(n, l) is Some,
    ensures
        node_at(update_at(n, l, v), l) == Some(v),
    decreases l.len(),
{
    if l.len() == 0 {
    } else {
        let rest = l.subrange(1, l.len() as int);
        let c = step_child(n, l[0]).unwrap();
        lemma_update_at_same(c, rest, v);
        let c2 = update_at(c, rest, v);
        match l[0] {
            StepView::Key(k) => {
                let es = n->Table_0;
                lemma_tbl_set_lookup(es, k, c2);
            },
            StepView::Idx(i) => {},
        }
    }
}

/// Steps resolved by the write walk really lead somewhere: the returned
/// location is valid from the node the walk started at.
pub proof fn lemma_walk_write_ext_valid(n: NodeView, segs: Seq<Seq<char>>)
    requires
        walk_write_ext(n, segs) is Some,
    ensures
        node_at(n, walk_write_ext(n, segs).unwrap()) is Some,
    decreases segs.len(),
{
    if segs.len() == 0 {
    } else {
        let s = segs[0];
        let rest = segs.subrange(1, segs.len() as int);
        if s.len() == 0 {
            lemma_walk_write_ext_valid(n, rest);
        } else if is_digits(s) {
            let c = idx_child(n, digits_val(s) as int).unwrap();
            lemma_walk_write_ext_valid(c, rest);
            let t = walk_write_ext(c, rest).unwrap();
            let ext = walk_write_ext(n, segs).unwrap();
            assert(ext.subrange(1, ext.len() as int) =~= t);
        } else {
            let c = key_child(n, s).unwrap();
            lemma_walk_write_ext_valid(c, rest);
            let t = walk_write_ext(c, rest).unwrap();
            let ext = walk_write_ext(n, segs).unwrap();
            assert(ext.subrange(1, ext.len() as int) =~= t);
        }
    }
}

/// A one-step location resolves to the step's child.
pub proof fn lemma_node_at_single(n: NodeView, s: StepView)
    ensures
        node_at(n, seq![s]) == step_child(n, s),
{
    let l = seq![s];
    assert(l.subrange(1, 1).len() == 0);
    match step_child(n, s) {
        Some(c) => {
            assert(node_at(c, l.subrange(1, 1)) == Some(c));
        },
        None => {},
    }
}

/// A location extension resolves through `node_at` step by step.
pub proof fn lemma_node_at_concat(n: NodeView, l1: Seq<StepView>, l2: Seq<StepView>)
    requires
        node_at(n, l1) is Some,
    ensures
        node_at(n, l1 + l2) == node_at(node_at(n, l1).unwrap(), l2),
    decreases l1.len(),
{
    if l1.len() == 0 {
        assert(l1 + l2 =~= l2);
    } else {
        let c = step_child(n, l1[0]).unwrap();
        assert((l1 + l2)[0] == l1[0]);
        assert((l1 + l2).subrange(1, (l1 + l2).len() as int) =~= l1.subrange(1, l1.len() as int)
            + l2);
        lemma_node_at_concat(c, l1.subrange(1, l1.len() as int), l2);
    }
}

} // verus!
