//! The write pointer: exclusive, consuming resolution and mutation.
//!
//! A write pointer owns the document while it is being edited: rooting a
//! pointer moves the tree in, every operation consumes the pointer and
//! returns a new one, and [`TomlPtrMut::into_document`] gives the tree
//! back. The pointer keeps the resolved location of its target, so a
//! mutation re-walks the owned tree and replaces exactly that node.

use vstd::prelude::*;

use crate::model::idx_child;
use crate::model::lemma_node_at_concat;
use crate::model::lemma_node_at_single;
use crate::model::lemma_tbl_lookup_from;
use crate::model::lemma_tbl_set_found;
use crate::model::lemma_tbl_set_missing;
use crate::model::lemma_update_at_same;
use crate::model::lemma_walk_write_ext_valid;
use crate::model::node_at;
use crate::model::same_scalar_kind;
use crate::model::step_views;
use crate::model::tbl_contains;
use crate::model::tbl_lookup;
use crate::model::tbl_set;
use crate::model::update_at;
use crate::model::walk_write_ext;
use crate::model::write_ext;
use crate::model::Step;
use crate::model::StepView;
use crate::model::extract_bool_spec;
use crate::model::extract_float_spec;
use crate::model::extract_int_spec;
use crate::model::extract_text_spec;
use crate::node::lemma_entries_view;
use crate::node::lemma_items_view;
use crate::node::Node;
use crate::node::NodeView;
use crate::path::build_path;
use crate::path::parse_index;
use crate::path::seg_views;
use crate::path::split_path;
use crate::read::key_child_exec;
use crate::read::idx_child_exec;
use crate::read::TomlPtr;

verus! {

/// First matching index of a key in a table's entry vector.
fn tbl_find(es: &Vec<(String, Node)>, key: &String) -> (r: Option<usize>)
    ensures
        match r {
            Some(j) => j < es@.len() && es@[j as int].0@ == key@ && forall|t: int|
                0 <= t < j ==> es@[t].0@ != key@,
            None => forall|t: int| 0 <= t < es@.len() ==> es@[t].0@ != key@,
        },
{
    let mut i: usize = 0;
    while i < es.len()
        invariant
            i <= es@.len(),
            forall|t: int| 0 <= t < i ==> es@[t].0@ != key@,
        decreases es@.len() - i,
    {
        let e = &es[i];
        if e.0 == *key {
            return Some(i);
        }
        i = i + 1;
    }
    None
}

/// Walk a borrowed node along resolved steps.
fn node_at_loc<'a>(root: &'a Node, loc: &Vec<Step>) -> (r: Option<&'a Node>)
    ensures
        match r {
            Some(c) => node_at(root@, step_views(loc@)) == Some(c@),
            None => node_at(root@, step_views(loc@)) is None,
        },
{
    let ghost whole = step_views(loc@);
    proof {
        assert(whole.subrange(0, whole.len() as int) =~= whole);
    }
    let mut i: usize = 0;
    let mut cur: &'a Node = root;
    while i < loc.len()
        invariant
            i <= loc@.len(),
            whole == step_views(loc@),
            whole.len() == loc@.len(),
            node_at(root@, whole) == node_at(cur@, whole.subrange(i as int, whole.len() as int)),
        decreases loc@.len() - i,
    {
        let ghost rem = whole.subrange(i as int, whole.len() as int);
        proof {
            assert(rem[0] == loc@[i as int]@);
            assert(rem.subrange(1, rem.len() as int) =~= whole.subrange(
                i + 1,
                whole.len() as int,
            ));
        }
        let next = match &loc[i] {
            Step::Key(k) => key_child_exec(cur, k.as_str()),
            Step::Idx(ix) => idx_child_exec(cur, *ix),
        };
        match next {
            Some(c) => {
                cur = c;
                i = i + 1;
            },
            None => {
                return None;
            },
        }
    }
    proof {
        assert(whole.subrange(i as int, whole.len() as int).len() == 0);
    }
    Some(cur)
}

/// Combine an already-resolved prefix with the rest of a write walk.
spec fn ext_combine(prefix: Seq<StepView>, rest: Option<Seq<StepView>>) -> Option<Seq<StepView>> {
    match rest {
        Some(t) => Some(prefix + t),
        None => None,
    }
}

/// Exec check that a whole segment is decimal digits.
fn is_digits_exec(p: &str) -> (r: bool)
    ensures
        r == crate::path::is_digits(p@),
{
    let n = p.unicode_len();
    if n == 0 {
        return false;
    }
    let mut i: usize = 0;
    while i < n
        invariant
            i <= n,
            n == p@.len(),
            forall|k: int| 0 <= k < i ==> crate::path::is_digit(p@[k]),
        decreases n - i,
    {
        let cv = p.get_char(i) as u32;
        if cv < 48 || cv > 57 {
            return false;
        }
        i = i + 1;
    }
    true
}

/// The multi-segment write walk: classify each non-empty segment by its
/// own shape (digits mean an index), and collect the resolved steps.
fn walk_write_exec(n: &Node, segs: &Vec<String>) -> (r: Option<Vec<Step>>)
    ensures
        match r {
            Some(l) => walk_write_ext(n@, seg_views(segs@)) == Some(step_views(l@)),
            None => walk_write_ext(n@, seg_views(segs@)) is None,
        },
{
    let ghost whole = seg_views(segs@);
    proof {
        assert(whole.subrange(0, whole.len() as int) =~= whole);
    }
    let mut i: usize = 0;
    let mut cur: &Node = n;
    let mut ext: Vec<Step> = Vec::new();
    while i < segs.len()
        invariant
            i <= segs@.len(),
            whole == seg_views(segs@),
            whole.len() == segs@.len(),
            walk_write_ext(n@, whole) == ext_combine(
                step_views(ext@),
                walk_write_ext(cur@, whole.subrange(i as int, whole.len() as int)),
            ),
        decreases segs@.len() - i,
    {
        let ghost rem = whole.subrange(i as int, whole.len() as int);
        let ghost pre = step_views(ext@);
        let s = &segs[i];
        proof {
            assert(rem[0] == s@);
            assert(rem.subrange(1, rem.len() as int) =~= whole.subrange(
                i + 1,
                whole.len() as int,
            ));
        }
        if s.as_str().unicode_len() == 0 {
            i = i + 1;
            continue ;
        }
        if is_digits_exec(s.as_str()) {
            match parse_index(s.as_str()) {
                Some(ix) => {
                    match idx_child_exec(cur, ix) {
                        Some(c) => {
                            let ghost st = StepView::Idx(crate::path::digits_val(s@) as int);
                            ext.push(Step::Idx(ix));
                            proof {
                                assert(step_views(ext@) =~= pre + seq![st]);
                                assert(forall|t: Option<Seq<StepView>>|
                                    ext_combine(pre, ext_combine(seq![st], t)) == ext_combine(
                                        (pre + seq![st]),
                                        t,
                                    ));
                            }
                            cur = c;
                            i = i + 1;
                        },
                        None => {
                            return None;
                        },
                    }
                },
                None => {
                    match cur {
                        Node::Array(xs) => {
                            let xlen = xs.len();
                            proof {
                                lemma_items_view(xs@);
                                assert(Node::items_view(xs@).len() == xlen);
                            }
                        },
                        _ => {},
                    }
                    return None;
                },
            }
        } else {
            match key_child_exec(cur, s.as_str()) {
                Some(c) => {
                    let ghost st = StepView::Key(s@);
                    ext.push(Step::Key(s.clone()));
                    proof {
                        assert(step_views(ext@) =~= pre + seq![st]);
                        assert(forall|t: Option<Seq<StepView>>|
                            ext_combine(pre, ext_combine(seq![st], t)) == ext_combine(
                                (pre + seq![st]),
                                t,
                            ));
                    }
                    cur = c;
                    i = i + 1;
                },
                None => {
                    return None;
                },
            }
        }
    }
    proof {
        assert(whole.subrange(i as int, whole.len() as int).len() == 0);
        assert(step_views(ext@) + Seq::<StepView>::empty() =~= step_views(ext@));
    }
    Some(ext)
}

/// A mutation to apply at a resolved target node.
enum MutOp {
    Overwrite(Node),
    InsertTable(String, Node),
    Append(Node),
    AppendAll(Vec<Node>),
    Reassign(Node),
}

/// Model of a mutation.
enum MutOpView {
    Overwrite(NodeView),
    InsertTable(Seq<char>, NodeView),
    Append(NodeView),
    AppendAll(Seq<NodeView>),
    Reassign(NodeView),
}

impl View for MutOp {
    type V = MutOpView;

    closed spec fn view(&self) -> MutOpView {
        match self {
            MutOp::Overwrite(v) => MutOpView::Overwrite(v@),
            MutOp::InsertTable(k, v) => MutOpView::InsertTable(k@, v@),
            MutOp::Append(v) => MutOpView::Append(v@),
            MutOp::AppendAll(vs) => MutOpView::AppendAll(Node::items_view(vs@)),
            MutOp::Reassign(v) => MutOpView::Reassign(v@),
        }
    }
}

/// The new target a mutation produces, or nothing where it is refused and
/// the document must stay as it is.
spec fn apply_op(t: NodeView, op: MutOpView) -> Option<NodeView> {
    match op {
        MutOpView::Overwrite(v) => if same_scalar_kind(t, v) {
            Some(v)
        } else {
            None
        },
        MutOpView::InsertTable(k, v) => match t {
            NodeView::Table(es) => Some(NodeView::Table(tbl_set(es, k, v))),
            _ => None,
        },
        MutOpView::Append(v) => match t {
            NodeView::Array(xs) => Some(NodeView::Array(xs.push(v))),
            _ => None,
        },
        MutOpView::AppendAll(vs) => match t {
            NodeView::Array(xs) => Some(NodeView::Array(xs + vs)),
            _ => None,
        },
        MutOpView::Reassign(v) => Some(v),
    }
}

/// Apply a mutation at the target node itself.
fn apply_op_exec(target: Node, op: MutOp) -> (r: (Node, bool))
    ensures
        match apply_op(target@, op@) {
            Some(t2) => r.1 && r.0@ == t2,
            None => !r.1 && r.0@ == target@,
        },
{
    match op {
        MutOp::Overwrite(v) => {
            let ok = match (&target, &v) {
                (Node::Text(_), Node::Text(_)) => true,
                (Node::Int(_), Node::Int(_)) => true,
                (Node::Float(_), Node::Float(_)) => true,
                (Node::Bool(_), Node::Bool(_)) => true,
                _ => false,
            };
            if ok {
                (v, true)
            } else {
                (target, false)
            }
        },
        MutOp::InsertTable(k, v) => {
            match target {
                Node::Table(mut es) => {
                    let ghost ev = Node::entries_view(es@);
                    proof {
                        lemma_entries_view(es@);
                    }
                    match tbl_find(&es, &k) {
                        Some(j) => {
                            let ghost es0 = es@;
                            let e = es.remove(j);
                            es.insert(j, (e.0, v));
                            proof {
                                assert(es@ =~= es0.update(j as int, (e.0, v)));
                                lemma_entries_view(es@);
                                lemma_tbl_set_found(ev, k@, v@, j as int);
                                assert(Node::entries_view(es@) =~= tbl_set(ev, k@, v@));
                            }
                            (Node::Table(es), true)
                        },
                        None => {
                            let ghost es0 = es@;
                            proof {
                                assert forall|i: int|
                                    0 <= i < ev.len() implies #[trigger] ev[i].0 != k@ by {
                                    assert(ev[i] == (es0[i].0@, es0[i].1@));
                                }
                                assert(!tbl_contains(ev, k@));
                                lemma_tbl_set_missing(ev, k@, v@);
                            }
                            es.push((k, v));
                            proof {
                                lemma_entries_view(es@);
                                assert(Node::entries_view(es@) =~= tbl_set(ev, k@, v@));
                            }
                            (Node::Table(es), true)
                        },
                    }
                },
                other => (other, false),
            }
        },
        MutOp::Append(v) => {
            match target {
                Node::Array(mut xs) => {
                    let ghost xv = Node::items_view(xs@);
                    proof {
                        lemma_items_view(xs@);
                    }
                    xs.push(v);
                    proof {
                        lemma_items_view(xs@);
                        assert(Node::items_view(xs@) =~= xv.push(v@));
                    }
                    (Node::Array(xs), true)
                },
                other => (other, false),
            }
        },
        MutOp::AppendAll(vs) => {
            match target {
                Node::Array(mut xs) => {
                    let ghost xv = Node::items_view(xs@);
                    let ghost vv = Node::items_view(vs@);
                    proof {
                        lemma_items_view(xs@);
                        lemma_items_view(vs@);
                    }
                    let mut vs = vs;
                    let mut k: usize = 0;
                    let n = vs.len();
                    while k < n
                        invariant
                            k <= n,
                            n == vs@.len(),
                            vv.len() == n,
                            forall|t: int| k <= t < n ==> #[trigger] vv[t] == vs@[t]@,
                            Node::items_view(xs@) == xv + vv.subrange(0, k as int),
                        decreases n - k,
                    {
                        let ghost xs0 = xs@;
                        let item = vs[k].take_replace();
                        xs.push(item);
                        proof {
                            lemma_items_view(xs0);
                            lemma_items_view(xs@);
                            assert(Node::items_view(xs@)[xs0.len() as int] == vv[k as int]);
                            let ghost lhs = Node::items_view(xs@);
                            let ghost rhs = xv + vv.subrange(0, k + 1);
                            assert(xs0.len() == xv.len() + k);
                            assert(lhs.len() == rhs.len());
                            assert forall|t: int| 0 <= t < lhs.len() implies lhs[t] == rhs[t] by {
                                if t < xs0.len() {
                                    assert(lhs[t] == xs0[t]@);
                                    assert(Node::items_view(xs0)[t] == xs0[t]@);
                                    assert(Node::items_view(xs0)[t] == (xv + vv.subrange(
                                        0,
                                        k as int,
                                    ))[t]);
                                    if t < xv.len() {
                                        assert(rhs[t] == xv[t]);
                                    } else {
                                        assert((xv + vv.subrange(0, k as int))[t] == vv[t
                                            - xv.len()]);
                                        assert(rhs[t] == vv[t - xv.len()]);
                                    }
                                } else {
                                    assert(t == xs0.len());
                                    assert(lhs[t] == vv[k as int]);
                                    assert(rhs[t] == vv.subrange(0, k + 1)[k as int]);
                                }
                            }
                            assert(lhs =~= rhs);
                        }
                        k = k + 1;
                    }
                    proof {
                        assert(vv.subrange(0, n as int) =~= vv);
                    }
                    (Node::Array(xs), true)
                },
                other => (other, false),
            }
        },
        MutOp::Reassign(v) => (v, true),
    }
}

impl Node {
    /// Take this node out, leaving a placeholder scalar behind.
    fn take_replace(&mut self) -> (r: Node)
        ensures
            r@ == old(self)@,
    {
        let mut out = Node::Bool(false);
        core::mem::swap(self, &mut out);
        out
    }
}

/// Descend the owned node along the resolved steps from position `i`,
/// apply the mutation at the target, and rebuild the tree around it.
fn apply_at(node: Node, loc: &Vec<Step>, i: usize, op: MutOp) -> (r: (Node, bool))
    requires
        i <= loc@.len(),
        node_at(node@, step_views(loc@).subrange(i as int, loc@.len() as int)) is Some,
    ensures
        ({
            let l = step_views(loc@).subrange(i as int, loc@.len() as int);
            match apply_op(node_at(node@, l).unwrap(), op@) {
                Some(t2) => r.1 && r.0@ == update_at(node@, l, t2),
                None => !r.1 && r.0@ == node@,
            }
        }),
    decreases loc@.len() - i,
{
    let ghost l = step_views(loc@).subrange(i as int, loc@.len() as int);
    if i == loc.len() {
        proof {
            assert(l.len() == 0);
        }
        apply_op_exec(node, op)
    } else {
        let ghost rest = step_views(loc@).subrange(i + 1, loc@.len() as int);
        proof {
            assert(l[0] == loc@[i as int]@);
            assert(l.subrange(1, l.len() as int) =~= rest);
        }
        match node {
            Node::Table(mut es) => {
                let ghost ev = Node::entries_view(es@);
                proof {
                    lemma_entries_view(es@);
                }
                match &loc[i] {
                    Step::Key(k) => {
                        match tbl_find(&es, k) {
                            Some(j) => {
                                proof {
                                    assert forall|t: int| 0 <= t < j implies #[trigger] ev[t].0
                                        != k@ by {
                                        assert(ev[t] == (es@[t].0@, es@[t].1@));
                                    }
                                    lemma_tbl_lookup_from(ev, k@, j as int);
                                    let suf = ev.subrange(j as int, ev.len() as int);
                                    assert(suf[0] == ev[j as int]);
                                    assert(tbl_lookup(ev, k@) == Some(ev[j as int].1));
                                }
                                let ghost es0 = es@;
                                let e = es.remove(j);
                                let (child2, ok) = apply_at(e.1, loc, i + 1, op);
                                es.insert(j, (e.0, child2));
                                proof {
                                    assert(es@ =~= es0.update(j as int, (e.0, child2)));
                                    lemma_entries_view(es@);
                                    lemma_tbl_set_found(ev, k@, child2@, j as int);
                                    assert(Node::entries_view(es@) =~= tbl_set(ev, k@, child2@));
                                    if !ok {
                                        assert(Node::entries_view(es@) =~= ev);
                                    }
                                }
                                (Node::Table(es), ok)
                            },
                            None => {
                                proof {
                                    assert forall|t: int|
                                        0 <= t < ev.len() implies #[trigger] ev[t].0 != k@ by {
                                        assert(ev[t] == (es@[t].0@, es@[t].1@));
                                    }
                                    lemma_tbl_lookup_from(ev, k@, ev.len() as int);
                                    assert(false);
                                }
                                (Node::Table(es), false)
                            },
                        }
                    },
                    Step::Idx(_) => {
                        proof {
                            assert(false);
                        }
                        (Node::Table(es), false)
                    },
                }
            },
            Node::Array(mut xs) => {
                let ghost xv = Node::items_view(xs@);
                proof {
                    lemma_items_view(xs@);
                }
                match &loc[i] {
                    Step::Idx(ix) => {
                        let j = *ix;
                        let ghost xs0 = xs@;
                        let child = xs.remove(j);
                        let (child2, ok) = apply_at(child, loc, i + 1, op);
                        xs.insert(j, child2);
                        proof {
                            assert(xs@ =~= xs0.update(j as int, child2));
                            lemma_items_view(xs@);
                            assert(Node::items_view(xs@) =~= xv.update(j as int, child2@));
                            if !ok {
                                assert(Node::items_view(xs@) =~= xv);
                            }
                        }
                        (Node::Array(xs), ok)
                    },
                    Step::Key(_) => {
                        proof {
                            assert(false);
                        }
                        (Node::Array(xs), false)
                    },
                }
            },
            other => {
                proof {
                    assert(false);
                }
                (other, false)
            },
        }
    }
}

/// An exclusive pointer over an owned document: bound to one node of the
/// tree it owns, or empty. Every operation consumes the pointer; the
/// document comes back out through [`TomlPtrMut::into_document`].
pub struct TomlPtrMut {
    root: Node,
    loc: Option<Vec<Step>>,
}

impl TomlPtrMut {
    /// The owned document, as its model.
    pub closed spec fn document(self) -> NodeView {
        self.root@
    }

    /// Whether the pointer is bound to a node.
    pub closed spec fn bound(self) -> bool {
        self.loc is Some
    }

    /// The resolved location of the bound node within the document;
    /// meaningful only while the pointer is bound.
    pub closed spec fn location(self) -> Seq<StepView> {
        step_views(self.loc.unwrap()@)
    }

    /// The node this pointer is bound to, if any, as its model.
    pub open spec fn target_view(self) -> Option<NodeView> {
        if self.bound() {
            node_at(self.document(), self.location())
        } else {
            None
        }
    }

    #[verifier::type_invariant]
    spec fn inv(self) -> bool {
        self.loc is Some ==> node_at(self.root@, step_views(self.loc.unwrap()@)) is Some
    }

    /// A write pointer bound to the root of the given document, which it
    /// takes over until [`TomlPtrMut::into_document`].
    pub fn new(root: Node) -> (r: Self)
        ensures
            r.document() == root@,
            r.bound(),
            r.location() == Seq::<StepView>::empty(),
            r.target_view() == Some(root@),
    {
        let l: Vec<Step> = Vec::new();
        proof {
            assert(step_views(l@) =~= Seq::<StepView>::empty());
        }
        TomlPtrMut { root, loc: Some(l) }
    }

    /// Give the document back, consuming the pointer.
    pub fn into_document(self) -> (r: Node)
        ensures
            r@ == self.document(),
    {
        self.root
    }

    /// Whether the pointer is bound to a node.
    pub fn is_bound(&self) -> (r: bool)
        ensures
            r == self.bound(),
    {
        self.loc.is_some()
    }

    /// The node this pointer is bound to, if any, borrowed read-only.
    pub fn unpath(&self) -> (r: Option<&Node>)
        ensures
            match r {
                Some(n) => self.target_view() == Some(n@),
                None => self.target_view() is None,
            },
    {
        proof {
            use_type_invariant(self);
        }
        match &self.loc {
            None => None,
            Some(l) => node_at_loc(&self.root, l),
        }
    }

    /// A read pointer over the bound node, borrowing the owned document.
    pub fn immut(&self) -> (r: TomlPtr<'_>)
        ensures
            r.target_view() == self.target_view(),
    {
        TomlPtr::new(self.unpath())
    }

    /// Resolve one string step, as the read pointer does but with the
    /// write walk's segment classification; consumes the pointer. An
    /// empty pointer stays empty, and the document is kept either way.
    pub fn step(self, p: &str) -> (r: Self)
        ensures
            r.document() == self.document(),
            match self.target_view() {
                Some(n) => match write_ext(n, p@) {
                    Some(ext) => r.bound() && r.location() == self.location() + ext,
                    None => !r.bound(),
                },
                None => !r.bound(),
            },
    {
        proof {
            use_type_invariant(&self);
        }
        let TomlPtrMut { root, loc } = self;
        match loc {
            None => TomlPtrMut { root, loc: None },
            Some(mut l) => {
                let ghost l0 = step_views(l@);
                let ghost target0 = node_at(root@, l0).unwrap();
                let target = node_at_loc(&root, &l).unwrap();
                match key_child_exec(target, p) {
                    Some(_) => {
                        let mut e: Vec<Step> = Vec::new();
                        e.push(Step::Key(p.to_owned()));
                        let ghost ev = seq![StepView::Key(p@)];
                        proof {
                            assert(step_views(e@) =~= ev);
                            assert(write_ext(target0, p@) == Some(ev));
                            lemma_node_at_single(target0, StepView::Key(p@));
                            lemma_node_at_concat(root@, l0, ev);
                        }
                        l.append(&mut e);
                        proof {
                            assert(step_views(l@) =~= l0 + ev);
                        }
                        TomlPtrMut { root, loc: Some(l) }
                    },
                    None => {
                        let segs = build_path(p);
                        if segs.len() > 1 {
                            match walk_write_exec(target, &segs) {
                                Some(mut e) => {
                                    let ghost ev = step_views(e@);
                                    proof {
                                        assert(write_ext(target0, p@) == Some(ev));
                                        lemma_walk_write_ext_valid(target0, split_path(p@));
                                        lemma_node_at_concat(root@, l0, ev);
                                    }
                                    l.append(&mut e);
                                    proof {
                                        assert(step_views(l@) =~= l0 + ev);
                                    }
                                    TomlPtrMut { root, loc: Some(l) }
                                },
                                None => TomlPtrMut { root, loc: None },
                            }
                        } else {
                            TomlPtrMut { root, loc: None }
                        }
                    },
                }
            },
        }
    }

    /// Resolve one index step: an in-range array index, or empty;
    /// consumes the pointer, keeping the document either way.
    pub fn step_index(self, i: usize) -> (r: Self)
        ensures
            r.document() == self.document(),
            match self.target_view() {
                Some(n) => match idx_child(n, i as int) {
                    Some(_) => r.bound() && r.location() == self.location().push(
                        StepView::Idx(i as int),
                    ),
                    None => !r.bound(),
                },
                None => !r.bound(),
            },
    {
        proof {
            use_type_invariant(&self);
        }
        let TomlPtrMut { root, loc } = self;
        match loc {
            None => TomlPtrMut { root, loc: None },
            Some(mut l) => {
                let ghost l0 = step_views(l@);
                let ghost target0 = node_at(root@, l0).unwrap();
                let target = node_at_loc(&root, &l).unwrap();
                if idx_child_exec(target, i).is_some() {
                    proof {
                        let ev = seq![StepView::Idx(i as int)];
                        lemma_node_at_single(target0, StepView::Idx(i as int));
                        lemma_node_at_concat(root@, l0, ev);
                    }
                    l.push(Step::Idx(i));
                    proof {
                        assert(step_views(l@) =~= l0.push(StepView::Idx(i as int)));
                        assert(l0.push(StepView::Idx(i as int)) =~= l0 + seq![
                            StepView::Idx(i as int),
                        ]);
                    }
                    TomlPtrMut { root, loc: Some(l) }
                } else {
                    TomlPtrMut { root, loc: None }
                }
            },
        }
    }

    /// Apply one mutation at the bound node: replace the target per the
    /// operation's model, or refuse and leave the document unchanged.
    fn mutate(self, op: MutOp) -> (r: Self)
        ensures
            match self.target_view() {
                Some(t) => match apply_op(t, op@) {
                    Some(t2) => r.document() == update_at(self.document(), self.location(), t2)
                        && r.bound() && r.location() == self.location() && r.target_view() == Some(
                        t2,
                    ),
                    None => r.document() == self.document() && !r.bound(),
                },
                None => r.document() == self.document() && !r.bound(),
            },
    {
        proof {
            use_type_invariant(&self);
        }
        let TomlPtrMut { root, loc } = self;
        match loc {
            None => TomlPtrMut { root, loc: None },
            Some(l) => {
                let ghost l0 = step_views(l@);
                proof {
                    assert(step_views(l@).subrange(0, l@.len() as int) =~= l0);
                }
                let (root2, ok) = apply_at(root, &l, 0, op);
                if ok {
                    proof {
                        lemma_update_at_same(
                            root@,
                            l0,
                            apply_op(node_at(root@, l0).unwrap(), op@).unwrap(),
                        );
                    }
                    TomlPtrMut { root: root2, loc: Some(l) }
                } else {
                    TomlPtrMut { root: root2, loc: None }
                }
            },
        }
    }

    /// Overwrite the bound scalar in place when its kind equals the new
    /// value's kind; on any mismatch (empty pointer, non-scalar target,
    /// differing kind) the document is unchanged and the result is empty.
    pub fn overwrite_if_matching_type(self, value: Node) -> (r: Self)
        ensures
            match self.target_view() {
                Some(t) => if same_scalar_kind(t, value@) {
                    r.document() == update_at(self.document(), self.location(), value@)
                        && r.bound() && r.location() == self.location() && r.target_view() == Some(
                        value@,
                    )
                } else {
                    r.document() == self.document() && !r.bound()
                },
                None => r.document() == self.document() && !r.bound(),
            },
    {
        self.mutate(MutOp::Overwrite(value))
    }

    /// Insert `value` under `key` in the bound table, overwriting the
    /// entry if the key pre-exists and appending one otherwise; empty and
    /// no change if the target is not a table.
    pub fn insert_into_table(self, key: &str, value: Node) -> (r: Self)
        ensures
            match self.target_view() {
                Some(t) => if t is Table {
                    r.document() == update_at(
                        self.document(),
                        self.location(),
                        NodeView::Table(tbl_set(t->Table_0, key@, value@)),
                    ) && r.bound() && r.location() == self.location() && r.target_view() == Some(
                        NodeView::Table(tbl_set(t->Table_0, key@, value@)),
                    )
                } else {
                    r.document() == self.document() && !r.bound()
                },
                None => r.document() == self.document() && !r.bound(),
            },
    {
        self.mutate(MutOp::InsertTable(key.to_owned(), value))
    }

    /// Append one value to the bound array; empty and no change if the
    /// target is not an array.
    pub fn append_to_array(self, value: Node) -> (r: Self)
        ensures
            match self.target_view() {
                Some(t) => if t is Array {
                    r.document() == update_at(
                        self.document(),
                        self.location(),
                        NodeView::Array(t->Array_0.push(value@)),
                    ) && r.bound() && r.location() == self.location() && r.target_view() == Some(
                        NodeView::Array(t->Array_0.push(value@)),
                    )
                } else {
                    r.document() == self.document() && !r.bound()
                },
                None => r.document() == self.document() && !r.bound(),
            },
    {
        self.mutate(MutOp::Append(value))
    }

    /// Append every value, in order, to the bound array; empty and no
    /// change if the target is not an array.
    pub fn append_all_to_array(self, values: Vec<Node>) -> (r: Self)
        ensures
            match self.target_view() {
                Some(t) => if t is Array {
                    r.document() == update_at(
                        self.document(),
                        self.location(),
                        NodeView::Array(t->Array_0 + Node::items_view(values@)),
                    ) && r.bound() && r.location() == self.location() && r.target_view() == Some(
                        NodeView::Array(t->Array_0 + Node::items_view(values@)),
                    )
                } else {
                    r.document() == self.document() && !r.bound()
                },
                None => r.document() == self.document() && !r.bound(),
            },
    {
        self.mutate(MutOp::AppendAll(values))
    }

    /// Replace the bound node by `value` whatever either kind is; a
    /// silent no-op on an empty pointer, which cannot create a node.
    pub fn reassign(self, value: Node) -> (r: Self)
        ensures
            match self.target_view() {
                Some(t) => r.document() == update_at(self.document(), self.location(), value@)
                    && r.bound() && r.location() == self.location() && r.target_view() == Some(
                    value@,
                ),
                None => r.document() == self.document() && !r.bound(),
            },
    {
        self.mutate(MutOp::Reassign(value))
    }

    /// In-place form of [`TomlPtrMut::reassign`].
    pub fn assign(&mut self, value: Node)
        ensures
            match old(self).target_view() {
                Some(t) => final (self).document() == update_at(
                    old(self).document(),
                    old(self).location(),
                    value@,
                ) && final (self).bound() && final (self).location() == old(self).location()
                    && final (self).target_view() == Some(value@),
                None => final (self).document() == old(self).document() && !final (self).bound(),
            },
    {
        let mut tmp = TomlPtrMut { root: Node::Bool(false), loc: None };
        core::mem::swap(self, &mut tmp);
        let res = tmp.reassign(value);
        *self = res;
    }

    /// The stored text if the pointer is bound to a text scalar, the
    /// default in every other case.
    pub fn extract_str(&self, default: &str) -> (r: String)
        ensures
            r@ == extract_text_spec(self.target_view(), default@),
    {
        self.immut().extract_str(default)
    }

    /// The stored integer if the pointer is bound to an integer scalar,
    /// the default in every other case; no coercion across kinds.
    pub fn extract_integer(&self, default: i64) -> (r: i64)
        ensures
            r == extract_int_spec(self.target_view(), default),
    {
        self.immut().extract_integer(default)
    }

    /// The stored floating-point bit pattern if the pointer is bound to a
    /// float scalar, the default in every other case.
    pub fn extract_float_bits(&self, default: u64) -> (r: u64)
        ensures
            r == extract_float_spec(self.target_view(), default),
    {
        self.immut().extract_float_bits(default)
    }

    /// The stored boolean if the pointer is bound to a boolean scalar, the
    /// default in every other case.
    pub fn extract_bool(&self, default: bool) -> (r: bool)
        ensures
            r == extract_bool_spec(self.target_view(), default),
    {
        self.immut().extract_bool(default)
    }
}

impl Node {
    /// A write pointer bound to this document's root, taking the document
    /// over until [`TomlPtrMut::into_document`].
    pub fn path_mut(self) -> (r: TomlPtrMut)
        ensures
            r.document() == self@,
            r.bound(),
            r.location() == Seq::<StepView>::empty(),
            r.target_view() == Some(self@),
    {
        TomlPtrMut::new(self)
    }

    /// A write pointer resolved from this document's root by the
    /// multi-segment write walk over the whole path expression.
    pub fn pathto_mut(self, p: &str) -> (r: TomlPtrMut)
        ensures
            r.document() == self@,
            match walk_write_ext(self@, split_path(p@)) {
                Some(ext) => r.bound() && r.location() == ext,
                None => !r.bound(),
            },
    {
        let segs = build_path(p);
        let loc = walk_write_exec(&self, &segs);
        proof {
            if loc is Some {
                lemma_walk_write_ext_valid(self@, seg_views(segs@));
            }
        }
        TomlPtrMut { root: self, loc }
    }
}

} // verus!
