//! The read pointer: shared, copyable resolution into a borrowed document.

use vstd::prelude::*;

use crate::model::idx_child;
use crate::model::key_child;
use crate::model::extract_bool_spec;
use crate::model::extract_float_spec;
use crate::model::extract_int_spec;
use crate::model::extract_text_spec;
use crate::model::lemma_tbl_lookup_from;
use crate::model::step_key_read;
use crate::model::tbl_lookup;
use crate::model::walk_read;
use crate::node::lemma_entries_view;
use crate::node::lemma_items_view;
use crate::node::Node;
use crate::node::NodeView;
use crate::path::build_path;
use crate::path::parse_index;
use crate::path::seg_views;
use crate::path::split_path;

verus! {

/// First-match lookup of a key in a table's entry vector.
pub(crate) fn tbl_get<'a>(es: &'a Vec<(String, Node)>, key: &str) -> (r: Option<&'a Node>)
    ensures
        match r {
            Some(c) => tbl_lookup(Node::entries_view(es@), key@) == Some(c@),
            None => tbl_lookup(Node::entries_view(es@), key@) is None,
        },
{
    proof {
        lemma_entries_view(es@);
    }
    let k: String = key.to_owned();
    let ghost ev = Node::entries_view(es@);
    let mut i: usize = 0;
    while i < es.len()
        invariant
            i <= es@.len(),
            k@ == key@,
            ev == Node::entries_view(es@),
            ev.len() == es@.len(),
            forall|j: int| 0 <= j < es@.len() ==> #[trigger] ev[j] == (es@[j].0@, es@[j].1@),
            forall|j: int| 0 <= j < i ==> #[trigger] ev[j].0 != key@,
        decreases es@.len() - i,
    {
        let e = &es[i];
        if e.0 == k {
            proof {
                lemma_tbl_lookup_from(ev, key@, i as int);
                let suf = ev.subrange(i as int, ev.len() as int);
                assert(suf[0] == ev[i as int]);
                assert(tbl_lookup(ev, key@) == Some(ev[i as int].1));
            }
            return Some(&e.1);
        }
        i = i + 1;
    }
    proof {
        lemma_tbl_lookup_from(ev, key@, es@.len() as int);
    }
    None
}

/// Bound-checked index into an array's item vector.
pub(crate) fn arr_get<'a>(xs: &'a Vec<Node>, i: usize) -> (r: Option<&'a Node>)
    ensures
        match r {
            Some(c) => i < xs@.len() && Node::items_view(xs@)[i as int] == c@,
            None => i >= xs@.len(),
        },
{
    proof {
        lemma_items_view(xs@);
    }
    if i < xs.len() {
        Some(&xs[i])
    } else {
        None
    }
}

/// The direct single-step lookup by literal key: a table child, or nothing.
pub(crate) fn key_child_exec<'a>(n: &'a Node, key: &str) -> (r: Option<&'a Node>)
    ensures
        match r {
            Some(c) => key_child(n@, key@) == Some(c@),
            None => key_child(n@, key@) is None,
        },
{
    match n {
        Node::Table(es) => tbl_get(es, key),
        _ => None,
    }
}

/// The direct single-step lookup by index: an array child, or nothing.
pub(crate) fn idx_child_exec<'a>(n: &'a Node, i: usize) -> (r: Option<&'a Node>)
    ensures
        match r {
            Some(c) => idx_child(n@, i as int) == Some(c@),
            None => idx_child(n@, i as int) is None,
        },
{
    match n {
        Node::Array(xs) => {
            proof {
                lemma_items_view(xs@);
            }
            arr_get(xs, i)
        },
        _ => None,
    }
}

/// The multi-segment read walk over a borrowed node.
pub(crate) fn walk_read_exec<'a>(n: &'a Node, segs: &Vec<String>) -> (r: Option<&'a Node>)
    ensures
        match r {
            Some(c) => walk_read(n@, seg_views(segs@)) == Some(c@),
            None => walk_read(n@, seg_views(segs@)) is None,
        },
{
    let ghost whole = seg_views(segs@);
    proof {
        assert(whole.subrange(0, whole.len() as int) =~= whole);
    }
    let mut i: usize = 0;
    let mut cur: &'a Node = n;
    while i < segs.len()
        invariant
            i <= segs@.len(),
            whole == seg_views(segs@),
            whole.len() == segs@.len(),
            walk_read(n@, whole) == walk_read(cur@, whole.subrange(i as int, whole.len() as int)),
        decreases segs@.len() - i,
    {
        let ghost rem = whole.subrange(i as int, whole.len() as int);
        let s = &segs[i];
        proof {
            assert(rem[0] == s@);
            assert(rem.subrange(1, rem.len() as int) =~= whole.subrange(
                i + 1,
                whole.len() as int,
            ));
        }
        if s.as_str().unicode_len() == 0 {
            i = i + 1;
            continue ;
        }
        match cur {
            Node::Table(es) => {
                match tbl_get(es, s.as_str()) {
                    Some(c) => {
                        cur = c;
                        i = i + 1;
                    },
                    None => {
                        return None;
                    },
                }
            },
            Node::Array(xs) => {
                let xlen = xs.len();
                proof {
                    lemma_items_view(xs@);
                }
                match parse_index(s.as_str()) {
                    Some(ix) => {
                        match arr_get(xs, ix) {
                            Some(c) => {
                                cur = c;
                                i = i + 1;
                            },
                            None => {
                                return None;
                            },
                        }
                    },
                    None => {
                        proof {
                            assert(xs@.len() <= usize::MAX);
                        }
                        return None;
                    },
                }
            },
            _ => {
                return None;
            },
        }
    }
    proof {
        assert(whole.subrange(i as int, whole.len() as int).len() == 0);
    }
    Some(cur)
}

/// A shared pointer into a document: bound to one node of the borrowed
/// tree, or empty. Copyable; any number may coexist over one document.
#[derive(Clone, Copy)]
pub struct TomlPtr<'a> {
    valop: Option<&'a Node>,
}

impl<'a> TomlPtr<'a> {
    /// The node this pointer is bound to, if any, as its model.
    pub closed spec fn target_view(self) -> Option<NodeView> {
        match self.valop {
            Some(n) => Some(n@),
            None => None,
        }
    }

    /// Whether the pointer is bound to a node.
    pub open spec fn bound(self) -> bool {
        self.target_view() is Some
    }

    /// Wrap an optional borrowed node.
    pub fn new(valop: Option<&'a Node>) -> (r: Self)
        ensures
            r.target_view() == match valop {
                Some(n) => Some(n@),
                None => None::<NodeView>,
            },
    {
        TomlPtr { valop }
    }

    /// A pointer bound to the given node.
    pub fn from(v: &'a Node) -> (r: Self)
        ensures
            r.target_view() == Some(v@),
    {
        TomlPtr { valop: Some(v) }
    }

    /// The borrowed node this pointer is bound to, if any.
    pub fn unpath(&self) -> (r: Option<&'a Node>)
        ensures
            match r {
                Some(n) => self.target_view() == Some(n@),
                None => self.target_view() is None,
            },
    {
        self.valop
    }

    /// Whether the pointer is bound to a node.
    pub fn is_bound(&self) -> (r: bool)
        ensures
            r == self.bound(),
    {
        self.valop.is_some()
    }

    /// Resolve one string step: the literal key first, then, if the string
    /// contains a delimiter, the multi-segment walk. An empty pointer
    /// stays empty.
    pub fn step(&self, p: &str) -> (r: TomlPtr<'a>)
        ensures
            r.target_view() == match self.target_view() {
                Some(n) => step_key_read(n, p@),
                None => None::<NodeView>,
            },
    {
        match self.valop {
            None => TomlPtr { valop: None },
            Some(n) => {
                match key_child_exec(n, p) {
                    Some(c) => TomlPtr { valop: Some(c) },
                    None => {
                        let segs = build_path(p);
                        if segs.len() > 1 {
                            TomlPtr { valop: walk_read_exec(n, &segs) }
                        } else {
                            TomlPtr { valop: None }
                        }
                    },
                }
            },
        }
    }

    /// Resolve one index step: an in-range array index, or empty.
    pub fn step_index(&self, i: usize) -> (r: TomlPtr<'a>)
        ensures
            r.target_view() == match self.target_view() {
                Some(n) => idx_child(n, i as int),
                None => None::<NodeView>,
            },
    {
        match self.valop {
            None => TomlPtr { valop: None },
            Some(n) => TomlPtr { valop: idx_child_exec(n, i) },
        }
    }

    /// The stored text if the pointer is bound to a text scalar, the
    /// default in every other case.
    pub fn extract_str(&self, default: &str) -> (r: String)
        ensures
            r@ == extract_text_spec(self.target_view(), default@),
    {
        match self.valop {
            Some(n) => match n {
                Node::Text(s) => s.clone(),
                _ => default.to_owned(),
            },
            None => default.to_owned(),
        }
    }

    /// The stored integer if the pointer is bound to an integer scalar,
    /// the default in every other case; no coercion across kinds.
    pub fn extract_integer(&self, default: i64) -> (r: i64)
        ensures
            r == extract_int_spec(self.target_view(), default),
    {
        match self.valop {
            Some(n) => match n {
                Node::Int(i) => *i,
                _ => default,
            },
            None => default,
        }
    }

    /// The stored floating-point bit pattern if the pointer is bound to a
    /// float scalar, the default in every other case.
    pub fn extract_float_bits(&self, default: u64) -> (r: u64)
        ensures
            r == extract_float_spec(self.target_view(), default),
    {
        match self.valop {
            Some(n) => match n {
                Node::Float(bits) => *bits,
                _ => default,
            },
            None => default,
        }
    }

    /// The stored boolean if the pointer is bound to a boolean scalar, the
    /// default in every other case.
    pub fn extract_bool(&self, default: bool) -> (r: bool)
        ensures
            r == extract_bool_spec(self.target_view(), default),
    {
        match self.valop {
            Some(n) => match n {
                Node::Bool(b) => *b,
                _ => default,
            },
            None => default,
        }
    }
}

impl Node {
    /// A read pointer bound to this node as the root of the walk.
    pub fn path(&self) -> (r: TomlPtr<'_>)
        ensures
            r.target_view() == Some(self@),
    {
        TomlPtr::from(self)
    }

    /// A read pointer resolved from this node by the multi-segment walk
    /// over the whole path expression.
    pub fn pathto(&self, p: &str) -> (r: TomlPtr<'_>)
        ensures
            r.target_view() == walk_read(self@, split_path(p@)),
    {
        let segs = build_path(p);
        TomlPtr { valop: walk_read_exec(self, &segs) }
    }
}

} // verus!
