//! The document tree: nodes, their mathematical model, and lookups.

use vstd::prelude::*;

verus! {

/// Mathematical model of a document node.
///
/// A table is modelled as a sequence of key/value pairs; lookups take the
/// first pair whose key matches, so the model is total even for a sequence
/// that repeats a key.
pub enum NodeView {
    Table(Seq<(Seq<char>, NodeView)>),
    Array(Seq<NodeView>),
    Text(Seq<char>),
    Int(i64),
    /// IEEE-754 bit pattern of the stored floating-point value.
    Float(u64),
    Bool(bool),
    /// A date/time value, kept only as its textual form; it cannot be
    /// extracted or overwritten through a pointer.
    Datetime(Seq<char>),
}

/// One node of a document: a string-keyed table, an ordered array, or a
/// typed scalar.
///
/// Floating-point scalars are carried as their IEEE-754 bit pattern, and
/// date/time scalars as opaque text.
pub enum Node {
    Table(Vec<(String, Node)>),
    Array(Vec<Node>),
    Text(String),
    Int(i64),
    Float(u64),
    Bool(bool),
    Datetime(String),
}

impl Node {
    /// Model of a table's entry vector.
    pub open spec fn entries_view(es: Seq<(String, Node)>) -> Seq<(Seq<char>, NodeView)>
        decreases es,
    {
        if es.len() == 0 {
            Seq::empty()
        } else {
            seq![(es[0].0@, es[0].1.node_view())] + Node::entries_view(
                es.subrange(1, es.len() as int),
            )
        }
    }

    /// Model of an array's item vector.
    pub open spec fn items_view(xs: Seq<Node>) -> Seq<NodeView>
        decreases xs,
    {
        if xs.len() == 0 {
            Seq::empty()
        } else {
            seq![xs[0].node_view()] + Node::items_view(xs.subrange(1, xs.len() as int))
        }
    }

    /// The mathematical value of this node.
    pub open spec fn node_view(self) -> NodeView
        decreases self,
    {
        match self {
            Node::Table(es) => NodeView::Table(Node::entries_view(es@)),
            Node::Array(xs) => NodeView::Array(Node::items_view(xs@)),
            Node::Text(s) => NodeView::Text(s@),
            Node::Int(i) => NodeView::Int(i),
            Node::Float(bits) => NodeView::Float(bits),
            Node::Bool(b) => NodeView::Bool(b),
            Node::Datetime(s) => NodeView::Datetime(s@),
        }
    }
}

impl View for Node {
    type V = NodeView;

    open spec fn view(&self) -> NodeView {
        self.node_view()
    }
}

impl Node {
    /// The stored characters if this is a text scalar.
    pub fn as_str(&self) -> (r: Option<&str>)
        ensures
            match r {
                Some(s) => self@ == NodeView::Text(s@),
                None => !(self@ is Text),
            },
    {
        match self {
            Node::Text(s) => Some(s.as_str()),
            _ => None,
        }
    }

    /// The stored value if this is an integer scalar.
    pub fn as_integer(&self) -> (r: Option<i64>)
        ensures
            match r {
                Some(v) => self@ == NodeView::Int(v),
                None => !(self@ is Int),
            },
    {
        match self {
            Node::Int(v) => Some(*v),
            _ => None,
        }
    }

    /// The stored IEEE-754 bit pattern if this is a float scalar.
    pub fn as_float_bits(&self) -> (r: Option<u64>)
        ensures
            match r {
                Some(b) => self@ == NodeView::Float(b),
                None => !(self@ is Float),
            },
    {
        match self {
            Node::Float(b) => Some(*b),
            _ => None,
        }
    }

    /// The stored value if this is a boolean scalar.
    pub fn as_bool(&self) -> (r: Option<bool>)
        ensures
            match r {
                Some(b) => self@ == NodeView::Bool(b),
                None => !(self@ is Bool),
            },
    {
        match self {
            Node::Bool(b) => Some(*b),
            _ => None,
        }
    }

    /// The item vector if this is an array.
    pub fn as_array(&self) -> (r: Option<&Vec<Node>>)
        ensures
            match r {
                Some(xs) => self@ == NodeView::Array(Node::items_view(xs@)),
                None => !(self@ is Array),
            },
    {
        match self {
            Node::Array(xs) => Some(xs),
            _ => None,
        }
    }

    /// The entry vector if this is a table.
    pub fn as_table(&self) -> (r: Option<&Vec<(String, Node)>>)
        ensures
            match r {
                Some(es) => self@ == NodeView::Table(Node::entries_view(es@)),
                None => !(self@ is Table),
            },
    {
        match self {
            Node::Table(es) => Some(es),
            _ => None,
        }
    }

    /// Whether this node is a text scalar.
    pub fn is_str(&self) -> (r: bool)
        ensures
            r == (self@ is Text),
    {
        match self {
            Node::Text(_) => true,
            _ => false,
        }
    }
}

/// The entry model keeps length and pairs the key view with the node view.
pub proof fn lemma_entries_view(es: Seq<(String, Node)>)
    ensures
        Node::entries_view(es).len() == es.len(),
        forall|i: int|
            0 <= i < es.len() ==> #[trigger] Node::entries_view(es)[i] == (es[i].0@, es[i].1@),
    decreases es,
{
    if es.len() > 0 {
        lemma_entries_view(es.subrange(1, es.len() as int));
    }
}

/// The item model keeps length and maps each item to its view.
pub proof fn lemma_items_view(xs: Seq<Node>)
    ensures
        Node::items_view(xs).len() == xs.len(),
        forall|i: int| 0 <= i < xs.len() ==> #[trigger] Node::items_view(xs)[i] == xs[i]@,
    decreases xs,
{
    if xs.len() > 0 {
        lemma_items_view(xs.subrange(1, xs.len() as int));
    }
}

} // verus!
