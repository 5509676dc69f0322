//! The in-memory form of the key-value configuration format: a tree of
//! nodes, each either a quoted scalar (kept in its raw, still-escaped
//! form) or an ordered object of key/node pairs in which duplicate keys
//! are retained.

use vstd::prelude::*;

verus! {

/// Mathematical abstraction of a configuration node.
pub enum NodeView {
    Scalar(Seq<char>),
    Object(Seq<(Seq<char>, NodeView)>),
}

/// A parsed configuration node. A `Scalar` holds the raw characters that
/// stood between the quotes, escape sequences untouched; an `Object`
/// holds its entries in the order the text gave them, duplicates kept.
#[derive(Debug, PartialEq, Eq)]
pub enum ConfigNode {
    Scalar(Vec<char>),
    Object(Vec<(Vec<char>, ConfigNode)>),
}

/// The abstraction of a node: scalars become character sequences and
/// objects become sequences of key/value pairs.
pub open spec fn node_view(n: ConfigNode) -> NodeView
    decreases n,
{
    match n {
        ConfigNode::Scalar(raw) => NodeView::Scalar(raw@),
        ConfigNode::Object(entries) => NodeView::Object(
            Seq::new(
                entries@.len(),
                |i: int|
                    if 0 <= i < entries@.len() {
                        (entries@[i].0@, node_view(entries@[i].1))
                    } else {
                        arbitrary()
                    },
            ),
        ),
    }
}

impl DeepView for ConfigNode {
    type V = NodeView;

    open spec fn deep_view(&self) -> NodeView {
        node_view(*self)
    }
}

/// An object node's abstraction is the deep view of its entry vector.
pub proof fn lemma_object_view(entries: Vec<(Vec<char>, ConfigNode)>)
    ensures
        node_view(ConfigNode::Object(entries)) == NodeView::Object(entries.deep_view()),
{
    let lhs = node_view(ConfigNode::Object(entries));
    assert(lhs matches NodeView::Object(s) && s =~~= entries.deep_view());
}

/// A character vector's deep view is its view.
pub proof fn lemma_chars_deep(v: Vec<char>)
    ensures
        v.deep_view() == v@,
{
    assert(v.deep_view() =~= v@);
}

/// Character-for-character equality of two character vectors.
pub fn chars_eq(a: &Vec<char>, b: &Vec<char>) -> (r: bool)
    ensures
        r <==> a@ == b@,
{
    if a.len() != b.len() {
        assert(a@ != b@);
        return false;
    }
    let mut i: usize = 0;
    while i < a.len()
        invariant
            i <= a.len(),
            a.len() == b.len(),
            forall|j: int| 0 <= j < i ==> a@[j] == b@[j],
        decreases a.len() - i,
    {
        if a[i] != b[i] {
            return false;
        }
        i += 1;
    }
    proof {
        assert(a@ =~= b@);
    }
    true
}

/// Copy of a character vector.
pub fn chars_clone(a: &Vec<char>) -> (r: Vec<char>)
    ensures
        r@ == a@,
{
    let mut out: Vec<char> = Vec::new();
    let mut i: usize = 0;
    while i < a.len()
        invariant
            i <= a.len(),
            out@ =~= a@.subrange(0, i as int),
        decreases a.len() - i,
    {
        out.push(a[i]);
        i += 1;
    }
    proof {
        assert(out@ =~= a@);
    }
    out
}

} // verus!
