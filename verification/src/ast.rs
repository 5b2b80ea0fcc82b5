//! The tree value built by the parser, and its mathematical model.

use vstd::prelude::*;

verus! {

broadcast use vstd::std_specs::vec::axiom_vec_index_decreases;

/// Mathematical model of a tree value: sequences in place of vectors,
/// character sequences in place of strings, unbounded integers in place of
/// machine integers.
pub enum NodeModel {
    Object(Seq<(Seq<char>, NodeModel)>),
    Array(Seq<NodeModel>),
    Str(Seq<char>),
    Int(int),
    Float(Seq<char>),
    True,
    False,
    Null,
}

/// A JSON tree value. An object is an ordered sequence of key/value pairs;
/// keys are not required to be unique and insertion order is preserved.
/// `Float` holds the numeric text exactly as lexed; the grammar guarantees
/// that it parses as a double-precision value, a conversion that belongs to
/// the consumer.
#[derive(Debug, PartialEq)]
pub enum Node {
    Object(Vec<(String, Node)>),
    Array(Vec<Node>),
    Str(String),
    Int(isize),
    Float(String),
    True,
    False,
    Null,
}

/// The model of a tree value, by structural recursion.
pub open spec fn node_model(n: Node) -> NodeModel
    decreases n,
{
    match n {
        Node::Object(items) => NodeModel::Object(
            Seq::new(
                items@.len(),
                |i: int|
                    if 0 <= i < items.len() {
                        (items[i].0@, node_model(items[i].1))
                    } else {
                        (Seq::empty(), NodeModel::Null)
                    },
            ),
        ),
        Node::Array(items) => NodeModel::Array(
            Seq::new(
                items@.len(),
                |i: int|
                    if 0 <= i < items.len() {
                        node_model(items[i])
                    } else {
                        NodeModel::Null
                    },
            ),
        ),
        Node::Str(s) => NodeModel::Str(s@),
        Node::Int(v) => NodeModel::Int(v as int),
        Node::Float(text) => NodeModel::Float(text@),
        Node::True => NodeModel::True,
        Node::False => NodeModel::False,
        Node::Null => NodeModel::Null,
    }
}

impl View for Node {
    type V = NodeModel;

    open spec fn view(&self) -> NodeModel {
        node_model(*self)
    }
}

/// Model of a sequence of object members.
pub open spec fn entries_view(v: Seq<(String, Node)>) -> Seq<(Seq<char>, NodeModel)> {
    Seq::new(v.len(), |i: int| (v[i].0@, v[i].1@))
}

/// Model of a sequence of array elements.
pub open spec fn nodes_view(v: Seq<Node>) -> Seq<NodeModel> {
    Seq::new(v.len(), |i: int| v[i]@)
}

/// An object node's model holds exactly the members' models.
pub proof fn lemma_object_view(items: Vec<(String, Node)>)
    ensures
        Node::Object(items)@ == NodeModel::Object(entries_view(items@)),
{
    let m = Node::Object(items)@;
    match m {
        NodeModel::Object(es) => {
            assert forall|i: int| 0 <= i < items@.len() implies es[i] == entries_view(items@)[i]
            by {
                assert(es[i] == (items@[i].0@, items@[i].1.view()));
            }
            assert(es =~= entries_view(items@));
        },
        _ => {
            assert(false);
        },
    }
}

/// An array node's model holds exactly the elements' models.
pub proof fn lemma_array_view(elems: Vec<Node>)
    ensures
        Node::Array(elems)@ == NodeModel::Array(nodes_view(elems@)),
{
    let m = Node::Array(elems)@;
    match m {
        NodeModel::Array(es) => {
            assert forall|i: int| 0 <= i < elems@.len() implies es[i] == nodes_view(elems@)[i]
            by {
                assert(es[i] == elems@[i].view());
            }
            assert(es =~= nodes_view(elems@));
        },
        _ => {
            assert(false);
        },
    }
}

} // verus!

