use vstd::prelude::*;

use crate::element::{models, Element, Node};
use crate::key::Key;

verus! {

/// One atomic edit, as recorded by the reconciler or by a mutator.
#[derive(Debug, PartialEq)]
pub enum Change {
    /// Remove the child with this key.
    RemoveChild(Key),
    /// Add this brand-new child (appended when it comes from a mutator).
    InsertChild(Element),
    /// Put the children in this order of keys.
    SortChildren(Vec<Key>),
    /// Set the text of a text node.
    UpdateText(String),
    /// Replace the node by this one.
    ReplaceNode(Element),
    /// Insert this node before the child with this key.
    InsertBefore(Key, Element),
    /// Insert these nodes, in order, before the child with this key.
    InsertAllBefore(Key, Vec<Element>),
    /// Append these nodes, in order.
    AppendAll(Vec<Element>),
    /// Replace the child with this key by this node.
    ReplaceChild(Key, Element),
}

/// The value of a `Change`, with elements read as their models.
pub enum Edit {
    RemoveChild(Key),
    InsertChild(Node),
    SortChildren(Seq<Key>),
    UpdateText(Seq<char>),
    ReplaceNode(Node),
    InsertBefore(Key, Node),
    InsertAllBefore(Key, Seq<Node>),
    AppendAll(Seq<Node>),
    ReplaceChild(Key, Node),
}

impl Change {
    /// The value of the change.
    pub open spec fn model(self) -> Edit {
        match self {
            Change::RemoveChild(k) => Edit::RemoveChild(k),
            Change::InsertChild(e) => Edit::InsertChild(e.model()),
            Change::SortChildren(ks) => Edit::SortChildren(ks@),
            Change::UpdateText(s) => Edit::UpdateText(s@),
            Change::ReplaceNode(e) => Edit::ReplaceNode(e.model()),
            Change::InsertBefore(k, e) => Edit::InsertBefore(k, e.model()),
            Change::InsertAllBefore(k, es) => Edit::InsertAllBefore(k, models(es@)),
            Change::AppendAll(es) => Edit::AppendAll(models(es@)),
            Change::ReplaceChild(k, e) => Edit::ReplaceChild(k, e.model()),
        }
    }
}

/// The models of a sequence of changes.
pub open spec fn edits(cs: Seq<Change>) -> Seq<Edit> {
    cs.map_values(|c: Change| c.model())
}

/// The changes at one node, and the nested diffs of its children by key.
/// Neither side is ever an empty container: an empty side is `None`.
#[derive(Debug, PartialEq)]
pub struct DiffTree {
    pub changes: Option<Vec<Change>>,
    pub children: Option<Vec<(Key, DiffTree)>>,
}

/// The value of a `DiffTree`.
pub struct Delta {
    pub changes: Option<Seq<Edit>>,
    pub children: Option<Seq<(Key, Delta)>>,
}

impl DiffTree {
    /// The value of the diff.
    pub open spec fn model(self) -> Delta
        decreases self,
    {
        Delta {
            changes: match self.changes {
                Some(cs) => Some(edits(cs@)),
                None => None,
            },
            children: match self.children {
                Some(ds) => Some(
                    Seq::new(
                        ds.len() as nat,
                        |i: int|
                            if 0 <= i < ds.len() {
                                (ds[i].0, ds[i].1.model())
                            } else {
                                (ds[0].0, Delta { changes: None, children: None })
                            },
                    ),
                ),
                None => None,
            },
        }
    }
}

/// The model of an optional diff.
pub open spec fn delta_of(d: Option<DiffTree>) -> Option<Delta> {
    match d {
        Some(t) => Some(t.model()),
        None => None,
    }
}

} // verus!
