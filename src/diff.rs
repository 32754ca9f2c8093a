use vstd::prelude::*;

use crate::change::{delta_of, edits, Change, Delta, DiffTree, Edit};
use std::collections::BTreeMap;

use crate::element::{
    element_keys, has_key, key_index, keymap_consistent, keys_of, lemma_keymap_lookup, lemma_models_keys,
    models, node_keys, Element, Node,
};
use crate::key::Key;

verus! {

broadcast use vstd::std_specs::btree::group_btree_axioms, vstd::laws_cmp::group_laws_cmp;

/// A diff that replaces the node by `next`.
pub open spec fn replaced(next: Node) -> Option<Delta> {
    Some(Delta { changes: Some(seq![Edit::ReplaceNode(next)]), children: None })
}

/// One remove-child edit per previous child whose key the next children lack,
/// in the previous order.
pub open spec fn removals(prev: Seq<Node>, next: Seq<Node>) -> Seq<Edit> {
    prev.filter_map(removal_in(next))
}

/// The remove-child edit a previous child gives against `next`, if any.
pub open spec fn removal_in(next: Seq<Node>) -> spec_fn(Node) -> Option<Edit> {
    |c: Node|
        if has_key(next, c.key()) {
            None
        } else {
            Some(Edit::RemoveChild(c.key()))
        }
}

/// One insert-child edit per next child whose key the previous children lack,
/// in the next order.
pub open spec fn insertions(prev: Seq<Node>, next: Seq<Node>) -> Seq<Edit> {
    next.filter_map(insertion_over(prev))
}

/// The insert-child edit a next child gives over `prev`, if any.
pub open spec fn insertion_over(prev: Seq<Node>) -> spec_fn(Node) -> Option<Edit> {
    |c: Node|
        if has_key(prev, c.key()) {
            None
        } else {
            Some(Edit::InsertChild(c))
        }
}

/// Some key kept from `prev` to `next` stands at another position.
pub open spec fn reordered(prev: Seq<Node>, next: Seq<Node>) -> bool {
    exists|i: int|
        0 <= i < prev.len() && has_key(next, #[trigger] prev[i].key()) && key_index(next, prev[i].key())
            != i
}

/// The edits at a parent: removals, then insertions, then one sort to the
/// full next order when some kept child moved.
pub open spec fn local_edits(prev: Seq<Node>, next: Seq<Node>) -> Seq<Edit> {
    removals(prev, next) + insertions(prev, next) + if reordered(prev, next) {
        seq![Edit::SortChildren(node_keys(next))]
    } else {
        Seq::empty()
    }
}

/// For each previous child whose key the next children keep, its key and the
/// diff against the next child with that key, where that diff is not empty.
pub open spec fn nested_entries(prev: Seq<Node>, next: Seq<Node>) -> Seq<Option<(Key, Delta)>>
    decreases prev, 1nat,
{
    Seq::new(
        prev.len(),
        |i: int|
            if 0 <= i < prev.len() && has_key(next, prev[i].key()) {
                match diff_of(prev[i], next[key_index(next, prev[i].key())]) {
                    Some(d) => Some((prev[i].key(), d)),
                    None => None,
                }
            } else {
                None
            },
    )
}

/// Keeps the entries that are present.
pub open spec fn present() -> spec_fn(Option<(Key, Delta)>) -> Option<(Key, Delta)> {
    |e: Option<(Key, Delta)>| e
}

/// The diff of two parents of the same tag name, from their children.
pub open spec fn parent_delta(prev: Seq<Node>, next: Seq<Node>) -> Option<Delta>
    decreases prev, 2nat,
{
    let local = local_edits(prev, next);
    let nested = nested_entries(prev, next).filter_map(present());
    if local.len() == 0 && nested.len() == 0 {
        None
    } else {
        Some(
            Delta {
                changes: if local.len() == 0 {
                    None
                } else {
                    Some(local)
                },
                children: if nested.len() == 0 {
                    None
                } else {
                    Some(nested)
                },
            },
        )
    }
}

/// What a replayer needs to turn `prev` into `next`; `None` when nothing.
/// Attributes take no part: a change of attributes alone gives no diff.
/// A move of kept children is one full resync of the order, never a series
/// of swaps.
pub open spec fn diff_of(prev: Node, next: Node) -> Option<Delta>
    decreases prev, 0nat,
{
    match (prev, next) {
        (Node::Text { value: a, .. }, Node::Text { value: b, .. }) => if a == b {
            None
        } else {
            Some(Delta { changes: Some(seq![Edit::UpdateText(b)]), children: None })
        },
        (Node::Void { name: a, .. }, Node::Void { name: b, .. }) => if a == b {
            None
        } else {
            replaced(next)
        },
        (
            Node::Parent { name: a, children: pc, .. },
            Node::Parent { name: b, children: nc, .. },
        ) => if a == b {
            parent_delta(pc, nc)
        } else {
            replaced(next)
        },
        _ => replaced(next),
    }
}

/// The models of nested diffs.
pub open spec fn entry_models(v: Seq<(Key, DiffTree)>) -> Seq<(Key, Delta)> {
    v.map_values(|p: (Key, DiffTree)| (p.0, p.1.model()))
}

/// A diff holding the one change `c`.
fn single(c: Change) -> (r: DiffTree)
    ensures
        r.model() == (Delta { changes: Some(seq![c.model()]), children: None }),
{
    let mut changes: Vec<Change> = Vec::new();
    changes.push(c);
    let r = DiffTree { changes: Some(changes), children: None };
    proof {
        assert(edits(changes@) =~= seq![c.model()]);
    }
    r
}

impl Element {
    /// The edits that turn `self` into `other`, or `None` when there are none.
    pub fn diff(&self, other: &Element) -> (r: Option<DiffTree>)
        requires
            self.wf(),
            other.wf(),
        ensures
            delta_of(r) == diff_of(self.model(), other.model()),
        decreases self, 1nat,
    {
        match self {
            Element::Text { value: a, .. } => {
                if let Element::Text { value: b, .. } = other {
                    if *a == *b {
                        return None;
                    } else {
                        return Some(single(Change::UpdateText(b.clone())));
                    }
                }
            },
            Element::Void { name: a, .. } => {
                if let Element::Void { name: b, .. } = other {
                    if *a == *b {
                        return None;
                    } else {
                        return Some(single(Change::ReplaceNode(other.duplicate())));
                    }
                }
            },
            Element::Parent { name: a, keymap: lk, children: lc, .. } => {
                if let Element::Parent { name: b, keymap: rk, children: rc, .. } = other {
                    if *a == *b {
                        proof {
                            self.lemma_wf_parent();
                            other.lemma_wf_parent();
                            self.lemma_model_children();
                            other.lemma_model_children();
                        }
                        return diff_children(lc, lk, rc, rk);
                    }
                }
            },
        }
        Some(single(Change::ReplaceNode(other.duplicate())))
    }
}

/// The diff of two parents of the same tag name, from their children and
/// keymaps.
fn diff_children(
    lc: &Vec<Element>,
    lk: &BTreeMap<(u8, u64), usize>,
    rc: &Vec<Element>,
    rk: &BTreeMap<(u8, u64), usize>,
) -> (r: Option<DiffTree>)
    requires
        keymap_consistent(lk@, element_keys(lc@)),
        keymap_consistent(rk@, element_keys(rc@)),
        forall|i: int| 0 <= i < lc.len() ==> (#[trigger] lc[i]).wf(),
        forall|i: int| 0 <= i < rc.len() ==> (#[trigger] rc[i]).wf(),
    ensures
        delta_of(r) == parent_delta(models(lc@), models(rc@)),
    decreases lc, 0nat,
{
    let ghost pc = models(lc@);
    let ghost nc = models(rc@);
    let mut changes: Vec<Change> = Vec::new();
    let mut nested: Vec<(Key, DiffTree)> = Vec::new();
    let mut order = false;
    let mut i: usize = 0;
    while i < lc.len()
        invariant
            pc == models(lc@),
            nc == models(rc@),
            keymap_consistent(lk@, element_keys(lc@)),
            keymap_consistent(rk@, element_keys(rc@)),
            forall|j: int| 0 <= j < lc.len() ==> (#[trigger] lc[j]).wf(),
            forall|j: int| 0 <= j < rc.len() ==> (#[trigger] rc[j]).wf(),
            i <= lc.len(),
            edits(changes@) == removals(pc.take(i as int), nc),
            entry_models(nested@) == nested_entries(pc, nc).take(i as int).filter_map(present()),
            order == exists|j: int|
                0 <= j < i && has_key(nc, #[trigger] pc[j].key()) && key_index(nc, pc[j].key()) != j,
        decreases lc.len() - i,
    {
        let k = lc[i].to_key();
        let ghost before = changes@;
        let ghost nested_before = nested@;
        proof {
            lemma_keymap_lookup(rk@, rc@, k);
            pc.lemma_filter_map_take_succ(removal_in(nc), i as int);
            nested_entries(pc, nc).lemma_filter_map_take_succ(present(), i as int);
            assert(pc[i as int] == lc[i as int].model());
            lc[i as int].lemma_model_key();
        }
        match rk.get(&k.slot()) {
            Some(j) => {
                let j = *j;
                if j != i {
                    order = true;
                }
                proof {
                    vstd::std_specs::vec::axiom_vec_index_decreases(*lc, i as int);
                    assert(nc[j as int] == rc[j as int].model());
                }
                let sub = lc[i].diff(&rc[j]);
                match sub {
                    Some(t) => {
                        nested.push((k, t));
                        proof {
                            assert(entry_models(nested@) =~= entry_models(nested_before).push((k, t.model())));
                        }
                    },
                    None => {},
                }
            },
            None => {
                changes.push(Change::RemoveChild(k));
                proof {
                    assert(edits(changes@) =~= edits(before).push(Edit::RemoveChild(k)));
                }
            },
        }
        i = i + 1;
    }
    proof {
        assert(pc.take(lc.len() as int) =~= pc);
        assert(nested_entries(pc, nc).take(lc.len() as int) =~= nested_entries(pc, nc));
    }
    let mut j: usize = 0;
    while j < rc.len()
        invariant
            pc == models(lc@),
            nc == models(rc@),
            keymap_consistent(lk@, element_keys(lc@)),
            keymap_consistent(rk@, element_keys(rc@)),
            j <= rc.len(),
            edits(changes@) == removals(pc, nc) + nc.take(j as int).filter_map(insertion_over(pc)),
        decreases rc.len() - j,
    {
        let k = rc[j].to_key();
        let ghost before = changes@;
        proof {
            lemma_keymap_lookup(lk@, lc@, k);
            nc.lemma_filter_map_take_succ(insertion_over(pc), j as int);
            assert(nc[j as int] == rc[j as int].model());
            rc[j as int].lemma_model_key();
        }
        if !lk.contains_key(&k.slot()) {
            let copy = rc[j].duplicate();
            changes.push(Change::InsertChild(copy));
            proof {
                assert(edits(changes@) =~= edits(before).push(Edit::InsertChild(nc[j as int])));
            }
        }
        j = j + 1;
    }
    proof {
        assert(nc.take(rc.len() as int) =~= nc);
    }
    if order {
        let ghost before = changes@;
        let keys = keys_of(rc);
        proof {
            lemma_models_keys(rc@);
        }
        changes.push(Change::SortChildren(keys));
        proof {
            assert(edits(changes@) =~= edits(before).push(Edit::SortChildren(node_keys(nc))));
        }
    }
    proof {
        assert(edits(changes@) =~= local_edits(pc, nc));
    }
    let no_changes = changes.len() == 0;
    let no_nested = nested.len() == 0;
    if no_changes && no_nested {
        None
    } else {
        let r = DiffTree {
            changes: if no_changes {
                None
            } else {
                Some(changes)
            },
            children: if no_nested {
                None
            } else {
                Some(nested)
            },
        };
        proof {
            if !no_nested {
                assert(r.model().children->Some_0 =~= entry_models(nested@));
            }
        }
        Some(r)
    }
}

} // verus!
