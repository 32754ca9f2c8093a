use vstd::prelude::*;

use crate::change::{Delta, Edit};
use crate::diff::{
    diff_of, insertion_over, insertions, local_edits, nested_entries, parent_delta, present,
    removal_in, removals, reordered,
};
use crate::element::{
    element_keys, has_key, key_index, lemma_keys_unique, models, node_keys, Element, Node,
};
use crate::mutate::{key_is_new, rechildren};

verus! {

/// A `filter_map` whose function gives nothing on every element is empty.
proof fn lemma_filter_map_none<A, B>(s: Seq<A>, f: spec_fn(A) -> Option<B>)
    requires
        forall|i: int| 0 <= i < s.len() ==> f(#[trigger] s[i]) is None,
    ensures
        s.filter_map(f) == Seq::<B>::empty(),
    decreases s.len(),
{
    if s.len() > 0 {
        let rest = s.drop_last();
        assert forall|i: int| 0 <= i < rest.len() implies f(#[trigger] rest[i]) is None by {
            assert(rest[i] == s[i]);
        }
        lemma_filter_map_none(rest, f);
        assert(f(s[s.len() - 1]) is None);
    }
}

/// Every node of `ns` has its key among the keys of `ns`.
proof fn lemma_own_keys(ns: Seq<Node>, i: int)
    requires
        0 <= i < ns.len(),
    ensures
        has_key(ns, ns[i].key()),
{
    assert(node_keys(ns)[i] == ns[i].key());
}

/// Diffing a well-formed tree against itself finds nothing to change.
pub proof fn lemma_self_diff_absent(t: Element)
    requires
        t.wf(),
    ensures
        diff_of(t.model(), t.model()) is None,
    decreases t,
{
    if t is Parent {
        t.lemma_wf_parent();
        t.lemma_model_children();
        let cs = t.spec_children();
        let pc = models(cs);
        assert forall|i: int| 0 <= i < pc.len() implies #[trigger] removal_in(pc)(pc[i]) is None by {
            lemma_own_keys(pc, i);
        }
        lemma_filter_map_none(pc, removal_in(pc));
        assert forall|i: int| 0 <= i < pc.len() implies #[trigger] insertion_over(pc)(pc[i]) is None by {
            lemma_own_keys(pc, i);
        }
        lemma_filter_map_none(pc, insertion_over(pc));
        assert(!reordered(pc, pc)) by {
            assert forall|i: int| 0 <= i < pc.len() && has_key(pc, #[trigger] pc[i].key()) implies key_index(pc, pc[i].key()) == i by {
                lemma_keys_unique(t.spec_keymap(), cs, i);
                cs[i].lemma_model_key();
            }
        }
        assert(local_edits(pc, pc) =~= Seq::<Edit>::empty());
        let es = nested_entries(pc, pc);
        assert forall|i: int| 0 <= i < es.len() implies #[trigger] present()(es[i]) is None by {
            lemma_keys_unique(t.spec_keymap(), cs, i);
            cs[i].lemma_model_key();
            assert(cs[i].wf());
            vstd::std_specs::vec::axiom_vec_index_decreases(t->Parent_children, i);
            lemma_self_diff_absent(cs[i]);
        }
        lemma_filter_map_none(es, present());
    }
}

/// Appending one child with a new key to a parent, then diffing the parent
/// against the result, gives exactly one insert-child change carrying that
/// child, and no nested diffs.
pub proof fn lemma_append_then_diff(p: Element, after: Element, c: Element)
    requires
        p is Parent,
        p.wf(),
        c.wf(),
        key_is_new(p, c),
        rechildren(p, after, p.spec_children().push(c)),
    ensures
        diff_of(p.model(), after.model()) == Some(
            Delta { changes: Some(seq![Edit::InsertChild(c.model())]), children: None },
        ),
{
    p.lemma_wf_parent();
    p.lemma_model_children();
    after.lemma_wf_parent();
    let cs = p.spec_children();
    let ds = cs.push(c);
    let pc = models(cs);
    let nc = models(ds);
    assert(nc =~= pc.push(c.model()));
    assert(after.model() == p.model().with_children(nc));
    // every previous child is kept, at its own position
    assert forall|i: int| 0 <= i < pc.len() implies has_key(nc, #[trigger] pc[i].key())
        && key_index(nc, pc[i].key()) == i by {
        lemma_keys_unique(after.spec_keymap(), ds, i);
        assert(ds[i] == cs[i]);
        cs[i].lemma_model_key();
    }
    assert forall|i: int| 0 <= i < pc.len() implies #[trigger] removal_in(nc)(pc[i]) is None by {}
    lemma_filter_map_none(pc, removal_in(nc));
    assert(!reordered(pc, nc));
    // only the appended child is new
    assert forall|i: int| 0 <= i < pc.len() implies #[trigger] insertion_over(pc)(pc[i]) is None by {
        lemma_own_keys(pc, i);
    }
    lemma_filter_map_none(pc, insertion_over(pc));
    c.lemma_model_key();
    assert(!has_key(pc, c.key())) by {
        crate::element::lemma_models_keys(cs);
    }
    nc.lemma_filter_map_take_succ(insertion_over(pc), pc.len() as int);
    assert(nc.take(pc.len() as int) =~= pc);
    assert(nc.take(pc.len() as int + 1) =~= nc);
    assert(insertions(pc, nc) =~= seq![Edit::InsertChild(c.model())]);
    assert(local_edits(pc, nc) =~= seq![Edit::InsertChild(c.model())]);
    // no kept child changed
    let es = nested_entries(pc, nc);
    assert forall|i: int| 0 <= i < es.len() implies #[trigger] present()(es[i]) is None by {
        assert(cs[i].wf());
        lemma_self_diff_absent(cs[i]);
        assert(nc[i] == pc[i]);
    }
    lemma_filter_map_none(es, present());
}

/// In a well-formed parent, which every successful mutation leaves behind,
/// the keymap sends the key of the child at each position to that position,
/// and holds no entry for a key that no child has.
pub proof fn lemma_keymap_exact(e: Element)
    requires
        e is Parent,
        e.wf(),
    ensures
        forall|i: int|
            0 <= i < e.spec_children().len() ==> {
                &&& e.spec_keymap().contains_key(#[trigger] e.spec_children()[i].key().spec_slot())
                &&& e.spec_keymap()[e.spec_children()[i].key().spec_slot()] == i
            },
        forall|s: (u8, u64)|
            #[trigger] e.spec_keymap().contains_key(s) ==> exists|i: int|
                0 <= i < e.spec_children().len() && #[trigger] e.spec_children()[i].key().spec_slot() == s,
{
    e.lemma_wf_parent();
    let cs = e.spec_children();
    assert forall|i: int| 0 <= i < cs.len() implies e.spec_keymap().contains_key(#[trigger] cs[i].key().spec_slot())
        && e.spec_keymap()[cs[i].key().spec_slot()] == i by {
        assert(element_keys(cs)[i] == cs[i].key());
        assert(e.spec_keymap().contains_key(element_keys(cs)[i].spec_slot()));
    }
    assert forall|s: (u8, u64)| #[trigger] e.spec_keymap().contains_key(s) implies exists|i: int|
        0 <= i < cs.len() && #[trigger] cs[i].key().spec_slot() == s by {
        let i = e.spec_keymap()[s] as int;
        assert(element_keys(cs)[i] == cs[i].key());
    }
}

} // verus!
