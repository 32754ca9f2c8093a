use vstd::prelude::*;

use crate::change::{Change, Edit};
use crate::element::{
    build_keymap, element_keys, keys_distinct, keys_of, lemma_consistent_distinct, models, Element, Node,
};
use crate::key::Key;

verus! {

broadcast use vstd::std_specs::btree::group_btree_axioms, vstd::laws_cmp::group_laws_cmp;

/// Why a mutation was refused.
#[derive(Clone, Copy, PartialEq, Eq, Structural, Debug)]
pub enum ElementOpError {
    /// A child operation on a text or childless node.
    ChildlessElementOpError,
    /// An index not below the number of children.
    IndexOOBError,
    /// A text update on a node that is not text.
    NotATextNode,
}

/// `x` with the run `[n, m)` replaced by `y`.
pub open spec fn spliced<A>(x: Seq<A>, n: int, m: int, y: Seq<A>) -> Seq<A> {
    x.take(n) + y + x.skip(m)
}

/// Replacing a run of distinct keys by distinct keys that occur nowhere
/// outside the run keeps the keys distinct.
pub proof fn lemma_splice_distinct(x: Seq<Key>, n: int, m: int, y: Seq<Key>)
    requires
        x.no_duplicates(),
        y.no_duplicates(),
        0 <= n <= m <= x.len(),
        forall|i: int, j: int|
            0 <= i < x.len() && (i < n || m <= i) && 0 <= j < y.len() ==> x[i] != y[j],
    ensures
        spliced(x, n, m, y).no_duplicates(),
{
    let z = spliced(x, n, m, y);
    let ny = n + y.len();
    assert forall|a: int, b: int| 0 <= a < z.len() && 0 <= b < z.len() && a != b implies z[a] != z[b] by {
        let xa = if a < n { a } else { a - ny + m };
        let xb = if b < n { b } else { b - ny + m };
        if a < n || ny <= a {
            assert(z[a] == x[xa]);
        } else {
            assert(z[a] == y[a - n]);
        }
        if b < n || ny <= b {
            assert(z[b] == x[xb]);
        } else {
            assert(z[b] == y[b - n]);
        }
    }
}

/// `after` is the parent `before` with the children `cs`, indexed afresh.
pub open spec fn rechildren(before: Element, after: Element, cs: Seq<Element>) -> bool {
    &&& after is Parent
    &&& after.wf()
    &&& after.key() == before.key()
    &&& after.spec_children() == cs
    &&& after.model() == before.model().with_children(models(cs))
}

/// The keys of `cs` do not meet the keys of the children of `e` outside the
/// run `[n, m)`.
pub open spec fn fits(e: Element, n: int, m: int, cs: Seq<Element>) -> bool {
    forall|i: int, j: int|
        0 <= i < e.spec_children().len() && (i < n || m <= i) && 0 <= j < cs.len()
            ==> e.spec_children()[i].key() != cs[j].key()
}

/// Every element of `cs` is well formed.
pub open spec fn all_wf(cs: Seq<Element>) -> bool {
    forall|i: int| 0 <= i < cs.len() ==> (#[trigger] cs[i]).wf()
}

/// Why a child operation at `index` on `e` is refused, if it is.
pub open spec fn index_refusal(e: Element, index: int) -> Option<ElementOpError> {
    if !(e is Parent) {
        Some(ElementOpError::ChildlessElementOpError)
    } else if index >= e.spec_children().len() {
        Some(ElementOpError::IndexOOBError)
    } else {
        None
    }
}

/// Every key of `cs` is new to `e`.
pub open spec fn keys_are_new(e: Element, cs: Seq<Element>) -> bool {
    forall|j: int| 0 <= j < cs.len() ==> key_is_new(e, #[trigger] cs[j])
}

/// `cs` taken in the order of the positions `perm`.
pub open spec fn permuted(cs: Seq<Element>, perm: Seq<int>) -> Seq<Element> {
    Seq::new(perm.len(), |j: int| cs[perm[j]])
}

/// `perm` lists every position below `ranks.len()` once, in an order that
/// sorts `ranks` and keeps positions of equal rank in their first order.
pub open spec fn stable_order(ranks: Seq<u64>, perm: Seq<int>) -> bool {
    &&& perm.len() == ranks.len()
    &&& forall|j: int| 0 <= j < perm.len() ==> 0 <= #[trigger] perm[j] < ranks.len()
    &&& perm.no_duplicates()
    &&& forall|a: int, b: int|
        0 <= a < b < perm.len() ==> ranks[#[trigger] perm[a]] <= ranks[#[trigger] perm[b]]
    &&& forall|a: int, b: int|
        0 <= a < b < perm.len() && ranks[#[trigger] perm[a]] == ranks[#[trigger] perm[b]] ==> perm[a]
            < perm[b]
}

/// `ranks` holds what `order_key` gave for each of `cs`.
pub open spec fn ranked_by<F: Fn(&Element) -> u64>(order_key: F, cs: Seq<Element>, ranks: Seq<u64>) -> bool {
    &&& ranks.len() == cs.len()
    &&& forall|i: int| 0 <= i < cs.len() ==> order_key.ensures((&cs[i],), #[trigger] ranks[i])
}

/// The key of `el` is not among the children of `e`.
pub open spec fn key_is_new(e: Element, el: Element) -> bool {
    !element_keys(e.spec_children()).contains(el.key())
}

impl Element {
    /// Replaces the children in `[n, m)` by `y` and rebuilds the keymap.
    fn splice(&mut self, n: usize, m: usize, y: Vec<Element>)
        requires
            (*old(self)) is Parent,
            old(self).wf(),
            n <= m <= old(self).spec_children().len(),
            keys_distinct(y@),
            all_wf(y@),
            fits(*old(self), n as int, m as int, y@),
        ensures
            rechildren(*old(self), *final(self), spliced(old(self).spec_children(), n as int, m as int, y@)),
    {
        proof {
            old(self).lemma_wf_parent();
            old(self).lemma_model_children();
            let x = element_keys(old(self).spec_children());
            lemma_consistent_distinct(old(self).spec_keymap(), x);
            assert(element_keys(spliced(old(self).spec_children(), n as int, m as int, y@)) =~= spliced(
                x,
                n as int,
                m as int,
                element_keys(y@),
            ));
            lemma_splice_distinct(x, n as int, m as int, element_keys(y@));
        }
        let ghost cs = spliced(old(self).spec_children(), n as int, m as int, y@);
        match self {
            Element::Parent { keymap, children, .. } => {
                let mut tail = children.split_off(m);
                children.truncate(n);
                let mut y = y;
                children.append(&mut y);
                children.append(&mut tail);
                proof {
                    assert(children@ =~= cs);
                }
                match build_keymap(children) {
                    Some(km) => {
                        *keymap = km;
                    },
                    None => {},
                }
            },
            _ => {},
        }
        proof {
            self.lemma_wf_parent();
            self.lemma_model_children();
            assert(all_wf(cs)) by {
                assert forall|i: int| 0 <= i < cs.len() implies (#[trigger] cs[i]).wf() by {
                    if i < n {
                        assert(cs[i] == old(self).spec_children()[i]);
                    } else if i >= n + y.len() {
                        assert(cs[i] == old(self).spec_children()[i - n - y.len() + m]);
                    } else {
                        assert(cs[i] == y@[i - n]);
                    }
                }
            }
        }
    }

    /// Appends `el` to the children of a parent.
    pub fn append_child(&mut self, el: Element) -> (r: Result<Change, ElementOpError>)
        requires
            old(self).wf(),
            el.wf(),
            key_is_new(*old(self), el),
        ensures
            match r {
                Ok(c) => {
                    &&& (*old(self)) is Parent
                    &&& rechildren(*old(self), *final(self), old(self).spec_children().push(el))
                    &&& c.model() == Edit::InsertChild(el.model())
                },
                Err(e) => {
                    &&& !((*old(self)) is Parent)
                    &&& e == ElementOpError::ChildlessElementOpError
                    &&& *final(self) == *old(self)
                },
            },
    {
        if !self.is_parent() {
            return Err(ElementOpError::ChildlessElementOpError);
        }
        let len = self.child_count();
        let copy = el.duplicate();
        let mut y: Vec<Element> = Vec::new();
        y.push(el);
        proof {
            lemma_one(el);
            lemma_new_key_fits(*old(self), el, len as int, len as int);
            assert(y@ == seq![el]);
            assert(old(self).spec_children().push(el) =~= spliced(old(self).spec_children(), len as int, len as int, y@));
        }
        self.splice(len, len, y);
        Ok(Change::InsertChild(copy))
    }

    /// Inserts `el` before the child at `index`.
    pub fn insert_before(&mut self, index: usize, el: Element) -> (r: Result<Change, ElementOpError>)
        requires
            old(self).wf(),
            el.wf(),
            key_is_new(*old(self), el),
        ensures
            match r {
                Ok(c) => {
                    &&& index_refusal(*old(self), index as int) is None
                    &&& rechildren(*old(self), *final(self), old(self).spec_children().insert(index as int, el))
                    &&& c.model() == Edit::InsertBefore(old(self).spec_children()[index as int].key(), el.model())
                },
                Err(e) => {
                    &&& index_refusal(*old(self), index as int) == Some(e)
                    &&& *final(self) == *old(self)
                },
            },
    {
        if !self.is_parent() {
            return Err(ElementOpError::ChildlessElementOpError);
        }
        if index >= self.child_count() {
            return Err(ElementOpError::IndexOOBError);
        }
        let at = self.child_key(index);
        let copy = el.duplicate();
        let mut y: Vec<Element> = Vec::new();
        y.push(el);
        proof {
            lemma_one(el);
            lemma_new_key_fits(*old(self), el, index as int, index as int);
            assert(y@ == seq![el]);
            assert(old(self).spec_children().insert(index as int, el) =~= spliced(old(self).spec_children(), index as int, index as int, y@));
        }
        self.splice(index, index, y);
        Ok(Change::InsertBefore(at, copy))
    }

    /// Inserts the batch `els`, in order, before the child at `index`.
    pub fn insert_all(&mut self, index: usize, els: Vec<Element>) -> (r: Result<Change, ElementOpError>)
        requires
            old(self).wf(),
            all_wf(els@),
            keys_distinct(els@),
            keys_are_new(*old(self), els@),
        ensures
            match r {
                Ok(c) => {
                    &&& index_refusal(*old(self), index as int) is None
                    &&& rechildren(*old(self), *final(self), spliced(old(self).spec_children(), index as int, index as int, els@))
                    &&& c.model() == Edit::InsertAllBefore(old(self).spec_children()[index as int].key(), models(els@))
                },
                Err(e) => {
                    &&& index_refusal(*old(self), index as int) == Some(e)
                    &&& *final(self) == *old(self)
                },
            },
    {
        if !self.is_parent() {
            return Err(ElementOpError::ChildlessElementOpError);
        }
        if index >= self.child_count() {
            return Err(ElementOpError::IndexOOBError);
        }
        let at = self.child_key(index);
        let copies = copy_all(&els);
        proof {
            lemma_new_keys_fit(*old(self), els@, index as int, index as int);
        }
        self.splice(index, index, els);
        Ok(Change::InsertAllBefore(at, copies))
    }

    /// Appends the batch `els`, in order, to the children of a parent.
    pub fn append_all(&mut self, els: Vec<Element>) -> (r: Result<Change, ElementOpError>)
        requires
            old(self).wf(),
            all_wf(els@),
            keys_distinct(els@),
            keys_are_new(*old(self), els@),
        ensures
            match r {
                Ok(c) => {
                    &&& (*old(self)) is Parent
                    &&& rechildren(*old(self), *final(self), old(self).spec_children() + els@)
                    &&& c.model() == Edit::AppendAll(models(els@))
                },
                Err(e) => {
                    &&& !((*old(self)) is Parent)
                    &&& e == ElementOpError::ChildlessElementOpError
                    &&& *final(self) == *old(self)
                },
            },
    {
        if !self.is_parent() {
            return Err(ElementOpError::ChildlessElementOpError);
        }
        let len = self.child_count();
        let copies = copy_all(&els);
        proof {
            lemma_new_keys_fit(*old(self), els@, len as int, len as int);
            assert(old(self).spec_children() + els@ =~= spliced(old(self).spec_children(), len as int, len as int, els@));
        }
        self.splice(len, len, els);
        Ok(Change::AppendAll(copies))
    }

    /// Replaces the child at `index` by `el`.
    pub fn replace_child(&mut self, index: usize, el: Element) -> (r: Result<Change, ElementOpError>)
        requires
            old(self).wf(),
            el.wf(),
            fits(*old(self), index as int, index as int + 1, seq![el]),
        ensures
            match r {
                Ok(c) => {
                    &&& index_refusal(*old(self), index as int) is None
                    &&& rechildren(*old(self), *final(self), old(self).spec_children().update(index as int, el))
                    &&& c.model() == Edit::ReplaceChild(old(self).spec_children()[index as int].key(), el.model())
                },
                Err(e) => {
                    &&& index_refusal(*old(self), index as int) == Some(e)
                    &&& *final(self) == *old(self)
                },
            },
    {
        if !self.is_parent() {
            return Err(ElementOpError::ChildlessElementOpError);
        }
        if index >= self.child_count() {
            return Err(ElementOpError::IndexOOBError);
        }
        let at = self.child_key(index);
        let copy = el.duplicate();
        let mut y: Vec<Element> = Vec::new();
        y.push(el);
        proof {
            lemma_one(el);
            assert(y@ == seq![el]);
            assert(old(self).spec_children().update(index as int, el) =~= spliced(old(self).spec_children(), index as int, index as int + 1, y@));
        }
        self.splice(index, index + 1, y);
        Ok(Change::ReplaceChild(at, copy))
    }

    /// Removes the child at `index`.
    pub fn remove_child(&mut self, index: usize) -> (r: Result<Change, ElementOpError>)
        requires
            old(self).wf(),
        ensures
            match r {
                Ok(c) => {
                    &&& index_refusal(*old(self), index as int) is None
                    &&& rechildren(*old(self), *final(self), old(self).spec_children().remove(index as int))
                    &&& c.model() == Edit::RemoveChild(old(self).spec_children()[index as int].key())
                },
                Err(e) => {
                    &&& index_refusal(*old(self), index as int) == Some(e)
                    &&& *final(self) == *old(self)
                },
            },
    {
        if !self.is_parent() {
            return Err(ElementOpError::ChildlessElementOpError);
        }
        if index >= self.child_count() {
            return Err(ElementOpError::IndexOOBError);
        }
        let at = self.child_key(index);
        let y: Vec<Element> = Vec::new();
        proof {
            assert(element_keys(y@) =~= Seq::<Key>::empty());
            assert(old(self).spec_children().remove(index as int) =~= spliced(old(self).spec_children(), index as int, index as int + 1, y@));
        }
        self.splice(index, index + 1, y);
        Ok(Change::RemoveChild(at))
    }

    /// Sets the value of a text node.
    pub fn update_text(&mut self, new: String) -> (r: Result<Change, ElementOpError>)
        ensures
            match r {
                Ok(c) => {
                    &&& (*old(self)) is Text
                    &&& final(self).model() == (Node::Text { key: old(self).key(), value: new@ })
                    &&& final(self).wf()
                    &&& c.model() == Edit::UpdateText(new@)
                },
                Err(e) => {
                    &&& !((*old(self)) is Text)
                    &&& e == ElementOpError::NotATextNode
                    &&& *final(self) == *old(self)
                },
            },
    {
        let copy = new.clone();
        match self {
            Element::Text { value, .. } => {
                *value = new;
            },
            _ => {
                return Err(ElementOpError::NotATextNode);
            },
        }
        proof {
            self.lemma_wf_leaf();
        }
        Ok(Change::UpdateText(copy))
    }

    /// Sorts the children of a parent, stably, by the ranks that `order_key`
    /// gives them.
    pub fn reorder_children<F: Fn(&Element) -> u64>(&mut self, order_key: F) -> (r: Result<
        Change,
        ElementOpError,
    >)
        requires
            old(self).wf(),
            forall|e: &Element| order_key.requires((e,)),
        ensures
            match r {
                Ok(c) => {
                    &&& (*old(self)) is Parent
                    &&& exists|ranks: Seq<u64>, perm: Seq<int>|
                        #![trigger ranked_by(order_key, old(self).spec_children(), ranks), stable_order(ranks, perm)]
                        ranked_by(order_key, old(self).spec_children(), ranks) && stable_order(ranks, perm)
                            && rechildren(*old(self), *final(self), permuted(old(self).spec_children(), perm))
                    &&& c.model() == Edit::SortChildren(element_keys(final(self).spec_children()))
                },
                Err(e) => {
                    &&& !((*old(self)) is Parent)
                    &&& e == ElementOpError::ChildlessElementOpError
                    &&& *final(self) == *old(self)
                },
            },
    {
        if !self.is_parent() {
            return Err(ElementOpError::ChildlessElementOpError);
        }
        let ghost cs0 = old(self).spec_children();
        proof {
            old(self).lemma_wf_parent();
            old(self).lemma_model_children();
            lemma_consistent_distinct(old(self).spec_keymap(), element_keys(cs0));
        }
        let ghost mut ranks0: Seq<u64> = Seq::empty();
        let ghost mut perm: Seq<int> = Seq::empty();
        match self {
            Element::Parent { keymap, children, .. } => {
                let n = children.len();
                let mut ranks: Vec<u64> = Vec::new();
                let mut i: usize = 0;
                while i < n
                    invariant
                        n == children.len(),
                        children@ == cs0,
                        i <= n,
                        ranks.len() == i,
                        forall|e: &Element| order_key.requires((e,)),
                        forall|j: int| 0 <= j < i ==> order_key.ensures((&cs0[j],), #[trigger] ranks@[j]),
                    decreases n - i,
                {
                    let v = order_key(&children[i]);
                    ranks.push(v);
                    i = i + 1;
                }
                proof {
                    ranks0 = ranks@;
                    perm = Seq::new(n as nat, |j: int| j);
                    assert(permuted(cs0, perm) =~= cs0);
                }
                let mut i: usize = 1;
                while i < n
                    invariant
                        n == children.len(),
                        n == ranks.len(),
                        ranks0.len() == n,
                        1 <= i || n == 0,
                        i <= n || n == 0,
                        perm.len() == n,
                        forall|j: int| 0 <= j < n ==> 0 <= #[trigger] perm[j] < n,
                        perm.no_duplicates(),
                        children@ == permuted(cs0, perm),
                        forall|j: int| 0 <= j < n ==> ranks@[j] == ranks0[#[trigger] perm[j]],
                        forall|a: int, b: int| 0 <= a < b < i ==> ranks@[a] <= ranks@[b],
                        forall|a: int, b: int|
                            0 <= a < b < n && ranks@[a] == ranks@[b] ==> perm[a] < perm[b],
                    decreases n - i,
                {
                    let mut j: usize = i;
                    while j > 0 && ranks[j - 1] > ranks[j]
                        invariant
                            n == children.len(),
                            n == ranks.len(),
                            ranks0.len() == n,
                            1 <= i < n,
                            j <= i,
                            perm.len() == n,
                            forall|x: int| 0 <= x < n ==> 0 <= #[trigger] perm[x] < n,
                            perm.no_duplicates(),
                            children@ == permuted(cs0, perm),
                            forall|x: int| 0 <= x < n ==> ranks@[x] == ranks0[#[trigger] perm[x]],
                            forall|a: int, b: int| 0 <= a < b <= i && b != j ==> ranks@[a] <= ranks@[b],
                            forall|a: int, b: int|
                                0 <= a < b < n && ranks@[a] == ranks@[b] ==> perm[a] < perm[b],
                        decreases j,
                    {
                        let ghost r_old = ranks@;
                        let ghost p_old = perm;
                        let x = children.remove(j);
                        children.insert(j - 1, x);
                        let v = ranks.remove(j);
                        ranks.insert(j - 1, v);
                        proof {
                            perm = p_old.update(j - 1, p_old[j as int]).update(j as int, p_old[j - 1]);
                            assert(ranks@ =~= r_old.update(j - 1, r_old[j as int]).update(j as int, r_old[j - 1]));
                            assert(children@ =~= permuted(cs0, perm));
                            assert(perm.no_duplicates()) by {
                                assert forall|a: int, b: int| 0 <= a < n && 0 <= b < n && a != b implies perm[a] != perm[b] by {
                                    let pa = if a == j - 1 { j as int } else if a == j { j - 1 } else { a };
                                    let pb = if b == j - 1 { j as int } else if b == j { j - 1 } else { b };
                                    assert(perm[a] == p_old[pa]);
                                    assert(perm[b] == p_old[pb]);
                                }
                            }
                            assert forall|x: int| 0 <= x < n implies ranks@[x] == ranks0[#[trigger] perm[x]] by {
                                let px = if x == j - 1 { j as int } else if x == j { j - 1 } else { x };
                                assert(perm[x] == p_old[px]);
                                assert(ranks@[x] == r_old[px]);
                            }
                            assert forall|a: int, b: int|
                                0 <= a < b < n && ranks@[a] == ranks@[b] implies perm[a] < perm[b] by {
                                let pa = if a == j - 1 { j as int } else if a == j { j - 1 } else { a };
                                let pb = if b == j - 1 { j as int } else if b == j { j - 1 } else { b };
                                assert(perm[a] == p_old[pa] && ranks@[a] == r_old[pa]);
                                assert(perm[b] == p_old[pb] && ranks@[b] == r_old[pb]);
                                if pa > pb {
                                    assert(pa == j && pb == j - 1);
                                }
                            }
                            assert forall|a: int, b: int| 0 <= a < b <= i && b != j - 1 implies ranks@[a] <= ranks@[b] by {
                                let pa = if a == j - 1 { j as int } else if a == j { j - 1 } else { a };
                                let pb = if b == j - 1 { j as int } else if b == j { j - 1 } else { b };
                                assert(ranks@[a] == r_old[pa]);
                                assert(ranks@[b] == r_old[pb]);
                                if a == j - 1 && b > j {
                                    assert(r_old[j as int] <= r_old[b]);
                                }
                            }
                        }
                        j = j - 1;
                    }
                    proof {
                        assert forall|a: int, b: int| 0 <= a < b < i + 1 implies ranks@[a] <= ranks@[b] by {
                            if b == j && a < j {
                                assert(ranks@[a] <= ranks@[j - 1]);
                            }
                        }
                    }
                    i = i + 1;
                }
                proof {
                    lemma_permuted_distinct(cs0, perm);
                }
                match build_keymap(children) {
                    Some(km) => {
                        *keymap = km;
                    },
                    None => {},
                }
            },
            _ => {},
        }
        proof {
            self.lemma_wf_parent();
            self.lemma_model_children();
            let cs = permuted(cs0, perm);
            assert(all_wf(cs)) by {
                assert forall|x: int| 0 <= x < cs.len() implies (#[trigger] cs[x]).wf() by {
                    assert(cs[x] == cs0[perm[x]]);
                }
            }
            assert(ranked_by(order_key, cs0, ranks0));
            assert(stable_order(ranks0, perm));
        }
        let keys = self.child_keys();
        Ok(Change::SortChildren(keys))
    }

    /// The keys of the children, in order.
    fn child_keys(&self) -> (r: Vec<Key>)
        ensures
            r@ == element_keys(self.spec_children()),
    {
        match self {
            Element::Parent { children, .. } => keys_of(children),
            _ => {
                proof {
                    assert(element_keys(self.spec_children()) =~= Seq::<Key>::empty());
                }
                Vec::new()
            },
        }
    }

    /// The key of the child at `index`.
    fn child_key(&self, index: usize) -> (r: Key)
        requires
            *self is Parent,
            index < self.spec_children().len(),
        ensures
            r == self.spec_children()[index as int].key(),
    {
        match self {
            Element::Parent { children, .. } => children[index].to_key(),
            _ => Key::Local(0),
        }
    }

    /// Whether the element is a parent.
    pub fn is_parent(&self) -> (r: bool)
        ensures
            r == (*self is Parent),
    {
        match self {
            Element::Parent { .. } => true,
            _ => false,
        }
    }

    /// The number of children; zero for the childless shapes.
    pub fn child_count(&self) -> (r: usize)
        ensures
            r == self.spec_children().len(),
    {
        match self {
            Element::Parent { children, .. } => children.len(),
            _ => 0,
        }
    }
}

/// Children with distinct keys, taken in the order of a permutation, still
/// have distinct keys.
proof fn lemma_permuted_distinct(cs: Seq<Element>, perm: Seq<int>)
    requires
        keys_distinct(cs),
        perm.len() == cs.len(),
        forall|j: int| 0 <= j < perm.len() ==> 0 <= #[trigger] perm[j] < cs.len(),
        perm.no_duplicates(),
    ensures
        keys_distinct(permuted(cs, perm)),
{
    let p = permuted(cs, perm);
    assert forall|a: int, b: int| 0 <= a < p.len() && 0 <= b < p.len() && a != b implies element_keys(p)[a]
        != element_keys(p)[b] by {
        assert(element_keys(p)[a] == element_keys(cs)[perm[a]]);
        assert(element_keys(p)[b] == element_keys(cs)[perm[b]]);
    }
}

/// Copies of `els`, with the same models.
fn copy_all(els: &Vec<Element>) -> (r: Vec<Element>)
    ensures
        models(r@) == models(els@),
{
    let mut r: Vec<Element> = Vec::new();
    let mut i: usize = 0;
    while i < els.len()
        invariant
            i <= els.len(),
            models(r@) == models(els@.take(i as int)),
        decreases els.len() - i,
    {
        let c = els[i].duplicate();
        let ghost prev = r@;
        r.push(c);
        proof {
            assert(models(r@) =~= models(prev).push(c.model()));
            assert(models(els@.take(i as int + 1)) =~= models(els@.take(i as int)).push(els@[i as int].model()));
        }
        i = i + 1;
    }
    proof {
        assert(els@.take(i as int) =~= els@);
    }
    r
}

/// Keys that are all new fit anywhere.
proof fn lemma_new_keys_fit(e: Element, cs: Seq<Element>, n: int, m: int)
    requires
        keys_are_new(e, cs),
    ensures
        fits(e, n, m, cs),
{
    assert forall|i: int, j: int|
        0 <= i < e.spec_children().len() && (i < n || m <= i) && 0 <= j < cs.len()
            implies e.spec_children()[i].key() != cs[j].key() by {
        assert(key_is_new(e, cs[j]));
        assert(element_keys(e.spec_children())[i] == e.spec_children()[i].key());
    }
}

/// A key found among none of the children fits anywhere.
proof fn lemma_new_key_fits(e: Element, el: Element, n: int, m: int)
    requires
        key_is_new(e, el),
    ensures
        fits(e, n, m, seq![el]),
{
    assert forall|i: int, j: int|
        0 <= i < e.spec_children().len() && (i < n || m <= i) && 0 <= j < seq![el].len()
            implies e.spec_children()[i].key() != seq![el][j].key() by {
        assert(element_keys(e.spec_children())[i] == e.spec_children()[i].key());
    }
}

/// A single well-formed element is a distinct, well-formed batch.
proof fn lemma_one(el: Element)
    requires
        el.wf(),
    ensures
        keys_distinct(seq![el]),
        all_wf(seq![el]),
{
    assert(element_keys(seq![el]) =~= seq![el.key()]);
}

} // verus!
