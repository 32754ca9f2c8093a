use std::collections::BTreeMap;
use vstd::prelude::*;

use crate::key::Key;

verus! {

broadcast use vstd::std_specs::btree::group_btree_axioms, vstd::laws_cmp::group_laws_cmp;

/// The mathematical content of an element: what it shows, with the keymap
/// (a pure index) left out.
pub enum Node {
    Text { key: Key, value: Seq<char> },
    Void { key: Key, name: Seq<char>, attributes: Option<Map<String, String>> },
    Parent {
        key: Key,
        name: Seq<char>,
        attributes: Option<Map<String, String>>,
        children: Seq<Node>,
    },
}

impl Node {
    /// The identity of the node.
    pub open spec fn key(self) -> Key {
        match self {
            Node::Text { key, .. } => key,
            Node::Void { key, .. } => key,
            Node::Parent { key, .. } => key,
        }
    }
}

/// The keys of a sequence of nodes, in order.
pub open spec fn node_keys(ns: Seq<Node>) -> Seq<Key> {
    ns.map_values(|n: Node| n.key())
}

/// Whether some node of `ns` has key `k`.
pub open spec fn has_key(ns: Seq<Node>, k: Key) -> bool {
    node_keys(ns).contains(k)
}

/// The position of the node with key `k` in `ns` (meaningful when `has_key`).
pub open spec fn key_index(ns: Seq<Node>, k: Key) -> int {
    node_keys(ns).index_of(k)
}

/// The models of a sequence of elements.
pub open spec fn models(es: Seq<Element>) -> Seq<Node> {
    es.map_values(|e: Element| e.model())
}

/// The keys of the models of elements are the keys of the elements.
pub proof fn lemma_models_keys(es: Seq<Element>)
    ensures
        node_keys(models(es)) == element_keys(es),
{
    assert forall|i: int| 0 <= i < es.len() implies #[trigger] node_keys(models(es))[i] == element_keys(es)[i] by {
        es[i].lemma_model_key();
    }
    assert(node_keys(models(es)) =~= element_keys(es));
}

/// Where `keymap` is consistent with the children `es`, it finds a key
/// exactly when a child has it, and gives that child's position.
pub proof fn lemma_keymap_lookup(keymap: Map<(u8, u64), usize>, es: Seq<Element>, k: Key)
    requires
        keymap_consistent(keymap, element_keys(es)),
    ensures
        keymap.contains_key(k.spec_slot()) == has_key(models(es), k),
        keymap.contains_key(k.spec_slot()) ==> key_index(models(es), k) == keymap[k.spec_slot()],
{
    lemma_models_keys(es);
    let ks = element_keys(es);
    if keymap.contains_key(k.spec_slot()) {
        let idx = keymap[k.spec_slot()] as int;
        Key::lemma_slot_injective(ks[idx], k);
        assert(ks[idx] == k);
        assert(ks.contains(k));
        let j = ks.index_of(k);
        assert(keymap.contains_key(ks[j].spec_slot()));
    }
    if ks.contains(k) {
        let j = choose|j: int| 0 <= j < ks.len() && ks[j] == k;
        assert(keymap.contains_key(ks[j].spec_slot()));
    }
}

/// Where `keymap` is consistent with the children `es`, each child's key
/// leads back to its own position.
pub proof fn lemma_keys_unique(keymap: Map<(u8, u64), usize>, es: Seq<Element>, i: int)
    requires
        keymap_consistent(keymap, element_keys(es)),
        0 <= i < es.len(),
    ensures
        has_key(models(es), es[i].key()),
        key_index(models(es), es[i].key()) == i,
{
    assert(element_keys(es)[i] == es[i].key());
    lemma_keymap_lookup(keymap, es, es[i].key());
}

/// A node of a tree: a text leaf, a childless tagged node, or a tagged node
/// with ordered children whose keys are indexed by `keymap`.
#[derive(Debug)]
pub enum Element {
    Text { key: Key, value: String },
    Void { key: Key, name: String, attributes: Option<BTreeMap<String, String>> },
    Parent {
        key: Key,
        name: String,
        keymap: BTreeMap<(u8, u64), usize>,
        attributes: Option<BTreeMap<String, String>>,
        children: Vec<Element>,
    },
}

/// The keys of a sequence of elements, in order.
pub open spec fn element_keys(es: Seq<Element>) -> Seq<Key> {
    es.map_values(|e: Element| e.key())
}

/// `keymap` indexes exactly the keys `keys`: each key maps to its position,
/// and every entry belongs to the key at the position it gives.
pub open spec fn keymap_consistent(keymap: Map<(u8, u64), usize>, keys: Seq<Key>) -> bool {
    &&& forall|i: int|
        0 <= i < keys.len() ==> {
            &&& #[trigger] keymap.contains_key(keys[i].spec_slot())
            &&& keymap[keys[i].spec_slot()] == i
        }
    &&& forall|s: (u8, u64)|
        #[trigger] keymap.contains_key(s) ==> {
            &&& keymap[s] < keys.len()
            &&& keys[keymap[s] as int].spec_slot() == s
        }
}

/// No two elements of `es` share a key.
pub open spec fn keys_distinct(es: Seq<Element>) -> bool {
    element_keys(es).no_duplicates()
}

/// A consistent keymap admits no repeated key.
pub proof fn lemma_consistent_distinct(keymap: Map<(u8, u64), usize>, ks: Seq<Key>)
    requires
        keymap_consistent(keymap, ks),
    ensures
        ks.no_duplicates(),
{
    assert forall|i: int, j: int| 0 <= i < ks.len() && 0 <= j < ks.len() && i != j implies ks[i] != ks[j] by {
        assert(keymap.contains_key(ks[i].spec_slot()));
        assert(keymap.contains_key(ks[j].spec_slot()));
    }
}

/// The keys of `children`, in order.
pub fn keys_of(children: &Vec<Element>) -> (r: Vec<Key>)
    ensures
        r@ == element_keys(children@),
{
    let mut r: Vec<Key> = Vec::new();
    let mut i: usize = 0;
    while i < children.len()
        invariant
            i <= children.len(),
            r@ == element_keys(children@).take(i as int),
        decreases children.len() - i,
    {
        r.push(children[i].to_key());
        i = i + 1;
        proof {
            assert(r@ =~= element_keys(children@).take(i as int));
        }
    }
    proof {
        assert(element_keys(children@).take(i as int) =~= element_keys(children@));
    }
    r
}

/// The keymap of `children`, or `None` when two of them share a key.
pub fn build_keymap(children: &Vec<Element>) -> (r: Option<BTreeMap<(u8, u64), usize>>)
    ensures
        r is Some <==> keys_distinct(children@),
        r is Some ==> keymap_consistent(r->Some_0@, element_keys(children@)),
{
    let mut keymap: BTreeMap<(u8, u64), usize> = BTreeMap::new();
    let mut i: usize = 0;
    while i < children.len()
        invariant
            i <= children.len(),
            keymap_consistent(keymap@, element_keys(children@).take(i as int)),
        decreases children.len() - i,
    {
        let ghost ks = element_keys(children@);
        let k = children[i].to_key();
        let s = k.slot();
        if keymap.contains_key(&s) {
            proof {
                let j = keymap@[s] as int;
                assert(ks.take(i as int)[j].spec_slot() == s);
                Key::lemma_slot_injective(ks[j], k);
                assert(ks[j] == ks[i as int]);
            }
            return None;
        }
        let ghost old_map = keymap@;
        keymap.insert(s, i);
        proof {
            let t = ks.take(i as int + 1);
            assert(t =~= ks.take(i as int).push(k));
            assert forall|j: int| 0 <= j < t.len() implies #[trigger] keymap@.contains_key(t[j].spec_slot())
                && keymap@[t[j].spec_slot()] == j by {
                if j < i {
                    assert(old_map.contains_key(ks.take(i as int)[j].spec_slot()));
                    Key::lemma_slot_injective(t[j], k);
                }
            }
            assert forall|x: (u8, u64)| #[trigger] keymap@.contains_key(x) implies keymap@[x] < t.len()
                && t[keymap@[x] as int].spec_slot() == x by {
                if x != s {
                    assert(old_map.contains_key(x));
                }
            }
        }
        i = i + 1;
    }
    proof {
        assert(element_keys(children@).take(i as int) =~= element_keys(children@));
        lemma_consistent_distinct(keymap@, element_keys(children@));
    }
    Some(keymap)
}

impl Node {
    /// The same parent with the children `cs`.
    pub open spec fn with_children(self, cs: Seq<Node>) -> Node {
        match self {
            Node::Parent { key, name, attributes, .. } => Node::Parent { key, name, attributes, children: cs },
            _ => self,
        }
    }
}

/// The model of optional attributes.
pub open spec fn attributes_model(a: Option<BTreeMap<String, String>>) -> Option<Map<String, String>> {
    match a {
        Some(m) => Some(m@),
        None => None,
    }
}

impl Element {
    /// A text leaf.
    pub fn text(key: Key, value: String) -> (r: Element)
        ensures
            r.model() == (Node::Text { key, value: value@ }),
            r.wf(),
    {
        let r = Element::Text { key, value };
        proof {
            r.lemma_wf_leaf();
        }
        r
    }

    /// A childless tagged node.
    pub fn void(key: Key, name: String, attributes: Option<BTreeMap<String, String>>) -> (r: Element)
        ensures
            r.model() == (Node::Void { key, name: name@, attributes: attributes_model(attributes) }),
            r.wf(),
    {
        let r = Element::Void { key, name, attributes };
        proof {
            r.lemma_wf_leaf();
        }
        r
    }

    /// A tagged node with `children`, indexed by key; `None` when two
    /// children share a key.
    pub fn parent(
        key: Key,
        name: String,
        attributes: Option<BTreeMap<String, String>>,
        children: Vec<Element>,
    ) -> (r: Option<Element>)
        ensures
            r is Some <==> keys_distinct(children@),
            r is Some ==> {
                let e = r->Some_0;
                &&& e.model() == (Node::Parent {
                    key,
                    name: name@,
                    attributes: attributes_model(attributes),
                    children: models(children@),
                })
                &&& e.spec_children() == children@
                &&& e.wf() == forall|i: int| 0 <= i < children.len() ==> (#[trigger] children[i]).wf()
            },
    {
        match build_keymap(&children) {
            Some(keymap) => {
                let e = Element::Parent { key, name, keymap, attributes, children };
                proof {
                    e.lemma_model_children();
                    e.lemma_wf_parent();
                }
                Some(e)
            },
            None => None,
        }
    }

    /// The identity of the element.
    pub open spec fn key(self) -> Key {
        match self {
            Element::Text { key, .. } => key,
            Element::Void { key, .. } => key,
            Element::Parent { key, .. } => key,
        }
    }

    /// What the element shows, read as a `Node`.
    pub open spec fn model(self) -> Node
        decreases self,
    {
        match self {
            Element::Text { key, value } => Node::Text { key, value: value@ },
            Element::Void { key, name, attributes } => Node::Void {
                key,
                name: name@,
                attributes: match attributes {
                    Some(m) => Some(m@),
                    None => None,
                },
            },
            Element::Parent { key, name, attributes, children, .. } => Node::Parent {
                key,
                name: name@,
                attributes: match attributes {
                    Some(m) => Some(m@),
                    None => None,
                },
                children: Seq::new(
                    children.len() as nat,
                    |i: int|
                        if 0 <= i < children.len() {
                            children[i].model()
                        } else {
                            Node::Text { key, value: Seq::empty() }
                        },
                ),
            },
        }
    }

    /// Every parent in the tree has a keymap consistent with its children.
    pub open spec fn wf(self) -> bool
        decreases self,
    {
        match self {
            Element::Parent { keymap, children, .. } => {
                &&& keymap_consistent(keymap@, element_keys(children@))
                &&& forall|i: int| 0 <= i < children.len() ==> (#[trigger] children[i]).wf()
            },
            _ => true,
        }
    }

    /// The children of a parent; empty for the childless shapes.
    pub open spec fn spec_children(self) -> Seq<Element> {
        match self {
            Element::Parent { children, .. } => children@,
            _ => Seq::empty(),
        }
    }

    /// The keymap of a parent; empty for the childless shapes.
    pub open spec fn spec_keymap(self) -> Map<(u8, u64), usize> {
        match self {
            Element::Parent { keymap, .. } => keymap@,
            _ => Map::empty(),
        }
    }

    /// The identity of the element.
    pub fn to_key(&self) -> (r: Key)
        ensures
            r == self.key(),
    {
        match self {
            Element::Text { key, .. } => *key,
            Element::Void { key, .. } => *key,
            Element::Parent { key, .. } => *key,
        }
    }

    /// Unfolds the model of a parent one level: its children's models are
    /// the models of its children.
    pub proof fn lemma_model_children(self)
        requires
            self is Parent,
        ensures
            self.model() is Parent,
            self.model().key() == self.key(),
            self.model()->Parent_children == models(self.spec_children()),
    {
        assert(self.model()->Parent_children =~= models(self.spec_children()));
    }

    /// Unfolds well-formedness of a parent one level.
    pub proof fn lemma_wf_parent(self)
        requires
            self is Parent,
        ensures
            self.wf() == (keymap_consistent(self.spec_keymap(), element_keys(self.spec_children())) && forall|i: int|
                0 <= i < self.spec_children().len() ==> (#[trigger] self.spec_children()[i]).wf()),
    {
    }

    /// Text and childless nodes are always well formed.
    pub proof fn lemma_wf_leaf(self)
        requires
            !(self is Parent),
        ensures
            self.wf(),
    {
    }

    /// The keys of a parent's children are the keys of its model's children.
    pub proof fn lemma_model_keys(self)
        requires
            self is Parent,
        ensures
            node_keys(self.model()->Parent_children) == element_keys(self.spec_children()),
    {
        self.lemma_model_children();
        lemma_models_keys(self.spec_children());
    }

    /// An element's model carries its key.
    pub proof fn lemma_model_key(self)
        ensures
            self.model().key() == self.key(),
    {
    }

    /// A copy of the element, with the same model and the same keymaps.
    pub fn duplicate(&self) -> (r: Element)
        ensures
            r.model() == self.model(),
            r.wf() == self.wf(),
            r.key() == self.key(),
        decreases self,
    {
        match self {
            Element::Text { key, value } => {
                let r = Element::Text { key: *key, value: value.clone() };
                proof {
                    r.lemma_wf_leaf();
                    self.lemma_wf_leaf();
                }
                r
            },
            Element::Void { key, name, attributes } => {
                let r = Element::Void {
                    key: *key,
                    name: name.clone(),
                    attributes: copy_attributes(attributes),
                };
                proof {
                    r.lemma_wf_leaf();
                    self.lemma_wf_leaf();
                }
                r
            },
            Element::Parent { key, name, keymap, attributes, children } => {
                let mut copies: Vec<Element> = Vec::new();
                let mut i: usize = 0;
                while i < children.len()
                    invariant
                        self is Parent,
                        self->Parent_children == *children,
                        i <= children.len(),
                        copies.len() == i,
                        forall|j: int| 0 <= j < i ==> #[trigger] copies[j].model() == children[j].model(),
                        forall|j: int| 0 <= j < i ==> #[trigger] copies[j].wf() == children[j].wf(),
                        forall|j: int| 0 <= j < i ==> #[trigger] copies[j].key() == children[j].key(),
                    decreases children.len() - i,
                {
                    proof {
                        vstd::std_specs::vec::axiom_vec_index_decreases(*children, i as int);
                        assert(decreases_to!(*self => children[i as int]));
                    }
                    let c = children[i].duplicate();
                    copies.push(c);
                    i = i + 1;
                }
                let r = Element::Parent {
                    key: *key,
                    name: name.clone(),
                    keymap: keymap.clone(),
                    attributes: copy_attributes(attributes),
                    children: copies,
                };
                proof {
                    self.lemma_model_children();
                    r.lemma_model_children();
                    assert(models(copies@) =~= models(children@));
                    assert(element_keys(copies@) =~= element_keys(children@));
                    self.lemma_wf_parent();
                    r.lemma_wf_parent();
                    assert(r.spec_keymap() == self.spec_keymap());
                    assert(element_keys(r.spec_children()) == element_keys(self.spec_children()));
                    assert forall|j: int| 0 <= j < copies.len() implies copies@[j].wf() == children@[j].wf() by {
                        assert(copies[j].wf() == children[j].wf());
                    }
                }
                r
            },
        }
    }
}

/// A copy of optional attributes, with the same contents.
fn copy_attributes(a: &Option<BTreeMap<String, String>>) -> (r: Option<BTreeMap<String, String>>)
    ensures
        match (r, *a) {
            (Some(x), Some(y)) => x@ == y@,
            (None, None) => true,
            _ => false,
        },
{
    match a {
        Some(m) => Some(m.clone()),
        None => None,
    }
}

impl Clone for Element {
    fn clone(&self) -> (r: Element)
        ensures
            r.model() == self.model(),
            r.wf() == self.wf(),
    {
        self.duplicate()
    }
}

/// Shallow identity: two elements are equal when their keys are.
impl PartialEq for Element {
    fn eq(&self, other: &Element) -> (r: bool) {
        self.to_key() == other.to_key()
    }
}

impl vstd::std_specs::cmp::PartialEqSpecImpl for Element {
    open spec fn obeys_eq_spec() -> bool {
        true
    }

    open spec fn eq_spec(&self, other: &Element) -> bool {
        self.key() == other.key()
    }
}

} // verus!
