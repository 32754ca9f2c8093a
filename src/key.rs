use vstd::prelude::*;

verus! {

/// Identity of a node across tree snapshots.
#[derive(Clone, Copy, PartialEq, Eq, Structural, Debug, Hash, PartialOrd, Ord)]
pub enum Key {
    /// Meaningful within one snapshot only.
    Local(u64),
    /// Stable across snapshots.
    Global(u64),
}

impl Key {
    /// The integer pair a key is indexed by in a parent's keymap; it orders
    /// keys as the derived `Ord` does (every `Local` before every `Global`).
    pub open spec fn spec_slot(self) -> (u8, u64) {
        match self {
            Key::Local(n) => (0u8, n),
            Key::Global(n) => (1u8, n),
        }
    }

    /// The keymap slot of the key.
    pub fn slot(&self) -> (r: (u8, u64))
        ensures
            r == self.spec_slot(),
    {
        match self {
            Key::Local(n) => (0u8, *n),
            Key::Global(n) => (1u8, *n),
        }
    }

    /// Distinct keys have distinct slots.
    pub proof fn lemma_slot_injective(a: Key, b: Key)
        ensures
            a.spec_slot() == b.spec_slot() <==> a == b,
    {
    }
}

} // verus!
