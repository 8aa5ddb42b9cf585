use vstd::prelude::*;
use std::collections::HashMap;
use crate::ring::Ring;

verus! {

broadcast use vstd::std_specs::hash::group_hash_axioms;

/// The current ring of each known function, keyed by function identifier.
/// A function that is absent is unknown; one present with an empty ring is
/// known and has no backend at the moment.
pub struct Directory {
    rings: HashMap<u128, Ring>,
}

impl View for Directory {
    type V = Map<u128, Ring>;

    closed spec fn view(&self) -> Map<u128, Ring> {
        self.rings@
    }
}

impl Directory {
    /// A directory that knows no function.
    pub fn new() -> (r: Directory)
        ensures
            r@ == Map::<u128, Ring>::empty(),
    {
        Directory { rings: HashMap::new() }
    }

    /// The ring of function `f`, if it is known.
    pub fn get(&self, f: u128) -> (r: Option<&Ring>)
        ensures
            match r {
                Some(ring) => self@.contains_key(f) && *ring == self@[f],
                None => !self@.contains_key(f),
            },
    {
        proof {
            assert(vstd::std_specs::hash::obeys_key_model::<u128>());
        }
        self.rings.get(&f)
    }

    /// Whether function `f` is known.
    pub fn contains(&self, f: u128) -> (r: bool)
        ensures
            r == self@.contains_key(f),
    {
        self.rings.contains_key(&f)
    }

    /// The number of known functions.
    pub fn len(&self) -> (r: usize)
        ensures
            r as nat == self@.dom().len(),
    {
        self.rings.len()
    }

    /// Replaces the ring of function `f` as a whole.
    pub fn put(&mut self, f: u128, ring: Ring)
        ensures
            final(self)@ == old(self)@.insert(f, ring),
    {
        self.rings.insert(f, ring);
    }

    /// Forgets function `f`.
    pub fn remove(&mut self, f: u128)
        ensures
            final(self)@ == old(self)@.remove(f),
    {
        self.rings.remove(&f);
    }
}

/// After a ring is put for a function, a lookup of that function gives that
/// ring, with the same virtual nodes, for as long as only other functions are
/// put or removed.
pub proof fn lemma_put_then_get(
    before: Map<u128, Ring>,
    f: u128,
    ring: Ring,
    others: Seq<(u128, Option<Ring>)>,
)
    requires
        forall|i: int| 0 <= i < others.len() ==> (#[trigger] others[i]).0 != f,
    ensures
        apply_all(before.insert(f, ring), others).contains_key(f),
        apply_all(before.insert(f, ring), others)[f] == ring,
        apply_all(before.insert(f, ring), others)[f]@ == ring@,
    decreases others.len(),
{
    if others.len() > 0 {
        lemma_put_then_get(before, f, ring, others.drop_last());
    }
}

/// Applies each change in turn: `Some(r)` puts `r`, `None` removes.
pub open spec fn apply_all(m: Map<u128, Ring>, changes: Seq<(u128, Option<Ring>)>) -> Map<u128, Ring>
    decreases changes.len(),
{
    if changes.len() == 0 {
        m
    } else {
        let p = apply_all(m, changes.drop_last());
        let c = changes.last();
        match c.1 {
            Some(r) => p.insert(c.0, r),
            None => p.remove(c.0),
        }
    }
}

} // verus!
