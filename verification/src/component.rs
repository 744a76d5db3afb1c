//! Component metadata and the component registry.
//!
//! Plain components carry no layout in this engine, so the registry only
//! tracks which component ids have been registered. Spawning with an
//! unregistered id registers it on the spot; the `external` entry points
//! demand prior registration through the builder.

use vstd::prelude::*;

verus! {

/// Metadata of one registered plain component.
#[derive(Clone, Copy, PartialEq, Eq, Structural, Debug)]
pub struct ComponentInfo {
    /// The component id.
    pub id: u32,
}

/// The set of registered plain component ids.
pub struct ComponentRegistry {
    /// The registered ids, in registration order, pairwise distinct.
    pub ids: Vec<u32>,
}

impl ComponentRegistry {
    /// True if `id` has been registered.
    pub open spec fn spec_has(&self, id: u32) -> bool {
        self.ids@.contains(id)
    }

    /// Returns an empty registry.
    pub fn new() -> (r: Self)
        ensures
            forall|id: u32| !r.spec_has(id),
    {
        let r = ComponentRegistry { ids: Vec::new() };
        proof {
            assert forall|id: u32| !r.spec_has(id) by {
                assert(r.ids@.len() == 0);
            }
        }
        r
    }

    /// True if `id` has been registered.
    pub fn is_registered(&self, id: u32) -> (r: bool)
        ensures
            r == self.spec_has(id),
    {
        let n = self.ids.len();
        let mut i: usize = 0;
        while i < n
            invariant
                n == self.ids@.len(),
                i <= n,
                forall|j: int| 0 <= j < i ==> self.ids@[j] != id,
            decreases n - i,
        {
            if self.ids[i] == id {
                return true;
            }
            i = i + 1;
        }
        proof {
            if self.ids@.contains(id) {
                let j = choose|j: int| 0 <= j < self.ids@.len() && self.ids@[j] == id;
                assert(self.ids@[j] == id);
            }
        }
        false
    }

    /// Registers `id`; registering twice has no further effect.
    pub fn register(&mut self, id: u32)
        ensures
            forall|x: u32| final(self).spec_has(x) == (old(self).spec_has(x) || x == id),
    {
        if !self.is_registered(id) {
            let ghost pre = self.ids@;
            self.ids.push(id);
            proof {
                assert forall|x: u32| self.spec_has(x) == (old(self).spec_has(x) || x
                    == id) by {
                    if x == id {
                        assert(self.ids@[pre.len() as int] == id);
                    }
                    if pre.contains(x) {
                        let j = choose|j: int| 0 <= j < pre.len() && pre[j] == x;
                        assert(self.ids@[j] == x);
                    }
                    if self.ids@.contains(x) {
                        let j = choose|j: int| 0 <= j < self.ids@.len() && self.ids@[j] == x;
                        if j < pre.len() {
                            assert(pre[j] == x);
                        }
                    }
                }
            }
        }
    }
}

} // verus!
