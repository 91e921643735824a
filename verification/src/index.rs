//! Indexed access: a thin layer over lookup that asserts the key's
//! presence.

use vstd::prelude::*;

use crate::key::HashKey;
use crate::HashMap;

verus! {

impl<K: HashKey, V> HashMap<K, V> {
    /// The value stored for a key the caller asserts to be present: exactly
    /// `get` unwrapped. Looking an absent key up this way is a contract
    /// violation that would end the process, so the contract excludes it.
    pub fn index(&self, k: &K) -> (v: &V)
        requires
            self.wf(),
            self@.contains_key(k@),
        ensures
            *v == self@[k@],
    {
        self.get(k).unwrap()
    }
}

} // verus!
