//! The registration of running feeds: one command channel per chain.

use std::collections::HashMap;
use vstd::prelude::*;

verus! {

broadcast use vstd::std_specs::hash::group_hash_axioms;

/// The command channels of the running feeds, by chain id; at most one per
/// chain.
pub struct Registry<T> {
    channels: HashMap<i32, T>,
}

impl<T> Registry<T> {
    /// The channel of each registered chain.
    pub closed spec fn view(&self) -> Map<i32, T> {
        self.channels@
    }

    /// No chain registered.
    pub fn new() -> (r: Registry<T>)
        ensures
            r@ == Map::<i32, T>::empty(),
    {
        Registry { channels: HashMap::new() }
    }

    /// The channel of `chain`, if it has a running feed.
    pub fn sender(&self, chain: i32) -> (r: Option<&T>)
        ensures
            r matches Some(t) ==> self@.contains_key(chain) && self@[chain] == *t,
            r is None ==> !self@.contains_key(chain),
    {
        self.channels.get(&chain)
    }

    /// Registers the channel of a feed started for `chain`, and hands back the
    /// channel it replaces, whose feed is to be stopped.
    pub fn register(&mut self, chain: i32, sender: T) -> (r: Option<T>)
        ensures
            final(self)@ == old(self)@.insert(chain, sender),
            r matches Some(t) ==> old(self)@.contains_key(chain) && old(self)@[chain] == t,
            r is None ==> !old(self)@.contains_key(chain),
    {
        self.channels.insert(chain, sender)
    }

    /// Takes `chain`'s channel out, so that it gets no more commands.
    pub fn unregister(&mut self, chain: i32) -> (r: Option<T>)
        ensures
            final(self)@ == old(self)@.remove(chain),
            r matches Some(t) ==> old(self)@.contains_key(chain) && old(self)@[chain] == t,
            r is None ==> !old(self)@.contains_key(chain),
    {
        self.channels.remove(&chain)
    }
}

} // verus!
