use vstd::prelude::*;

use crate::node::Node;

verus! {

/// An adaptive radix tree from byte-string keys to values of type `T`.
#[derive(Clone, Debug)]
pub struct Art<T> {
    root: Node<T>,
}

impl<T> Art<T> {
    /// The tree is consistent: every tree built by `default` and `set` is.
    pub closed spec fn wf(self) -> bool {
        self.root.wf()
    }

    /// Stores `v` under `k`, replacing the value stored there before.
    pub fn set(&mut self, k: Vec<u8>, v: T)
        requires
            old(self).wf(),
        ensures
            final(self).wf(),
            final(self)@ == old(self)@.insert(k@, v),
    {
        self.root.set(k, v)
    }

    /// The value stored under `k`, if any.
    pub fn get(&self, k: &[u8]) -> (r: Option<&T>)
        requires
            self.wf(),
        ensures
            r == if self@.contains_key(k@) {
                Some(&self@[k@])
            } else {
                None
            },
    {
        self.root.get(k)
    }
}

impl<T> View for Art<T> {
    type V = Map<Seq<u8>, T>;

    /// The keys stored in the tree, with their values.
    closed spec fn view(&self) -> Map<Seq<u8>, T> {
        self.root@
    }
}

impl<T> Default for Art<T> {
    /// An empty tree.
    fn default() -> (r: Art<T>)
        ensures
            r.wf(),
            r@ == Map::<Seq<u8>, T>::empty(),
    {
        Art { root: Node::default() }
    }
}

} // verus!
