//! The stash of an actor: messages put aside to be handled later, in the
//! order they came, with an optional bound that drops the oldest.

use vstd::prelude::*;

verus! {

/// Messages put aside, oldest first, at most `capacity` where one is set.
pub struct Stash<E> {
    items: Vec<E>,
    capacity: Option<usize>,
}

impl<E> Stash<E> {
    /// The messages, oldest first.
    pub closed spec fn items(&self) -> Seq<E> {
        self.items@
    }

    /// The bound, if any.
    pub closed spec fn bound(&self) -> Option<usize> {
        self.capacity
    }

    /// An empty stash with the given bound.
    pub fn new(capacity: Option<usize>) -> (r: Self)
        ensures
            r.items().len() == 0,
            r.bound() == capacity,
    {
        Stash { items: Vec::new(), capacity }
    }

    /// The number of stashed messages.
    pub fn len(&self) -> (r: usize)
        ensures
            r == self.items().len(),
    {
        self.items.len()
    }

    /// Stashes a message.  Where that takes the stash over its bound, the
    /// oldest message is dropped and returned.
    pub fn stash(&mut self, message: E) -> (dropped: Option<E>)
        ensures
            final(self).bound() == old(self).bound(),
            ({
                let pushed = old(self).items().push(message);
                match old(self).bound() {
                    Some(c) if pushed.len() > c => dropped == Some(pushed[0]) && final(self).items() == pushed.drop_first(),
                    _ => dropped is None && final(self).items() == pushed,
                }
            }),
    {
        self.items.push(message);
        match self.capacity {
            Some(c) => {
                if self.items.len() > c {
                    let oldest = self.items.remove(0);
                    assert(self.items@ =~= old(self).items().push(message).drop_first());
                    Some(oldest)
                } else {
                    None
                }
            },
            None => None,
        }
    }

    /// Takes the oldest message out, if any.
    pub fn unstash(&mut self) -> (r: Option<E>)
        ensures
            final(self).bound() == old(self).bound(),
            old(self).items().len() == 0 ==> r is None && final(self).items() == old(self).items(),
            old(self).items().len() > 0 ==> r == Some(old(self).items()[0]) && final(self).items() == old(self).items().drop_first(),
    {
        if self.items.len() == 0 {
            None
        } else {
            let first = self.items.remove(0);
            assert(self.items@ =~= old(self).items().drop_first());
            Some(first)
        }
    }

    /// Takes all messages out, oldest first.
    pub fn unstash_all(&mut self) -> (r: Vec<E>)
        ensures
            r@ == old(self).items(),
            final(self).items().len() == 0,
            final(self).bound() == old(self).bound(),
    {
        let mut all: Vec<E> = Vec::new();
        std::mem::swap(&mut all, &mut self.items);
        all
    }
}

} // verus!
