//! The extendable-container capability: a type that can absorb a finite
//! sequence of elements, appending each to its internal state in order.

use vstd::prelude::*;

verus! {

/// A container that can absorb elements of type `E`, in order.
///
/// `elems` is the mathematical model of the container: the sequence of
/// elements it holds so far. `extend` appends every absorbed element to
/// that sequence, preserving order.
pub trait Extendable<E>: Sized {
    /// The sequence of elements the container currently holds.
    spec fn elems(&self) -> Seq<E>;

    /// Absorb `items` into the container, in order.
    fn extend(&mut self, items: Vec<E>)
        ensures
            final(self).elems() == old(self).elems() + items@,
    ;
}

impl<E> Extendable<E> for Vec<E> {
    open spec fn elems(&self) -> Seq<E> {
        self@
    }

    fn extend(&mut self, items: Vec<E>) {
        let ghost all: Seq<E> = items@;
        let ghost mut done: Seq<E> = Seq::empty();
        let mut rest = items;
        while rest.len() > 0
            invariant
                all =~= done + rest@,
                self@ =~= old(self)@ + done,
            decreases rest.len(),
        {
            let x = rest.remove(0);
            proof {
                done = done.push(x);
            }
            self.push(x);
        }
        proof {
            assert(done =~= all);
            assert(self@ =~= old(self)@ + all);
        }
    }
}

} // verus!
