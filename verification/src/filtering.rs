//! Filtering before absorption: a stateful per-element predicate and the
//! wrapper that applies it in front of an extendable container.

use vstd::prelude::*;
use crate::extendable::Extendable;
use core::marker::PhantomData;

verus! {

/// A stateful predicate over elements of type `E`, invoked once per
/// candidate element, in order. It inspects the element through a shared
/// reference and never consumes or changes it.
///
/// `accept_spec` says whether the current state lets an element pass;
/// `next_spec` gives the state the call leaves behind. A stateless
/// predicate is one whose `next_spec` returns `self` unchanged.
pub trait Filter<E>: Sized {
    /// Whether the current state accepts element `x`.
    spec fn accept_spec(&self, x: E) -> bool;

    /// The state left behind after testing `x`.
    spec fn next_spec(&self, x: E) -> Self;

    /// Test one element, advancing the state.
    fn call(&mut self, x: &E) -> (r: bool)
        ensures
            r == old(self).accept_spec(*x),
            *final(self) == old(self).next_spec(*x),
    ;
}

/// A `Filter` is stateless if no call changes its state.
pub open spec fn filter_is_stateless<E, F: Filter<E>>(f: F) -> bool {
    forall|x: E| #[trigger] f.next_spec(x) == f
}

/// The subsequence of `s` a filter starting in state `f` lets pass, in
/// the original order, threading the state left to right over every
/// candidate, kept or dropped.
pub open spec fn filtered_outputs<E, F: Filter<E>>(f: F, s: Seq<E>) -> Seq<E>
    decreases s.len(),
{
    if s.len() == 0 {
        Seq::empty()
    } else {
        let rest = filtered_outputs(f.next_spec(s[0]), s.drop_first());
        if f.accept_spec(s[0]) {
            seq![s[0]] + rest
        } else {
            rest
        }
    }
}

/// The state a filter starting in state `f` is left in after testing
/// every element of `s`, in order.
pub open spec fn filter_after<E, F: Filter<E>>(f: F, s: Seq<E>) -> F
    decreases s.len(),
{
    if s.len() == 0 {
        f
    } else {
        filter_after(f.next_spec(s[0]), s.drop_first())
    }
}

/// Testing one more element appends it exactly when the state the
/// earlier elements left behind accepts it.
pub proof fn lemma_filtered_outputs_push<E, F: Filter<E>>(f: F, s: Seq<E>, x: E)
    ensures
        filtered_outputs(f, s.push(x)) == if filter_after(f, s).accept_spec(x) {
            filtered_outputs(f, s).push(x)
        } else {
            filtered_outputs(f, s)
        },
        filter_after(f, s.push(x)) == filter_after(f, s).next_spec(x),
    decreases s.len(),
{
    if s.len() == 0 {
        assert(s.push(x)[0] == x);
        assert(s.push(x).drop_first() =~= Seq::<E>::empty());
        assert(filtered_outputs(f.next_spec(x), Seq::<E>::empty()) == Seq::<E>::empty());
        assert(filter_after(f.next_spec(x), Seq::<E>::empty()) == f.next_spec(x));
        assert(filtered_outputs(f, s) == Seq::<E>::empty());
        assert(filter_after(f, s) == f);
        if f.accept_spec(x) {
            assert(filtered_outputs(f, s.push(x)) == seq![x] + Seq::<E>::empty());
            assert(filtered_outputs(f, s.push(x)) =~= filtered_outputs(f, s).push(x));
        } else {
            assert(filtered_outputs(f, s.push(x)) == Seq::<E>::empty());
        }
    } else {
        assert(s.push(x)[0] == s[0]);
        assert(s.push(x).drop_first() =~= s.drop_first().push(x));
        lemma_filtered_outputs_push(f.next_spec(s[0]), s.drop_first(), x);
        assert(filter_after(f, s) == filter_after(f.next_spec(s[0]), s.drop_first()));
        let rest = filtered_outputs(f.next_spec(s[0]), s.drop_first());
        let rest_pushed = filtered_outputs(f.next_spec(s[0]), s.drop_first().push(x));
        assert(filtered_outputs(f, s.push(x)) == if f.accept_spec(s[0]) {
            seq![s[0]] + rest_pushed
        } else {
            rest_pushed
        });
        if filter_after(f, s).accept_spec(x) {
            assert(filtered_outputs(f, s.push(x)) =~= filtered_outputs(f, s).push(x));
        }
    }
}

/// Absorbing an empty sequence lets nothing through and leaves both the
/// container's elements and the filter's state unchanged.
pub proof fn lemma_filtered_outputs_empty<E, F: Filter<E>>(f: F, c: Seq<E>)
    ensures
        filtered_outputs(f, Seq::<E>::empty()) == Seq::<E>::empty(),
        filter_after(f, Seq::<E>::empty()) == f,
        c + filtered_outputs(f, Seq::<E>::empty()) == c,
{
    assert(c + Seq::<E>::empty() =~= c);
}

/// A single candidate passes exactly when the filter accepts it.
pub proof fn lemma_filtered_outputs_singleton<E, F: Filter<E>>(f: F, x: E)
    ensures
        filtered_outputs(f, seq![x]) == if f.accept_spec(x) {
            seq![x]
        } else {
            Seq::<E>::empty()
        },
        filter_after(f, seq![x]) == f.next_spec(x),
{
    assert(seq![x][0] == x);
    assert(seq![x].drop_first() =~= Seq::<E>::empty());
    assert(filtered_outputs(f.next_spec(x), Seq::<E>::empty()) == Seq::<E>::empty());
    assert(filter_after(f.next_spec(x), Seq::<E>::empty()) == f.next_spec(x));
    if f.accept_spec(x) {
        assert(filtered_outputs(f, seq![x]) == seq![x] + Seq::<E>::empty());
        assert(seq![x] + Seq::<E>::empty() =~= seq![x]);
    }
}

/// For a stateless filter, the passed elements are exactly the input
/// sequence filtered by the predicate, in their original order, and the
/// filter is left unchanged: absorbing `s` through the wrapper appends
/// to the container the same elements as directly absorbing the
/// filtered sequence.
pub proof fn lemma_stateless_filter_outputs<E, F: Filter<E>>(f: F, s: Seq<E>)
    requires
        filter_is_stateless(f),
    ensures
        filtered_outputs(f, s) == s.filter(|x: E| f.accept_spec(x)),
        filter_after(f, s) == f,
    decreases s.len(),
{
    reveal(Seq::filter);
    let p = (|x: E| f.accept_spec(x));
    if s.len() == 0 {
        assert(s.filter(p) =~= Seq::<E>::empty());
    } else {
        let sp = s.drop_last();
        let x = s.last();
        assert(s =~= sp.push(x));
        lemma_stateless_filter_outputs(f, sp);
        lemma_filtered_outputs_push(f, sp, x);
        assert(f.next_spec(x) == f);
        assert(s.filter(p) == if p(x) {
            sp.filter(p).push(x)
        } else {
            sp.filter(p)
        });
    }
}

/// Absorbing `s1` and then `s2` lets through the passed elements of `s1`
/// followed by those of `s2`, the latter judged by the state `s1` left
/// behind: filter state persists across absorption calls.
pub proof fn lemma_filtered_outputs_concat<E, F: Filter<E>>(f: F, s1: Seq<E>, s2: Seq<E>)
    ensures
        filtered_outputs(f, s1 + s2) == filtered_outputs(f, s1)
            + filtered_outputs(filter_after(f, s1), s2),
        filter_after(f, s1 + s2) == filter_after(filter_after(f, s1), s2),
    decreases s2.len(),
{
    if s2.len() == 0 {
        assert(s1 + s2 =~= s1);
        assert(filtered_outputs(f, s1) + filtered_outputs(filter_after(f, s1), s2)
            =~= filtered_outputs(f, s1));
    } else {
        let s2p = s2.drop_last();
        let x = s2.last();
        assert(s1 + s2 =~= (s1 + s2p).push(x));
        assert(s2 =~= s2p.push(x));
        lemma_filtered_outputs_concat(f, s1, s2p);
        lemma_filtered_outputs_push(f, s1 + s2p, x);
        lemma_filtered_outputs_push(filter_after(f, s1), s2p, x);
        assert(filtered_outputs(f, s1 + s2) =~= filtered_outputs(f, s1)
            + filtered_outputs(filter_after(f, s1), s2));
    }
}

/// Filtering preserves relative order: if the elements at positions `i`
/// and `j`, `i` before `j`, both pass (each judged by the state the
/// elements before it left behind), then the passed subsequence consists
/// of what passes before `i`, then the element at `i`, then what passes
/// between them, then the element at `j`, then what passes after `j`,
/// so the two elements reach the container in their original order. For
/// a stateless filter the two conditions are plain acceptance, since
/// `filter_after` then leaves the state unchanged.
pub proof fn lemma_filtered_outputs_order<E, F: Filter<E>>(f: F, s: Seq<E>, i: int, j: int)
    requires
        0 <= i < j < s.len(),
        filter_after(f, s.subrange(0, i)).accept_spec(s[i]),
        filter_after(f, s.subrange(0, j)).accept_spec(s[j]),
    ensures
        filtered_outputs(f, s) == filtered_outputs(f, s.subrange(0, i))
            + seq![s[i]]
            + filtered_outputs(filter_after(f, s.subrange(0, i + 1)), s.subrange(i + 1, j))
            + seq![s[j]]
            + filtered_outputs(filter_after(f, s.subrange(0, j + 1)), s.subrange(j + 1, s.len() as int)),
{
    let a = s.subrange(0, i);
    let b = s.subrange(i + 1, j);
    let c = s.subrange(j + 1, s.len() as int);
    let fa = filter_after(f, a);
    assert(s =~= a + seq![s[i]] + b + seq![s[j]] + c);
    lemma_filtered_outputs_concat(f, a + seq![s[i]] + b + seq![s[j]], c);
    lemma_filtered_outputs_concat(f, a + seq![s[i]] + b, seq![s[j]]);
    lemma_filtered_outputs_concat(f, a + seq![s[i]], b);
    lemma_filtered_outputs_concat(f, a, seq![s[i]]);
    lemma_filtered_outputs_singleton(fa, s[i]);
    assert(s.subrange(0, i + 1) =~= a + seq![s[i]]);
    assert(s.subrange(0, j) =~= a + seq![s[i]] + b);
    let fj = filter_after(f, a + seq![s[i]] + b);
    lemma_filtered_outputs_singleton(fj, s[j]);
    assert(s.subrange(0, j + 1) =~= a + seq![s[i]] + b + seq![s[j]]);
}

/// Wraps an exclusively borrowed `Extender: Extendable<Element>` and
/// applies a filter function before passing elements to the `Extender`.
pub struct ExtendFilter<
    'extender,
    Element,
    F: Filter<Element>,
    Extender: Extendable<Element>,
> {
    pub extender: &'extender mut Extender,
    pub filter: F,
    pub inputs: Ghost<Seq<Element>>,
    pub phantom_data: PhantomData<Element>,
}

impl<
    'extender,
    Element,
    F: Filter<Element>,
    Extender: Extendable<Element>,
> ExtendFilter<'extender, Element, F, Extender> {
    /// Take exclusive access to `extender` and ownership of `filter`.
    pub fn new(extender: &'extender mut Extender, filter: F) -> (s: Self)
        ensures
            *s.extender == *old(extender),
            *final(extender) == *final(s.extender),
            s.filter == filter,
            s.inputs@ == Seq::<Element>::empty(),
    {
        Self {
            extender,
            filter,
            inputs: Ghost(Seq::empty()),
            phantom_data: PhantomData,
        }
    }

    /// End the wrapper, returning the borrow of the container to the
    /// caller. The returned reference is the one `new` was given.
    pub fn into_inner(self) -> (r: &'extender mut Extender)
        ensures
            *r == *old(self.extender),
            *final(r) == *final(self.extender),
    {
        self.extender
    }
}

impl<
    'extender,
    Element,
    F: Filter<Element>,
    Extender: Extendable<Element>,
> Extendable<Element> for ExtendFilter<'extender, Element, F, Extender> {
    /// The candidates absorbed through the wrapper so far, kept or not.
    open spec fn elems(&self) -> Seq<Element> {
        self.inputs@
    }

    /// Test each element of `items`, in order, and forward exactly those
    /// the filter accepts to the wrapped container, as they pass.
    fn extend(&mut self, items: Vec<Element>)
        ensures
            (*final(self).extender).elems() == (*old(self).extender).elems()
                + filtered_outputs(old(self).filter, items@),
            *final(final(self).extender) == *final(old(self).extender),
            final(self).filter == filter_after(old(self).filter, items@),
    {
        let ghost all: Seq<Element> = items@;
        let ghost mut done: Seq<Element> = Seq::empty();
        let mut rest = items;
        while rest.len() > 0
            invariant
                all =~= done + rest@,
                (*self.extender).elems() == (*old(self).extender).elems()
                    + filtered_outputs(old(self).filter, done),
                *final(self.extender) == *final(old(self).extender),
                self.filter == filter_after(old(self).filter, done),
                self.inputs == old(self).inputs,
            decreases rest.len(),
        {
            let x = rest.remove(0);
            proof {
                lemma_filtered_outputs_push(old(self).filter, done, x);
            }
            let keep = self.filter.call(&x);
            if keep {
                let mut one: Vec<Element> = Vec::new();
                one.push(x);
                self.extender.extend(one);
            }
            proof {
                done = done.push(x);
                assert((*self.extender).elems() =~= (*old(self).extender).elems()
                    + filtered_outputs(old(self).filter, done));
            }
        }
        proof {
            assert(done =~= all);
        }
        self.inputs = Ghost(self.inputs@ + all);
    }
}

} // verus!
