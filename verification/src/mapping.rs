//! Mapping before absorption: a stateful per-element transformation and
//! the wrapper that applies it in front of an extendable container.

use vstd::prelude::*;
use crate::extendable::Extendable;
use core::marker::PhantomData;

verus! {

/// A stateful transformation from `I` to `O`, invoked once per absorbed
/// element, in order.
///
/// `map_spec` gives the element the current state produces for an input;
/// `next_spec` gives the state the call leaves behind. A stateless
/// transformation is one whose `next_spec` returns `self` unchanged.
pub trait Mapper<I, O>: Sized {
    /// The output the current state yields for input `x`.
    spec fn map_spec(&self, x: I) -> O;

    /// The state left behind after transforming `x`.
    spec fn next_spec(&self, x: I) -> Self;

    /// Transform one element, advancing the state.
    fn call(&mut self, x: I) -> (r: O)
        ensures
            r == old(self).map_spec(x),
            *final(self) == old(self).next_spec(x),
    ;
}

/// A `Mapper` is stateless if no call changes its state.
pub open spec fn mapper_is_stateless<I, O, M: Mapper<I, O>>(m: M) -> bool {
    forall|x: I| #[trigger] m.next_spec(x) == m
}

/// The outputs a mapper starting in state `m` produces for the inputs
/// `s`, one per input, in order, threading the state left to right.
pub open spec fn mapped_outputs<I, O, M: Mapper<I, O>>(m: M, s: Seq<I>) -> Seq<O>
    decreases s.len(),
{
    if s.len() == 0 {
        Seq::empty()
    } else {
        seq![m.map_spec(s[0])] + mapped_outputs(m.next_spec(s[0]), s.drop_first())
    }
}

/// The state a mapper starting in state `m` is left in after
/// transforming the inputs `s`, in order.
pub open spec fn mapper_after<I, O, M: Mapper<I, O>>(m: M, s: Seq<I>) -> M
    decreases s.len(),
{
    if s.len() == 0 {
        m
    } else {
        mapper_after(m.next_spec(s[0]), s.drop_first())
    }
}

/// Transforming one more input appends one more output, produced by the
/// state the earlier inputs left behind.
pub proof fn lemma_mapped_outputs_push<I, O, M: Mapper<I, O>>(m: M, s: Seq<I>, x: I)
    ensures
        mapped_outputs(m, s.push(x)) == mapped_outputs(m, s).push(mapper_after(m, s).map_spec(x)),
        mapper_after(m, s.push(x)) == mapper_after(m, s).next_spec(x),
    decreases s.len(),
{
    if s.len() == 0 {
        assert(s.push(x)[0] == x);
        assert(s.push(x).drop_first() =~= Seq::<I>::empty());
        assert(mapped_outputs(m.next_spec(x), Seq::<I>::empty()) == Seq::<O>::empty());
        assert(mapper_after(m.next_spec(x), Seq::<I>::empty()) == m.next_spec(x));
        assert(mapped_outputs(m, s.push(x)) == seq![m.map_spec(x)] + Seq::<O>::empty());
        assert(mapped_outputs(m, s) == Seq::<O>::empty());
        assert(mapper_after(m, s) == m);
        assert(mapped_outputs(m, s.push(x)) =~= mapped_outputs(m, s).push(m.map_spec(x)));
    } else {
        assert(s.push(x)[0] == s[0]);
        assert(s.push(x).drop_first() =~= s.drop_first().push(x));
        lemma_mapped_outputs_push(m.next_spec(s[0]), s.drop_first(), x);
        assert(mapped_outputs(m, s) == seq![m.map_spec(s[0])]
            + mapped_outputs(m.next_spec(s[0]), s.drop_first()));
        assert(mapper_after(m, s) == mapper_after(m.next_spec(s[0]), s.drop_first()));
        assert(mapped_outputs(m, s.push(x)) == seq![m.map_spec(s[0])]
            + mapped_outputs(m.next_spec(s[0]), s.drop_first().push(x)));
        assert(mapped_outputs(m, s.push(x)) =~= mapped_outputs(m, s).push(mapper_after(m, s).map_spec(x)));
    }
}

/// Absorbing an empty sequence produces nothing and leaves both the
/// container's elements and the mapper's state unchanged.
pub proof fn lemma_mapped_outputs_empty<I, O, M: Mapper<I, O>>(m: M, c: Seq<O>)
    ensures
        mapped_outputs(m, Seq::<I>::empty()) == Seq::<O>::empty(),
        mapper_after(m, Seq::<I>::empty()) == m,
        c + mapped_outputs(m, Seq::<I>::empty()) == c,
{
    assert(c + Seq::<O>::empty() =~= c);
}

/// For a stateless mapper, the outputs are exactly the input sequence
/// mapped element by element, and the mapper is left unchanged: absorbing
/// `s` through the wrapper appends to the container the same elements as
/// directly absorbing the mapped sequence.
pub proof fn lemma_stateless_mapper_outputs<I, O, M: Mapper<I, O>>(m: M, s: Seq<I>)
    requires
        mapper_is_stateless(m),
    ensures
        mapped_outputs(m, s) == s.map_values(|x: I| m.map_spec(x)),
        mapper_after(m, s) == m,
    decreases s.len(),
{
    let g = (|x: I| m.map_spec(x));
    if s.len() == 0 {
        assert(s.map_values(g) =~= Seq::<O>::empty());
    } else {
        assert(m.next_spec(s[0]) == m);
        lemma_stateless_mapper_outputs(m, s.drop_first());
        assert(mapped_outputs(m, s) == seq![m.map_spec(s[0])] + mapped_outputs(m, s.drop_first()));
        assert forall|k: int| 0 <= k < s.len() implies mapped_outputs(m, s)[k] == s.map_values(g)[k] by {
            if k > 0 {
                assert(mapped_outputs(m, s)[k] == mapped_outputs(m, s.drop_first())[k - 1]);
                assert(s.drop_first().map_values(g)[k - 1] == g(s.drop_first()[k - 1]));
            }
        }
        assert(mapped_outputs(m, s) =~= s.map_values(g));
    }
}

/// Absorbing `s1` and then `s2` produces the outputs of `s1` followed by
/// the outputs of `s2`, the latter produced from the state `s1` left
/// behind: mapper state persists across absorption calls.
pub proof fn lemma_mapped_outputs_concat<I, O, M: Mapper<I, O>>(m: M, s1: Seq<I>, s2: Seq<I>)
    ensures
        mapped_outputs(m, s1 + s2) == mapped_outputs(m, s1)
            + mapped_outputs(mapper_after(m, s1), s2),
        mapper_after(m, s1 + s2) == mapper_after(mapper_after(m, s1), s2),
    decreases s2.len(),
{
    if s2.len() == 0 {
        assert(s1 + s2 =~= s1);
        assert(mapped_outputs(m, s1) + mapped_outputs(mapper_after(m, s1), s2)
            =~= mapped_outputs(m, s1));
    } else {
        let s2p = s2.drop_last();
        let x = s2.last();
        assert(s1 + s2 =~= (s1 + s2p).push(x));
        assert(s2 =~= s2p.push(x));
        lemma_mapped_outputs_concat(m, s1, s2p);
        lemma_mapped_outputs_push(m, s1 + s2p, x);
        lemma_mapped_outputs_push(mapper_after(m, s1), s2p, x);
        assert(mapped_outputs(m, s1 + s2) =~= mapped_outputs(m, s1)
            + mapped_outputs(mapper_after(m, s1), s2));
    }
}

/// Mapping preserves order and length: the output has one element per
/// input, and the output at each position is the input at that position
/// transformed by the state the earlier inputs left behind. In
/// particular, inputs before and after one another keep that order in
/// the container.
pub proof fn lemma_mapped_outputs_index<I, O, M: Mapper<I, O>>(m: M, s: Seq<I>)
    ensures
        mapped_outputs(m, s).len() == s.len(),
        forall|k: int| 0 <= k < s.len()
            ==> #[trigger] mapped_outputs(m, s)[k] == mapper_after(m, s.take(k)).map_spec(s[k]),
    decreases s.len(),
{
    if s.len() == 0 {
    } else {
        let sp = s.drop_last();
        let x = s.last();
        assert(s =~= sp.push(x));
        lemma_mapped_outputs_index(m, sp);
        lemma_mapped_outputs_push(m, sp, x);
        assert(mapped_outputs(m, s) == mapped_outputs(m, sp).push(mapper_after(m, sp).map_spec(x)));
        assert forall|k: int| 0 <= k < s.len() implies #[trigger] mapped_outputs(m, s)[k]
            == mapper_after(m, s.take(k)).map_spec(s[k]) by {
            if k < s.len() - 1 {
                assert(mapped_outputs(m, s)[k] == mapped_outputs(m, sp)[k]);
                assert(s.take(k) =~= sp.take(k));
                assert(s[k] == sp[k]);
            } else {
                assert(s.take(k) =~= sp);
                assert(mapped_outputs(m, s)[k] == mapper_after(m, sp).map_spec(x));
            }
        }
    }
}

/// Wraps an exclusively borrowed `Extender: Extendable<ExtendElement>` and
/// applies a mapping function before passing elements to the `Extender`.
pub struct ExtendMap<
    'extender,
    InputElement,
    ExtendElement,
    M: Mapper<InputElement, ExtendElement>,
    Extender: Extendable<ExtendElement>,
> {
    pub extender: &'extender mut Extender,
    pub mapper: M,
    pub inputs: Ghost<Seq<InputElement>>,
    pub phantom_data: PhantomData<ExtendElement>,
}

impl<
    'extender,
    InputElement,
    ExtendElement,
    M: Mapper<InputElement, ExtendElement>,
    Extender: Extendable<ExtendElement>,
> ExtendMap<'extender, InputElement, ExtendElement, M, Extender> {
    /// Take exclusive access to `extender` and ownership of `mapper`.
    pub fn new(extender: &'extender mut Extender, mapper: M) -> (s: Self)
        ensures
            *s.extender == *old(extender),
            *final(extender) == *final(s.extender),
            s.mapper == mapper,
            s.inputs@ == Seq::<InputElement>::empty(),
    {
        Self {
            extender,
            mapper,
            inputs: Ghost(Seq::empty()),
            phantom_data: PhantomData,
        }
    }

    /// End the wrapper, returning the borrow of the container to the
    /// caller. The returned reference is the one `new` was given.
    pub fn into_inner(self) -> (r: &'extender mut Extender)
        ensures
            *r == *old(self.extender),
            *final(r) == *final(self.extender),
    {
        self.extender
    }
}

impl<
    'extender,
    InputElement,
    ExtendElement,
    M: Mapper<InputElement, ExtendElement>,
    Extender: Extendable<ExtendElement>,
> Extendable<InputElement> for ExtendMap<'extender, InputElement, ExtendElement, M, Extender> {
    /// The inputs absorbed through the wrapper so far.
    open spec fn elems(&self) -> Seq<InputElement> {
        self.inputs@
    }

    /// Transform each element of `items`, in order, and forward each
    /// output to the wrapped container as it is produced.
    fn extend(&mut self, items: Vec<InputElement>)
        ensures
            (*final(self).extender).elems() == (*old(self).extender).elems()
                + mapped_outputs(old(self).mapper, items@),
            *final(final(self).extender) == *final(old(self).extender),
            final(self).mapper == mapper_after(old(self).mapper, items@),
    {
        let ghost all: Seq<InputElement> = items@;
        let ghost mut done: Seq<InputElement> = Seq::empty();
        let mut rest = items;
        while rest.len() > 0
            invariant
                all =~= done + rest@,
                (*self.extender).elems() == (*old(self).extender).elems()
                    + mapped_outputs(old(self).mapper, done),
                *final(self.extender) == *final(old(self).extender),
                self.mapper == mapper_after(old(self).mapper, done),
                self.inputs == old(self).inputs,
            decreases rest.len(),
        {
            let x = rest.remove(0);
            proof {
                lemma_mapped_outputs_push(old(self).mapper, done, x);
            }
            let y = self.mapper.call(x);
            let mut one: Vec<ExtendElement> = Vec::new();
            one.push(y);
            self.extender.extend(one);
            proof {
                done = done.push(x);
                assert((*self.extender).elems() =~= (*old(self).extender).elems()
                    + mapped_outputs(old(self).mapper, done));
            }
        }
        proof {
            assert(done =~= all);
        }
        self.inputs = Ghost(self.inputs@ + all);
    }
}

} // verus!
