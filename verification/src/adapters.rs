//! Ready-made mappers and filters: a stateless doubler, a stateless
//! threshold predicate, and a stateful counter that pairs each element
//! with an increasing index.

use vstd::prelude::*;
use crate::mapping::Mapper;
use crate::mapping::mapped_outputs;
use crate::mapping::mapper_after;
use crate::mapping::mapper_is_stateless;
use crate::filtering::Filter;
use crate::filtering::filter_is_stateless;
use core::marker::PhantomData;

verus! {

/// Maps `x` to `2 * x`, saturating at `u64::MAX`. Stateless.
pub struct DoublingMapper;

impl Mapper<u64, u64> for DoublingMapper {
    open spec fn map_spec(&self, x: u64) -> u64 {
        if x <= u64::MAX / 2 {
            (2 * x) as u64
        } else {
            u64::MAX
        }
    }

    open spec fn next_spec(&self, x: u64) -> Self {
        DoublingMapper
    }

    fn call(&mut self, x: u64) -> (r: u64) {
        if x <= u64::MAX / 2 {
            x * 2
        } else {
            u64::MAX
        }
    }
}

/// A `DoublingMapper` never changes state.
pub proof fn lemma_doubling_mapper_stateless(m: DoublingMapper)
    ensures
        mapper_is_stateless(m),
{
}

/// Lets through exactly the elements strictly greater than `min`.
/// Stateless.
pub struct ThresholdFilter {
    pub min: u64,
}

impl Filter<u64> for ThresholdFilter {
    open spec fn accept_spec(&self, x: u64) -> bool {
        x > self.min
    }

    open spec fn next_spec(&self, x: u64) -> Self {
        ThresholdFilter { min: self.min }
    }

    fn call(&mut self, x: &u64) -> (r: bool) {
        *x > self.min
    }
}

/// A `ThresholdFilter` never changes state.
pub proof fn lemma_threshold_filter_stateless(f: ThresholdFilter)
    ensures
        filter_is_stateless(f),
{
}

/// Pairs each element with the index `count`, then advances the count,
/// wrapping at `u64::MAX`. The count persists across calls, so across
/// repeated absorptions through one wrapper the indices keep growing.
pub struct CountingMapper<E> {
    pub count: u64,
    pub phantom_data: PhantomData<E>,
}

impl<E> CountingMapper<E> {
    /// A counter that starts at `start`.
    pub fn new(start: u64) -> (m: Self)
        ensures
            m.count == start,
    {
        CountingMapper { count: start, phantom_data: PhantomData }
    }
}

impl<E> Mapper<E, (u64, E)> for CountingMapper<E> {
    open spec fn map_spec(&self, x: E) -> (u64, E) {
        (self.count, x)
    }

    open spec fn next_spec(&self, x: E) -> Self {
        if self.count == u64::MAX {
            CountingMapper { count: 0, phantom_data: self.phantom_data }
        } else {
            CountingMapper { count: (self.count + 1) as u64, phantom_data: self.phantom_data }
        }
    }

    fn call(&mut self, x: E) -> (r: (u64, E)) {
        let c: u64 = self.count;
        if self.count == u64::MAX {
            self.count = 0;
        } else {
            self.count = self.count + 1;
        }
        (c, x)
    }
}

/// A counter starting at `count` pairs the input at each position `k`
/// with index `count + k`, in order, and is left `s.len()` further on:
/// the indices it hands out are strictly increasing.
pub proof fn lemma_counting_mapper_outputs<E>(m: CountingMapper<E>, s: Seq<E>)
    requires
        m.count + s.len() <= u64::MAX,
    ensures
        mapped_outputs(m, s).len() == s.len(),
        forall|k: int| 0 <= k < s.len()
            ==> #[trigger] mapped_outputs(m, s)[k] == (((m.count + k) as u64, s[k])),
        mapper_after(m, s).count == m.count + s.len(),
    decreases s.len(),
{
    if s.len() == 0 {
    } else {
        let m2 = m.next_spec(s[0]);
        assert(m2.count == m.count + 1);
        lemma_counting_mapper_outputs(m2, s.drop_first());
        assert(mapped_outputs(m, s) == seq![(m.count, s[0])]
            + mapped_outputs(m2, s.drop_first()));
        assert forall|k: int| 0 <= k < s.len() implies #[trigger] mapped_outputs(m, s)[k]
            == (((m.count + k) as u64, s[k])) by {
            if k > 0 {
                assert(mapped_outputs(m, s)[k] == mapped_outputs(m2, s.drop_first())[k - 1]);
                assert(s.drop_first()[k - 1] == s[k]);
            }
        }
    }
}

/// Statefulness across calls: absorbing `s1` and then `s2` through one
/// counter hands the elements of `s2` indices strictly greater than
/// every index handed to `s1`.
pub proof fn lemma_counting_mapper_increasing<E>(m: CountingMapper<E>, s1: Seq<E>, s2: Seq<E>)
    requires
        m.count + s1.len() + s2.len() <= u64::MAX,
    ensures
        forall|k1: int, k2: int|
            0 <= k1 < s1.len() && 0 <= k2 < s2.len()
                ==> #[trigger] mapped_outputs(m, s1)[k1].0
                    < #[trigger] mapped_outputs(mapper_after(m, s1), s2)[k2].0,
{
    lemma_counting_mapper_outputs(m, s1);
    lemma_counting_mapper_outputs(mapper_after(m, s1), s2);
}

} // verus!
