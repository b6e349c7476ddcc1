//! A striped counter: a fixed set of independent counter lanes, each padded
//! to a full cache line so that no two lanes share one, with an aggregate
//! `sum` that adds the lanes up in order.

use vstd::prelude::*;

verus! {

/// The size, in bytes, of one hardware cache line on the targets this
/// library is built for.
pub const CACHE_LINE_BYTES: usize = 64;

/// One lane: an independent counter cell. The padding rounds the stripe up
/// to a full cache line, so that two stripes never share one and a write to
/// one lane's counter cannot invalidate the line backing another's.
pub struct Stripe {
    value: usize,
    _padding: [u8; 56],
}

/// Why a construction or an increment was refused.
#[derive(Clone, Copy, Debug, PartialEq, Eq, Structural)]
pub enum AdderError {
    /// `new` was asked for zero lanes.
    InvalidConfiguration,
    /// `increment` was given a lane index at or past the lane count.
    IndexOutOfBounds,
}

/// A striped counter: an ordered, fixed-length sequence of stripes,
/// allocated once at construction and never resized or reordered.
pub struct Adder {
    stripes: Vec<Stripe>,
}

/// The sum of a sequence of lane values.
pub open spec fn total(s: Seq<nat>) -> nat
    decreases s.len(),
{
    if s.len() == 0 {
        0
    } else {
        total(s.drop_last()) + s.last()
    }
}

impl View for Adder {
    type V = Seq<nat>;

    /// A striped counter is modelled by the sequence of its lane values.
    closed spec fn view(&self) -> Seq<nat> {
        self.stripes@.map(|i: int, s: Stripe| s.value as nat)
    }
}

impl Adder {
    /// Well-formed: at least one lane, and the aggregate still fits in a
    /// machine word, so that `sum` can add the lanes without overflow.
    pub open spec fn wf(&self) -> bool {
        &&& self@.len() >= 1
        &&& total(self@) <= usize::MAX as nat
    }

    /// Builds a counter with `lane_count` lanes, each starting at zero.
    /// Zero lanes is an invalid configuration and is refused.
    pub fn new(lane_count: usize) -> (r: Result<Adder, AdderError>)
        ensures
            match r {
                Ok(a) => {
                    &&& lane_count >= 1
                    &&& a.wf()
                    &&& a@.len() == lane_count
                    &&& forall|i: int| 0 <= i < a@.len() ==> a@[i] == 0
                    &&& total(a@) == 0
                },
                Err(e) => lane_count == 0 && e == AdderError::InvalidConfiguration,
            },
    {
        if lane_count == 0 {
            return Err(AdderError::InvalidConfiguration);
        }
        let mut stripes: Vec<Stripe> = Vec::new();
        let mut i: usize = 0;
        while i < lane_count
            invariant
                i <= lane_count,
                stripes@.len() == i,
                forall|j: int| 0 <= j < i ==> stripes@[j].value == 0,
            decreases lane_count - i,
        {
            stripes.push(Stripe { value: 0, _padding: [0u8; 56] });
            i = i + 1;
        }
        let adder = Adder { stripes };
        proof {
            lemma_total_all_zero(adder@);
        }
        Ok(adder)
    }

    /// Adds one to the lane picked by `lane_index`; every other lane keeps
    /// its value. An index at or past the lane count is refused and leaves
    /// the counter unchanged.
    pub fn increment(&mut self, lane_index: usize) -> (r: Result<(), AdderError>)
        requires
            old(self).wf(),
            total(old(self)@) < usize::MAX,
        ensures
            final(self).wf(),
            match r {
                Ok(()) => {
                    &&& lane_index < old(self)@.len()
                    &&& final(self)@ == old(self)@.update(
                        lane_index as int,
                        (old(self)@[lane_index as int] + 1) as nat,
                    )
                    &&& total(final(self)@) == total(old(self)@) + 1
                },
                Err(e) => {
                    &&& lane_index >= old(self)@.len()
                    &&& e == AdderError::IndexOutOfBounds
                    &&& final(self)@ == old(self)@
                },
            },
    {
        if lane_index >= self.stripes.len() {
            return Err(AdderError::IndexOutOfBounds);
        }
        proof {
            lemma_lane_le_total(self@, lane_index as int);
        }
        let value = self.stripes[lane_index].value;
        self.stripes.set(lane_index, Stripe { value: value + 1, _padding: [0u8; 56] });
        proof {
            assert(self@ =~= old(self)@.update(
                lane_index as int,
                (old(self)@[lane_index as int] + 1) as nat,
            ));
            lemma_total_update(old(self)@, lane_index as int, (old(self)@[lane_index as int] + 1) as nat);
        }
        Ok(())
    }

    /// Reads each lane once, in lane order, and returns the running total.
    pub fn sum(&self) -> (r: usize)
        requires
            self.wf(),
        ensures
            r == total(self@),
    {
        let mut acc: usize = 0;
        let mut i: usize = 0;
        while i < self.stripes.len()
            invariant
                self.wf(),
                i <= self@.len(),
                acc == total(self@.take(i as int)),
            decreases self@.len() - i,
        {
            proof {
                lemma_total_take_step(self@, i as int);
                lemma_total_take_le(self@, i as int + 1);
            }
            acc = acc + self.stripes[i].value;
            i = i + 1;
        }
        proof {
            assert(self@.take(self@.len() as int) =~= self@);
        }
        acc
    }

    /// How many lanes the counter was built with.
    pub fn lane_count(&self) -> (r: usize)
        ensures
            r == self@.len(),
    {
        self.stripes.len()
    }

    /// Reads one lane's current value, or nothing for an index at or past
    /// the lane count.
    pub fn lane_value(&self, lane_index: usize) -> (r: Option<usize>)
        ensures
            match r {
                Some(v) => lane_index < self@.len() && v == self@[lane_index as int],
                None => lane_index >= self@.len(),
            },
    {
        if lane_index < self.stripes.len() {
            Some(self.stripes[lane_index].value)
        } else {
            None
        }
    }
}

/// The lane values after a run of increments: each entry of `ops` names a
/// lane, applied in order, and each application raises that lane by one.
/// This is exactly the step that `increment`'s contract promises, so a run
/// of successful `increment` calls takes the counter's view from `s` to
/// `apply_increments(s, ops)`.
pub open spec fn apply_increments(s: Seq<nat>, ops: Seq<int>) -> Seq<nat>
    decreases ops.len(),
{
    if ops.len() == 0 {
        s
    } else {
        apply_increments(s.update(ops[0], (s[ops[0]] + 1) as nat), ops.skip(1))
    }
}

/// Exact count: a run of increments to valid lanes raises the total by
/// exactly the number of increments, however the lanes were chosen. With
/// `sum`'s contract, a `sum` that overlaps no increment returns exactly the
/// number of completed increments since the counter held zero.
pub proof fn lemma_exact_count(s: Seq<nat>, ops: Seq<int>)
    requires
        forall|k: int| 0 <= k < ops.len() ==> 0 <= #[trigger] ops[k] < s.len(),
    ensures
        apply_increments(s, ops).len() == s.len(),
        total(apply_increments(s, ops)) == total(s) + ops.len(),
    decreases ops.len(),
{
    if ops.len() > 0 {
        let stepped = s.update(ops[0], (s[ops[0]] + 1) as nat);
        lemma_total_update(s, ops[0], (s[ops[0]] + 1) as nat);
        assert forall|k: int| 0 <= k < ops.skip(1).len() implies 0 <= #[trigger] ops.skip(1)[k]
            < stepped.len() by {
            assert(ops.skip(1)[k] == ops[k + 1]);
        }
        lemma_exact_count(stepped, ops.skip(1));
    }
}

/// Monotonicity: with no decrement possible, a later total is never below
/// an earlier one, so of two `sum` results separated only by increments the
/// later is at least the earlier.
pub proof fn lemma_sum_monotonic(s: Seq<nat>, ops: Seq<int>)
    requires
        forall|k: int| 0 <= k < ops.len() ==> 0 <= #[trigger] ops[k] < s.len(),
    ensures
        total(apply_increments(s, ops)) >= total(s),
{
    lemma_exact_count(s, ops);
}

/// Bounded interleaving: a `sum` that runs while `ops.len()` increments are
/// in flight reads each lane at some moment of its own, so each lane is
/// read between its value before the run and its value after it. Whatever
/// those moments were, the result lies between the total before the run and
/// that total plus the number of in-flight increments.
pub proof fn lemma_bounded_interleaving(pre: Seq<nat>, obs: Seq<nat>, ops: Seq<int>)
    requires
        forall|k: int| 0 <= k < ops.len() ==> 0 <= #[trigger] ops[k] < pre.len(),
        obs.len() == pre.len(),
        forall|i: int| 0 <= i < obs.len() ==> pre[i] <= #[trigger] obs[i] <= apply_increments(
            pre,
            ops,
        )[i],
    ensures
        total(pre) <= total(obs) <= total(pre) + ops.len(),
{
    lemma_exact_count(pre, ops);
    lemma_total_pointwise_le(pre, obs);
    lemma_total_pointwise_le(obs, apply_increments(pre, ops));
}

/// Lane-by-lane bounds carry over to the totals.
proof fn lemma_total_pointwise_le(a: Seq<nat>, b: Seq<nat>)
    requires
        a.len() == b.len(),
        forall|i: int| 0 <= i < a.len() ==> #[trigger] a[i] <= #[trigger] b[i],
    ensures
        total(a) <= total(b),
    decreases a.len(),
{
    if a.len() > 0 {
        lemma_total_pointwise_le(a.drop_last(), b.drop_last());
    }
}

/// Every lane value is bounded by the total of its sequence.
proof fn lemma_lane_le_total(s: Seq<nat>, i: int)
    requires
        0 <= i < s.len(),
    ensures
        s[i] <= total(s),
    decreases s.len(),
{
    if i < s.len() - 1 {
        lemma_lane_le_total(s.drop_last(), i);
    }
}

/// Raising one lane by `v - s[i]` raises the total by the same amount:
/// `total(s.update(i, v)) + s[i] == total(s) + v`.
proof fn lemma_total_update(s: Seq<nat>, i: int, v: nat)
    requires
        0 <= i < s.len(),
    ensures
        total(s.update(i, v)) + s[i] == total(s) + v,
    decreases s.len(),
{
    if i == s.len() - 1 {
        assert(s.update(i, v).drop_last() =~= s.drop_last());
    } else {
        assert(s.update(i, v).drop_last() =~= s.drop_last().update(i, v));
        lemma_total_update(s.drop_last(), i, v);
    }
}

/// Extending a prefix by one lane adds that lane's value to the prefix total.
proof fn lemma_total_take_step(s: Seq<nat>, i: int)
    requires
        0 <= i < s.len(),
    ensures
        total(s.take(i + 1)) == total(s.take(i)) + s[i],
{
    assert(s.take(i + 1).drop_last() =~= s.take(i));
}

/// A prefix never sums to more than the whole sequence.
proof fn lemma_total_take_le(s: Seq<nat>, i: int)
    requires
        0 <= i <= s.len(),
    ensures
        total(s.take(i)) <= total(s),
    decreases s.len() - i,
{
    if i == s.len() {
        assert(s.take(i) =~= s);
    } else {
        lemma_total_take_step(s, i);
        lemma_total_take_le(s, i + 1);
    }
}

/// A sequence of zeroes sums to zero.
proof fn lemma_total_all_zero(s: Seq<nat>)
    requires
        forall|i: int| 0 <= i < s.len() ==> s[i] == 0,
    ensures
        total(s) == 0,
    decreases s.len(),
{
    if s.len() > 0 {
        lemma_total_all_zero(s.drop_last());
    }
}

} // verus!
