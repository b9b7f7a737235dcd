//! One level of the wheel: a row of buckets and a bitset that marks the
//! buckets that hold anything.

use vstd::prelude::*;
use vstd::std_specs::bits::{u64_trailing_zeros, axiom_u64_trailing_zeros};
use crate::timing_wheel::bucket::{SlotLike, with_item};

verus! {

/// Whether bit `i` of `bits` is set.
pub open spec fn bit_set(bits: u64, i: u64) -> bool {
    (bits >> i) & 1 == 1
}

/// Setting bit `at` changes no other bit.
proof fn lemma_set_bit(bits: u64, at: u64)
    by (bit_vector)
    requires
        at < 64,
    ensures
        forall|j: u64|
            j < 64 ==> (#[trigger] bit_set(bits | (1u64 << at), j) <==> bit_set(bits, j) || j == at),
{
}

/// Clearing bit `at` changes no other bit.
proof fn lemma_clear_bit(bits: u64, at: u64)
    by (bit_vector)
    requires
        at < 64,
    ensures
        forall|j: u64|
            j < 64 ==> (#[trigger] bit_set(bits & !(1u64 << at), j) <==> bit_set(bits, j) && j
                != at),
{
}

/// Zero has no bit set.
proof fn lemma_no_bit(j: u64)
    by (bit_vector)
    ensures
        !bit_set(0, j),
{
}

/// A row of at most 64 buckets.
pub struct Level<S: SlotLike> {
    bitset: u64,
    slots: Vec<S>,
}

impl<S: SlotLike> Level<S> {
    /// The number of buckets.
    pub closed spec fn width(&self) -> nat {
        self.slots@.len()
    }

    /// The bucket at `at`.
    pub closed spec fn slot(&self, at: int) -> S {
        self.slots@[at]
    }

    /// The items of the bucket at `at`, the next one to pop last.
    pub open spec fn bucket(&self, at: int) -> Seq<S::Item> {
        self.slot(at).items()
    }

    /// Whether no bucket below `bound` holds anything.
    pub open spec fn empty_below(&self, bound: int) -> bool {
        forall|j: int| 0 <= j < bound && j < self.width() ==> #[trigger] self.bucket(j).len() == 0
    }

    /// The bitset marks exactly the buckets that hold something, and every
    /// bucket is valid.
    pub closed spec fn wf(&self) -> bool {
        &&& 1 <= self.slots@.len() <= 64
        &&& forall|j: int| 0 <= j < self.slots@.len() ==> (#[trigger] self.slots@[j]).inv()
        &&& forall|j: u64|
            j < 64 ==> (#[trigger] bit_set(self.bitset, j) <==> j < self.slots@.len()
                && self.slots@[j as int].items().len() > 0)
    }

    /// The lowest bucket that holds anything, or 64 when none does.
    pub closed spec fn lowest(&self) -> nat {
        u64_trailing_zeros(self.bitset) as nat
    }

    /// What `lowest` means: nothing lies below it, and the bucket there, if
    /// there is one, holds something.
    pub proof fn lemma_lowest(&self)
        requires
            self.wf(),
        ensures
            self.lowest() <= 64,
            self.empty_below(self.lowest() as int),
            self.lowest() < 64 ==> self.lowest() < self.width() && self.bucket(
                self.lowest() as int,
            ).len() > 0,
            self.lowest() == 64 ==> self.empty_below(self.width() as int),
    {
        axiom_u64_trailing_zeros(self.bitset);
        let zeros = u64_trailing_zeros(self.bitset);
        if zeros < 64 {
            assert(bit_set(self.bitset, zeros as u64));
        }
        assert forall|j: int| 0 <= j < zeros && j < self.width() implies #[trigger] self.bucket(
            j,
        ).len() == 0 by {
            assert(!bit_set(self.bitset, j as u64));
        }
    }

    /// The width of a valid level.
    pub proof fn lemma_width(&self)
        requires
            self.wf(),
        ensures
            1 <= self.width() <= 64,
            forall|j: int| 0 <= j < self.width() ==> (#[trigger] self.slot(j)).inv(),
    {
    }

    /// A level of `width` empty buckets.
    pub fn new(width: usize) -> (level: Self)
        requires
            1 <= width <= 64,
        ensures
            level.wf(),
            level.width() == width,
            level.empty_below(width as int),
    {
        let mut slots: Vec<S> = Vec::new();
        while slots.len() < width
            invariant
                slots@.len() <= width,
                forall|j: int|
                    0 <= j < slots@.len() ==> (#[trigger] slots@[j]).inv() && slots@[j].items().len()
                        == 0,
            decreases width - slots@.len(),
        {
            let fresh = S::default();
            proof {
                S::lemma_default_is_empty(fresh);
            }
            slots.push(fresh);
        }
        proof {
            assert forall|j: u64| j < 64 implies !#[trigger] bit_set(0, j) by {
                lemma_no_bit(j);
            }
        }
        Level { bitset: 0, slots }
    }

    /// Pushes `i` into the bucket at `at`; hands it back when the bucket is
    /// full.
    pub fn push_at(&mut self, at: u32, i: S::Item) -> (r: Result<(), S::Item>)
        requires
            old(self).wf(),
            at < old(self).width(),
        ensures
            final(self).wf(),
            final(self).width() == old(self).width(),
            r is Ok <==> old(self).slot(at as int).has_room(),
            r is Ok ==> final(self).bucket(at as int) == with_item(
                old(self).bucket(at as int),
                i,
                S::is_stack(),
            ),
            r is Err ==> r == Err::<(), S::Item>(i) && final(self).bucket(at as int) == old(
                self,
            ).bucket(at as int),
            forall|j: int|
                0 <= j < old(self).width() && j != at ==> #[trigger] final(self).slot(j) == old(self).slot(j),
    {
        let ret = self.slots[at as usize].push(i);
        if ret.is_ok() {
            proof {
                lemma_set_bit(self.bitset, at as u64);
            }
            self.bitset = self.bitset | (1u64 << (at as u64));
        }
        ret
    }

    /// Pops the last item of the bucket at `at`, if it holds one.
    pub fn pop_at(&mut self, at: u32) -> (r: Option<S::Item>)
        requires
            old(self).wf(),
            at < old(self).width(),
        ensures
            final(self).wf(),
            final(self).width() == old(self).width(),
            old(self).bucket(at as int).len() == 0 ==> r is None && final(self).bucket(at as int)
                == old(self).bucket(at as int),
            old(self).bucket(at as int).len() > 0 ==> r == Some(old(self).bucket(at as int).last())
                && final(self).bucket(at as int) == old(self).bucket(at as int).drop_last(),
            forall|j: int|
                0 <= j < old(self).width() && j != at ==> #[trigger] final(self).slot(j) == old(self).slot(j),
    {
        let popped = self.slots[at as usize].pop();
        if self.slots[at as usize].size() == 0 {
            proof {
                lemma_clear_bit(self.bitset, at as u64);
            }
            self.bitset = self.bitset & !(1u64 << (at as u64));
        }
        popped
    }

    /// The lowest bucket that holds anything. No bucket below `from` may
    /// hold anything.
    pub fn next_event(&self, from: u32) -> (r: Option<u32>)
        requires
            self.wf(),
            self.empty_below(from as int),
        ensures
            r == (if self.lowest() < 64 {
                Some(self.lowest() as u32)
            } else {
                None
            }),
            r matches Some(at) ==> from <= at,
    {
        proof {
            self.lemma_lowest();
            axiom_u64_trailing_zeros(self.bitset);
        }
        if self.bitset == 0 {
            None
        } else {
            let zeros = self.bitset.trailing_zeros();
            Some(zeros)
        }
    }

    /// Pops the last item of the lowest bucket that holds anything, unless
    /// that bucket is at `until` or above.
    pub fn drain_next(&mut self, until: u32) -> (r: Option<S::Item>)
        requires
            old(self).wf(),
        ensures
            final(self).wf(),
            final(self).width() == old(self).width(),
            old(self).lowest() >= 64 || old(self).lowest() >= until ==> r is None && *final(self)
                == *old(self),
            old(self).lowest() < 64 && old(self).lowest() < until ==> {
                let at = old(self).lowest() as int;
                &&& r == Some(old(self).bucket(at).last())
                &&& final(self).bucket(at) == old(self).bucket(at).drop_last()
                &&& forall|j: int|
                    0 <= j < old(self).width() && j != at ==> #[trigger] final(self).slot(j) == old(self).slot(
                        j,
                    )
            },
    {
        proof {
            self.lemma_lowest();
            axiom_u64_trailing_zeros(self.bitset);
        }
        if self.bitset == 0 {
            return None;
        }
        let idx = self.bitset.trailing_zeros();
        if idx >= until {
            return None;
        }
        self.pop_at(idx)
    }

    /// Puts the empty bucket `slot` in the place of the bucket at `idx` and
    /// hands the old one out, with everything in it.
    pub fn replace_slot(&mut self, idx: u32, slot: S) -> (taken: S)
        requires
            old(self).wf(),
            idx < old(self).width(),
            slot.inv(),
            slot.items().len() == 0,
        ensures
            final(self).wf(),
            final(self).width() == old(self).width(),
            taken == old(self).slot(idx as int),
            final(self).slot(idx as int) == slot,
            forall|j: int|
                0 <= j < old(self).width() && j != idx ==> #[trigger] final(self).slot(j) == old(self).slot(j),
    {
        proof {
            lemma_clear_bit(self.bitset, idx as u64);
        }
        self.bitset = self.bitset & !(1u64 << (idx as u64));
        let mut incoming = slot;
        core::mem::swap(&mut self.slots[idx as usize], &mut incoming);
        incoming
    }

    /// What draining hands out of the buckets below `bound`: bucket after
    /// bucket from the lowest, each from its last item to its first.
    pub open spec fn drained(&self, bound: int) -> Seq<S::Item>
        decreases bound,
    {
        if bound <= 0 {
            Seq::empty()
        } else {
            self.drained(bound - 1) + self.bucket(bound - 1).reverse()
        }
    }

    /// Empty buckets hand out nothing.
    proof fn lemma_drained_nothing(&self, bound: int)
        requires
            bound <= self.width(),
            self.empty_below(bound),
        ensures
            self.drained(bound) =~= Seq::<S::Item>::empty(),
        decreases bound,
    {
        if bound > 0 {
            self.lemma_drained_nothing(bound - 1);
            assert(self.bucket(bound - 1).len() == 0);
        }
    }

    /// Taking the last item of the lowest bucket that holds anything takes
    /// the first item of what draining hands out.
    proof fn lemma_drained_step(&self, after: &Self, at: int, bound: int)
        requires
            0 <= at < bound <= self.width(),
            after.width() == self.width(),
            self.empty_below(at),
            self.bucket(at).len() > 0,
            after.bucket(at) == self.bucket(at).drop_last(),
            forall|j: int|
                0 <= j < self.width() && j != at ==> #[trigger] after.slot(j) == self.slot(j),
        ensures
            self.drained(bound) =~= seq![self.bucket(at).last()] + after.drained(bound),
        decreases bound,
    {
        if bound == at + 1 {
            self.lemma_drained_nothing(at);
            assert(after.empty_below(at)) by {
                assert forall|j: int| 0 <= j < at && j < after.width() implies #[trigger] after.bucket(
                    j,
                ).len() == 0 by {
                    assert(after.slot(j) == self.slot(j));
                    assert(self.bucket(j).len() == 0);
                }
            }
            after.lemma_drained_nothing(at);
            let all = self.bucket(at);
            assert(all.reverse() =~= seq![all.last()] + all.drop_last().reverse());
        } else {
            self.lemma_drained_step(after, at, bound - 1);
            assert(after.slot(bound - 1) == self.slot(bound - 1));
        }
    }

    /// Takes out everything that the buckets below `bound` hold, lowest
    /// bucket first.
    pub fn drain_until(&mut self, bound: u32) -> (out: Vec<S::Item>)
        requires
            old(self).wf(),
        ensures
            final(self).wf(),
            final(self).width() == old(self).width(),
            out@ == old(self).drained(
                if bound < old(self).width() {
                    bound as int
                } else {
                    old(self).width() as int
                },
            ),
            final(self).empty_below(bound as int),
            forall|j: int|
                bound <= j < old(self).width() ==> #[trigger] final(self).slot(j) == old(self).slot(j),
    {
        let ghost before = *self;
        let ghost reach = if bound < self.width() {
            bound as int
        } else {
            self.width() as int
        };
        let mut out: Vec<S::Item> = Vec::new();
        proof {
            self.lemma_width();
        }
        loop
            invariant
                self.wf(),
                self.width() == before.width(),
                reach <= self.width() <= 64,
                reach <= bound,
                bound < self.width() ==> reach == bound,
                bound >= self.width() ==> reach == self.width(),
                out@ + self.drained(reach) =~= before.drained(reach),
                forall|j: int|
                    bound <= j < self.width() ==> #[trigger] self.slot(j) == before.slot(j),
            ensures
                self.lowest() >= 64 || self.lowest() >= bound,
            decreases 64 - self.lowest(), self.bucket(self.lowest() as int).len(),
        {
            let ghost prior = *self;
            proof {
                self.lemma_lowest();
            }
            match self.drain_next(bound) {
                Some(item) => {
                    proof {
                        self.lemma_lowest();
                        let at = prior.lowest() as int;
                        let now = self.lowest() as int;
                        if now < at {
                            assert(self.slot(now) == prior.slot(now));
                            assert(prior.bucket(now).len() == 0);
                        }
                        prior.lemma_drained_step(self, at, reach);
                    }
                    out.push(item);
                },
                None => {
                    break ;
                },
            }
        }
        proof {
            self.lemma_lowest();
            self.lemma_drained_nothing(reach);
        }
        out
    }

    /// Takes out everything that the level holds, lowest bucket first.
    pub fn drain(&mut self) -> (out: Vec<S::Item>)
        requires
            old(self).wf(),
        ensures
            final(self).wf(),
            final(self).width() == old(self).width(),
            out@ == old(self).drained(old(self).width() as int),
            final(self).empty_below(old(self).width() as int),
    {
        proof {
            self.lemma_width();
        }
        let width = self.slots.len() as u32;
        self.drain_until(width)
    }
}

} // verus!
