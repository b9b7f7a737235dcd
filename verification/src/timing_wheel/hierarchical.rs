//! The hierarchical timing wheel.
//!
//! A wheel is a stack of levels. Level 0 tells single ticks apart; each
//! level above it covers as many ticks per bucket as the whole level below.
//! An item waits in the bucket that its tick selects at the lowest level
//! above which the tick agrees with the elapsed time, and moves down as the
//! elapsed time catches up.

use vstd::prelude::*;
use vstd::multiset::Multiset;
use vstd::arithmetic::power2::{pow2, lemma_pow2_pos};
use std::collections::VecDeque;
use crate::timing_wheel::bucket::{SlotLike, BoundedSlot, with_item};
use crate::timing_wheel::gather::{
    gathered,
    lemma_gathered_update,
    lemma_gathered_member,
    lemma_gathered_contains,
    lemma_gathered_empty,
};
use crate::timing_wheel::level::Level;
use crate::timing_wheel::position::{
    level_of,
    index_at,
    rank_of,
    bucket_start,
    locate,
    first_tick_of,
    width_of,
    index_of,
    lemma_level_bound,
    lemma_index_ahead,
    lemma_rank_monotone,
    lemma_rank_parts,
    lemma_level_kept,
    lemma_level_drops,
    lemma_bucket_start_bound,
    lemma_rank_splits,
    lemma_rank_joins,
    lemma_prefix_step,
};

verus! {

/// A timing wheel of `LEVEL` levels with `2^CUTOFF` buckets each, holding
/// payloads of type `T` in buckets of type `S`.
#[verifier::reject_recursive_types(T)]
pub struct Wheel<T, S: SlotLike<Item = (T, usize)>, const LEVEL: usize, const CUTOFF: usize> {
    elapsed: usize,
    levels: Vec<Level<S>>,
}

impl<T, S: SlotLike<Item = (T, usize)>, const LEVEL: usize, const CUTOFF: usize> Wheel<
    T,
    S,
    LEVEL,
    CUTOFF,
> {
    /// The shapes that a wheel can have: a bucket index of one to six bits,
    /// at least one level, and ticks of at most 63 bits.
    pub open spec fn configured() -> bool {
        &&& 1 <= CUTOFF <= 6
        &&& 1 <= LEVEL
        &&& CUTOFF * LEVEL <= 63
    }

    /// The number of buckets of each level.
    pub open spec fn width() -> nat {
        pow2(CUTOFF as nat)
    }

    /// The first tick that is too late for the wheel.
    pub open spec fn range() -> nat {
        pow2((CUTOFF * LEVEL) as nat)
    }

    /// The number of buckets of the whole wheel.
    pub open spec fn buckets() -> nat {
        (LEVEL * Self::width()) as nat
    }

    /// The number of ticks that have fired.
    pub closed spec fn spec_elapsed(&self) -> usize {
        self.elapsed
    }

    /// The bucket `index` of `level`.
    pub closed spec fn slot(&self, level: int, index: int) -> S {
        self.levels@[level].slot(index)
    }

    /// The items of the bucket `index` of `level`, with their ticks, the
    /// next one to leave last.
    pub open spec fn bucket(&self, level: int, index: int) -> Seq<(T, usize)> {
        self.slot(level, index).items()
    }

    /// The level at which `tick` waits.
    pub open spec fn home_level(&self, tick: usize) -> int {
        level_of(tick as nat, self.spec_elapsed() as nat, CUTOFF as nat) as int
    }

    /// The bucket of its level in which `tick` waits.
    pub open spec fn home_index(&self, tick: usize) -> int {
        index_at(tick as nat, CUTOFF as nat, self.home_level(tick) as nat) as int
    }

    /// The place in the delivery order of the bucket in which `item` waits.
    pub open spec fn rank(&self, item: (T, usize)) -> nat {
        rank_of(item.1 as nat, self.spec_elapsed() as nat, CUTOFF as nat)
    }

    /// Every item waits in the bucket that its tick selects, and no item is
    /// in the past or out of range.
    pub open spec fn placed(&self) -> bool {
        forall|level: int, index: int, k: int|
            0 <= level < LEVEL && 0 <= index < Self::width() && 0 <= k < self.bucket(
                level,
                index,
            ).len() ==> {
                let tick = (#[trigger] self.bucket(level, index)[k]).1;
                &&& self.spec_elapsed() <= tick < Self::range()
                &&& self.home_level(tick) == level
                &&& self.home_index(tick) == index
            }
    }

    /// The buckets in the order in which they come due, level by level.
    pub open spec fn row(&self) -> spec_fn(int) -> Seq<(T, usize)> {
        |rank: int| self.bucket(rank / Self::width() as int, rank % Self::width() as int)
    }

    /// The items that are scheduled and have not been delivered, with their
    /// ticks.
    pub open spec fn pending(&self) -> Multiset<(T, usize)> {
        gathered(self.row(), Self::buckets())
    }

    /// The lowest bucket of `level` that holds anything, or 64 when none
    /// does.
    pub closed spec fn lowest(&self, level: int) -> nat {
        self.levels@[level].lowest()
    }

    /// The first bucket that holds anything, at `from` or a higher level,
    /// as its level and index.
    pub open spec fn first_busy(&self, from: nat) -> Option<(nat, nat)>
        decreases LEVEL - from,
    {
        if from >= LEVEL {
            None
        } else if self.lowest(from as int) < 64 {
            Some((from, self.lowest(from as int)))
        } else {
            self.first_busy(from + 1)
        }
    }

    /// The wheel has a valid shape, its levels are in order, and every item
    /// is in its place.
    pub closed spec fn wf(&self) -> bool {
        &&& Self::configured()
        &&& self.levels@.len() == LEVEL
        &&& forall|level: int|
            0 <= level < LEVEL ==> (#[trigger] self.levels@[level]).wf() && self.levels@[level].width()
                == Self::width()
        &&& self.placed()
    }

    /// The bounds that follow from a valid shape.
    pub proof fn lemma_shape()
        requires
            Self::configured(),
        ensures
            2 <= Self::width() <= 64,
            LEVEL <= 63,
            Self::buckets() <= 63 * 64,
    {
        vstd::arithmetic::power2::lemma2_to64();
        if CUTOFF > 1 {
            vstd::arithmetic::power2::lemma_pow2_strictly_increases(1, CUTOFF as nat);
        }
        if CUTOFF < 6 {
            vstd::arithmetic::power2::lemma_pow2_strictly_increases(CUTOFF as nat, 6);
        }
        assert(LEVEL <= CUTOFF * LEVEL) by (nonlinear_arith)
            requires
                CUTOFF >= 1,
        ;
        assert(LEVEL * Self::width() <= 63 * 64) by (nonlinear_arith)
            requires
                LEVEL <= 63,
                Self::width() <= 64,
        ;
    }

    /// What a valid wheel offers to its users.
    pub proof fn lemma_wf(&self)
        requires
            self.wf(),
        ensures
            Self::configured(),
            self.placed(),
            forall|level: int, index: int|
                0 <= level < LEVEL && 0 <= index < Self::width() ==> (#[trigger] self.slot(
                    level,
                    index,
                )).inv(),
    {
        assert forall|level: int, index: int|
            0 <= level < LEVEL && 0 <= index < Self::width() implies (#[trigger] self.slot(
            level,
            index,
        )).inv() by {
            self.levels@[level].lemma_width();
        }
    }

    /// What `lowest` means: nothing lies below it in its level, and the
    /// bucket there, if there is one, holds something.
    pub proof fn lemma_lowest(&self, level: int)
        requires
            self.wf(),
            0 <= level < LEVEL,
        ensures
            self.lowest(level) <= 64,
            forall|index: int|
                0 <= index < self.lowest(level) && index < Self::width() ==> (#[trigger] self.bucket(
                    level,
                    index,
                )).len() == 0,
            self.lowest(level) < 64 ==> self.lowest(level) < Self::width() && self.bucket(
                level,
                self.lowest(level) as int,
            ).len() > 0,
    {
        self.levels@[level].lemma_lowest();
        assert forall|index: int|
            0 <= index < self.lowest(level) && index < Self::width() implies (#[trigger] self.bucket(
            level,
            index,
        )).len() == 0 by {
            assert(self.levels@[level].bucket(index).len() == 0);
        }
    }

    /// Two wheels of one shape that differ in one bucket alone hold the same
    /// once each is given what the other has there.
    pub proof fn lemma_bucket_changed(&self, after: &Self, level: int, index: int)
        requires
            Self::configured(),
            0 <= level < LEVEL,
            0 <= index < Self::width(),
            forall|l: int, b: int|
                0 <= l < LEVEL && 0 <= b < Self::width() && !(l == level && b == index)
                    ==> #[trigger] after.bucket(l, b) == self.bucket(l, b),
        ensures
            after.pending().add(self.bucket(level, index).to_multiset()) =~= self.pending().add(
                after.bucket(level, index).to_multiset(),
            ),
    {
        let w = Self::width() as int;
        let at = level * w + index;
        lemma_pow2_pos(CUTOFF as nat);
        lemma_rank_splits(level, index, w);
        assert(0 <= at < LEVEL * w) by (nonlinear_arith)
            requires
                0 <= level < LEVEL,
                0 <= index < w,
                at == level * w + index,
        ;
        assert forall|k: int| 0 <= k < LEVEL * w && k != at implies (#[trigger] (self.row())(k))
            == (after.row())(k) by {
            lemma_rank_joins(k, LEVEL as int, w);
            assert(after.bucket(k / w, k % w) == self.bucket(k / w, k % w));
        }
        lemma_gathered_update(self.row(), after.row(), at, Self::buckets());
    }

    /// What is pending waits in one of the buckets.
    pub proof fn lemma_pending_member(&self, x: (T, usize))
        requires
            Self::configured(),
            self.pending().count(x) > 0,
        ensures
            exists|level: int, index: int|
                0 <= level < LEVEL && 0 <= index < Self::width() && (#[trigger] self.bucket(
                    level,
                    index,
                )).contains(x),
    {
        let w = Self::width() as int;
        lemma_pow2_pos(CUTOFF as nat);
        lemma_gathered_member(self.row(), Self::buckets(), x);
        let k = choose|k: int| 0 <= k < LEVEL * Self::width() && (#[trigger] (self.row())(k)).contains(x);
        lemma_rank_joins(k, LEVEL as int, w);
        assert(self.bucket(k / w, k % w).contains(x));
    }

    /// What waits in a bucket is pending.
    pub proof fn lemma_pending_contains(&self, level: int, index: int, x: (T, usize))
        requires
            Self::configured(),
            0 <= level < LEVEL,
            0 <= index < Self::width(),
        ensures
            self.bucket(level, index).to_multiset().count(x) <= self.pending().count(x),
    {
        let w = Self::width() as int;
        let at = level * w + index;
        lemma_rank_splits(level, index, w);
        assert(0 <= at < LEVEL * w) by (nonlinear_arith)
            requires
                0 <= level < LEVEL,
                0 <= index < w,
                at == level * w + index,
        ;
        lemma_gathered_contains(self.row(), Self::buckets(), at, x);
    }

    /// A wheel with the levels and the elapsed time of a valid wheel is
    /// valid and holds the same.
    proof fn lemma_same_levels(&self, other: &Self)
        requires
            self.wf(),
            other.levels@ == self.levels@,
            other.elapsed == self.elapsed,
        ensures
            other.wf(),
            other.pending() =~= self.pending(),
            forall|l: int, b: int| #[trigger] other.slot(l, b) == self.slot(l, b),
            forall|l: int| #[trigger] other.lowest(l) == self.lowest(l),
    {
        assert forall|l: int, b: int| #[trigger] other.bucket(l, b) == self.bucket(l, b) by {
            assert(other.slot(l, b) == self.slot(l, b));
        }
        assert(other.placed()) by {
            assert forall|l: int, b: int, k: int|
                0 <= l < LEVEL && 0 <= b < Self::width() && 0 <= k < other.bucket(l, b).len() implies {
                let t = (#[trigger] other.bucket(l, b)[k]).1;
                &&& other.spec_elapsed() <= t < Self::range()
                &&& other.home_level(t) == l
                &&& other.home_index(t) == b
            } by {
                assert(other.bucket(l, b)[k] == self.bucket(l, b)[k]);
            }
        }
        assert forall|k: int| 0 <= k < Self::buckets() implies (#[trigger] (self.row())(k)) == (
        other.row())(k) by {
            assert(other.bucket(k / Self::width() as int, k % Self::width() as int) == self.bucket(
                k / Self::width() as int,
                k % Self::width() as int,
            ));
        }
        lemma_gathered_update(self.row(), other.row(), -1, Self::buckets());
    }

    /// While the levels below `level` hold nothing and `index` is the lowest
    /// bucket of `level` that holds anything, nothing that is pending is due
    /// before that bucket starts.
    proof fn lemma_starts_first(&self, level: int, index: int, x: (T, usize))
        requires
            self.wf(),
            0 <= level < LEVEL,
            forall|l: int| 0 <= l < level ==> self.lowest(l) >= 64,
            self.lowest(level) == index,
            index < 64,
            self.pending().count(x) > 0,
        ensures
            bucket_start(self.spec_elapsed() as nat, CUTOFF as nat, level as nat, index as nat)
                <= x.1,
    {
        Self::lemma_shape();
        self.lemma_pending_member(x);
        let (l, b) = choose|l: int, b: int|
            0 <= l < LEVEL && 0 <= b < Self::width() && (#[trigger] self.bucket(l, b)).contains(x);
        let k = choose|k: int| 0 <= k < self.bucket(l, b).len() && self.bucket(l, b)[k] == x;
        assert(self.bucket(l, b)[k].1 == x.1);
        self.lemma_lowest(l);
        self.lemma_lowest(level);
        lemma_bucket_start_bound(
            x.1 as nat,
            self.elapsed as nat,
            CUTOFF as nat,
            level as nat,
            index as nat,
        );
    }

    /// The order of delivery: of two items that `advance` hands out, the one
    /// with the earlier tick comes first, unless both waited in one bucket.
    /// At the lowest level a bucket holds one tick only, so there the order
    /// is that of the ticks.
    pub proof fn lemma_delivery_order(&self, fired: Seq<(T, usize)>, j: int, k: int)
        requires
            CUTOFF >= 1,
            forall|a: int, b: int|
                0 <= a <= b < fired.len() ==> self.rank(#[trigger] fired[a]) <= self.rank(
                    #[trigger] fired[b],
                ),
            0 <= j < fired.len(),
            0 <= k < fired.len(),
            self.spec_elapsed() <= fired[j].1 < fired[k].1,
            self.rank(fired[j]) != self.rank(fired[k]),
        ensures
            j < k,
    {
        lemma_rank_monotone(
            fired[j].1 as nat,
            fired[k].1 as nat,
            self.spec_elapsed() as nat,
            CUTOFF as nat,
        );
    }

    /// Two items that wait in one bucket of the lowest level have one tick.
    pub proof fn lemma_lowest_level_exact(&self, a: usize, b: usize)
        requires
            CUTOFF >= 1,
            self.home_level(a) == 0,
            self.home_level(b) == 0,
            self.home_index(a) == self.home_index(b),
        ensures
            a == b,
    {
        let e = self.spec_elapsed() as nat;
        crate::timing_wheel::position::lemma_level_of_is(a as nat, e, CUTOFF as nat);
        crate::timing_wheel::position::lemma_level_of_is(b as nat, e, CUTOFF as nat);
        crate::timing_wheel::position::lemma_index_decides(a as nat, b as nat, CUTOFF as nat, 0);
        lemma_prefix_step(a as nat, CUTOFF as nat, 0);
        lemma_prefix_step(b as nat, CUTOFF as nat, 0);
    }

    /// A wheel that stands at `at` and holds nothing.
    pub fn new(at: usize) -> (wheel: Self)
        requires
            Self::configured(),
        ensures
            wheel.wf(),
            wheel.spec_elapsed() == at,
            wheel.pending() =~= Multiset::empty(),
    {
        let width = width_of(CUTOFF as u64);
        let mut levels: Vec<Level<S>> = Vec::new();
        while levels.len() < LEVEL
            invariant
                2 <= width <= 64,
                width == Self::width(),
                levels@.len() <= LEVEL,
                forall|level: int|
                    0 <= level < levels@.len() ==> (#[trigger] levels@[level]).wf()
                        && levels@[level].width() == width && levels@[level].empty_below(
                        width as int,
                    ),
            decreases LEVEL - levels@.len(),
        {
            levels.push(Level::new(width));
        }
        let wheel = Wheel { elapsed: at, levels };
        proof {
            assert forall|level: int, index: int| 0 <= level < LEVEL && 0 <= index < Self::width()
                implies (#[trigger] wheel.bucket(level, index)).len() == 0 by {
                assert(wheel.levels@[level].bucket(index).len() == 0);
            }
            assert forall|k: int| 0 <= k < LEVEL * Self::width() implies (#[trigger] (wheel.row())(
                k,
            )).len() == 0 by {
                lemma_rank_joins(k, LEVEL as int, Self::width() as int);
                assert(wheel.bucket(k / Self::width() as int, k % Self::width() as int).len() == 0);
            }
            lemma_gathered_empty(wheel.row(), Self::buckets());
        }
        wheel
    }

    /// The number of ticks that have fired.
    #[verifier::when_used_as_spec(spec_elapsed)]
    pub fn elapsed(&self) -> (ticks: usize)
        ensures
            ticks == self.spec_elapsed(),
    {
        self.elapsed
    }

    /// The level and the bucket in which `tick` is to wait, or nothing when
    /// `tick` is in the past.
    pub fn get_pos(&self, tick: usize) -> (pos: Option<(usize, u32)>)
        requires
            Self::configured(),
            tick < Self::range(),
        ensures
            tick < self.spec_elapsed() ==> pos is None,
            tick >= self.spec_elapsed() ==> pos == Some(
                (self.home_level(tick) as usize, self.home_index(tick) as u32),
            ) && self.home_level(tick) < LEVEL && self.home_index(tick) < Self::width(),
    {
        if tick < self.elapsed {
            return None;
        }
        proof {
            lemma_level_bound(tick as nat, self.elapsed as nat, CUTOFF as nat, LEVEL as nat);
            lemma_prefix_step(tick as nat, CUTOFF as nat, self.home_level(tick) as nat);
        }
        Some(locate(self.elapsed as u64, tick as u64, CUTOFF as u64))
    }

    /// Schedules the payload `i` for `tick`. Hands the payload back when
    /// `tick` is in the past, or when the bucket that `tick` selects is full.
    pub fn schedule(&mut self, tick: usize, i: T) -> (r: Result<(), T>)
        requires
            old(self).wf(),
            tick < Self::range(),
        ensures
            final(self).wf(),
            final(self).spec_elapsed() == old(self).spec_elapsed(),
            r is Ok <==> tick >= old(self).spec_elapsed() && old(self).slot(
                old(self).home_level(tick),
                old(self).home_index(tick),
            ).has_room(),
            r is Ok ==> {
                let level = old(self).home_level(tick);
                let index = old(self).home_index(tick);
                &&& final(self).pending() =~= old(self).pending().insert((i, tick))
                &&& final(self).bucket(level, index) == with_item(
                    old(self).bucket(level, index),
                    (i, tick),
                    S::is_stack(),
                )
                &&& forall|l: int, b: int|
                    0 <= l < LEVEL && 0 <= b < Self::width() && !(l == level && b == index)
                        ==> #[trigger] final(self).slot(l, b) == old(self).slot(l, b)
            },
            r is Err ==> {
                &&& r == Err::<(), T>(i)
                &&& final(self).pending() =~= old(self).pending()
                &&& forall|l: int, b: int|
                    0 <= l < LEVEL && 0 <= b < Self::width() ==> #[trigger] final(self).bucket(l, b)
                        == old(self).bucket(l, b)
            },
    {
        let (wheel, offset) = match self.get_pos(tick) {
            Some(inner) => inner,
            None => {
                return Err(i);
            },
        };
        let ghost before = *self;
        let ghost level = wheel as int;
        let ghost index = offset as int;
        proof {
            Self::lemma_shape();
        }
        match self.levels[wheel].push_at(offset, (i, tick)) {
            Ok(()) => {
                proof {
                    assert forall|l: int, b: int|
                        0 <= l < LEVEL && 0 <= b < Self::width() && !(l == level && b == index)
                        implies #[trigger] self.slot(l, b) == before.slot(l, b) by {}
                    assert forall|l: int, b: int|
                        0 <= l < LEVEL && 0 <= b < Self::width() && !(l == level && b == index)
                        implies #[trigger] self.bucket(l, b) == before.bucket(l, b) by {
                        assert(self.slot(l, b) == before.slot(l, b));
                    }
                    before.lemma_bucket_changed(self, level, index);
                    lemma_one_more(before.bucket(level, index), self.bucket(level, index), (i, tick));
                    let had = before.bucket(level, index).to_multiset();
                    let has = self.bucket(level, index).to_multiset();
                    assert forall|x: (T, usize)|
                        self.pending().count(x) == before.pending().insert((i, tick)).count(x) by {
                        assert(self.pending().add(had).count(x) == before.pending().add(has).count(
                            x,
                        ));
                    }
                    assert(self.placed()) by {
                        assert forall|l: int, b: int, k: int|
                            0 <= l < LEVEL && 0 <= b < Self::width() && 0 <= k < self.bucket(
                                l,
                                b,
                            ).len() implies {
                            let t = (#[trigger] self.bucket(l, b)[k]).1;
                            &&& self.spec_elapsed() <= t < Self::range()
                            &&& self.home_level(t) == l
                            &&& self.home_index(t) == b
                        } by {
                            if l == level && b == index {
                                let had = before.bucket(l, b);
                                if self.bucket(l, b) == had.push((i, tick)) {
                                    if k < had.len() {
                                        assert(self.bucket(l, b)[k] == had[k]);
                                    }
                                } else {
                                    if k > 0 {
                                        assert(self.bucket(l, b)[k] == had[k - 1]);
                                    }
                                }
                            } else {
                                assert(self.bucket(l, b)[k] == before.bucket(l, b)[k]);
                            }
                        }
                    }
                }
                Ok(())
            },
            Err(back) => {
                proof {
                    assert forall|l: int, b: int| 0 <= l < LEVEL && 0 <= b < Self::width()
                        implies #[trigger] self.bucket(l, b) == before.bucket(l, b) by {
                        if !(l == level && b == index) {
                            assert(self.slot(l, b) == before.slot(l, b));
                        }
                    }
                    before.lemma_bucket_changed(self, level, index);
                    let had = before.bucket(level, index).to_multiset();
                    assert forall|x: (T, usize)|
                        self.pending().count(x) == before.pending().count(x) by {
                        assert(self.pending().add(had).count(x) == before.pending().add(had).count(
                            x,
                        ));
                    }
                    assert(self.placed()) by {
                        assert forall|l: int, b: int, k: int|
                            0 <= l < LEVEL && 0 <= b < Self::width() && 0 <= k < self.bucket(
                                l,
                                b,
                            ).len() implies {
                            let t = (#[trigger] self.bucket(l, b)[k]).1;
                            &&& self.spec_elapsed() <= t < Self::range()
                            &&& self.home_level(t) == l
                            &&& self.home_index(t) == b
                        } by {
                            assert(self.bucket(l, b)[k] == before.bucket(l, b)[k]);
                        }
                    }
                }
                Err(back.0)
            },
        }
    }

    /// The earliest tick at which a scheduled item may be due: the first tick
    /// of the first bucket that holds anything. No pending item is due
    /// before it; in the lowest level it is the tick of the next item.
    pub fn min_next_event(&self) -> (r: Option<usize>)
        requires
            self.wf(),
        ensures
            r == (match self.first_busy(0) {
                None => None,
                Some((level, index)) => Some(
                    bucket_start(self.spec_elapsed() as nat, CUTOFF as nat, level, index) as usize,
                ),
            }),
            r is None <==> self.pending().len() == 0,
            forall|x: (T, usize)|
                #[trigger] self.pending().count(x) > 0 ==> r is Some && r->Some_0 <= x.1,
    {
        proof {
            Self::lemma_shape();
        }
        let mut i: usize = 0;
        while i < LEVEL
            invariant
                self.wf(),
                i <= LEVEL,
                2 <= Self::width() <= 64,
                LEVEL <= 63,
                self.first_busy(0) == self.first_busy(i as nat),
                forall|level: int| 0 <= level < i ==> self.lowest(level) >= 64,
            decreases LEVEL - i,
        {
            proof {
                self.lemma_lowest(i as int);
                assert(CUTOFF * i < 64) by (nonlinear_arith)
                    requires
                        i < LEVEL,
                        CUTOFF * LEVEL <= 63,
                ;
                assert(CUTOFF * (i + 1) < 64) by (nonlinear_arith)
                    requires
                        i < LEVEL,
                        CUTOFF * LEVEL <= 63,
                ;
            }
            let tail = index_of(self.elapsed as u64, CUTOFF as u64, i as u64);
            proof {
                assert forall|j: int| 0 <= j < tail && j < self.levels@[i as int].width()
                    implies #[trigger] self.levels@[i as int].bucket(j).len() == 0 by {
                    if self.bucket(i as int, j).len() > 0 {
                        let tick = self.bucket(i as int, j)[0].1;
                        lemma_index_ahead(tick as nat, self.elapsed as nat, CUTOFF as nat);
                    }
                }
            }
            match self.levels[i].next_event(tail) {
                Some(ev) => {
                    proof {
                        let first = self.bucket(i as int, ev as int)[0];
                        self.lemma_pending_contains(i as int, ev as int, first);
                        self.bucket(i as int, ev as int).to_multiset_ensures();
                        assert(self.bucket(i as int, ev as int).contains(first));
                        assert(self.pending().count(first) > 0);
                        self.lemma_starts_first(i as int, ev as int, first);
                        assert forall|x: (T, usize)|
                            #[trigger] self.pending().count(x) > 0 implies bucket_start(
                            self.elapsed as nat,
                            CUTOFF as nat,
                            i as nat,
                            ev as nat,
                        ) <= x.1 by {
                            self.lemma_starts_first(i as int, ev as int, x);
                        }
                    }
                    return Some(
                        first_tick_of(self.elapsed as u64, CUTOFF as u64, i as u64, ev as u64) as usize,
                    );
                },
                None => {},
            }
            i += 1;
        }
        proof {
            assert forall|k: int| 0 <= k < Self::buckets() implies (#[trigger] (self.row())(
                k,
            )).len() == 0 by {
                lemma_rank_joins(k, LEVEL as int, Self::width() as int);
                self.lemma_lowest(k / Self::width() as int);
                assert(self.bucket(k / Self::width() as int, k % Self::width() as int).len() == 0);
            }
            lemma_gathered_empty(self.row(), Self::buckets());
        }
        None
    }

    /// Moves what the buckets below `until` of `level` hold to the end of
    /// `fired`, lowest bucket first.
    fn drain_into(&mut self, level: usize, until: u32, fired: &mut Vec<(T, usize)>)
        requires
            old(self).wf(),
            level < LEVEL,
        ensures
            final(self).wf(),
            final(self).spec_elapsed() == old(self).spec_elapsed(),
            forall|b: int|
                0 <= b < Self::width() && b < until ==> (#[trigger] final(self).bucket(
                    level as int,
                    b,
                )).len() == 0,
            forall|l: int, b: int|
                0 <= l < LEVEL && 0 <= b < Self::width() && !(l == level && b < until)
                    ==> #[trigger] final(self).slot(l, b) == old(self).slot(l, b),
            final(fired)@.len() >= old(fired)@.len(),
            forall|k: int| 0 <= k < old(fired)@.len() ==> #[trigger] final(fired)@[k] == old(fired)@[k],
            forall|k: int|
                old(fired)@.len() <= k < final(fired)@.len() ==> {
                    let tick = (#[trigger] final(fired)@[k]).1;
                    &&& old(self).spec_elapsed() <= tick
                    &&& old(self).home_level(tick) == level
                    &&& old(self).home_index(tick) < until
                    &&& old(self).home_index(tick) < Self::width()
                },
            forall|j: int, k: int|
                old(fired)@.len() <= j <= k < final(fired)@.len() ==> old(self).home_index(
                    (#[trigger] final(fired)@[j]).1,
                ) <= old(self).home_index((#[trigger] final(fired)@[k]).1),
            final(fired)@.to_multiset().add(final(self).pending()) =~= old(fired)@.to_multiset().add(
                old(self).pending(),
            ),
    {
        let ghost before = *self;
        let ghost had = fired@;
        proof {
            Self::lemma_shape();
        }
        loop
            invariant
                self.wf(),
                before.wf(),
                level < LEVEL,
                2 <= Self::width() <= 64,
                self.spec_elapsed() == before.spec_elapsed(),
                forall|l: int, b: int|
                    0 <= l < LEVEL && 0 <= b < Self::width() && !(l == level && b < until)
                        ==> #[trigger] self.slot(l, b) == before.slot(l, b),
                fired@.len() >= had.len(),
                forall|k: int| 0 <= k < had.len() ==> #[trigger] fired@[k] == had[k],
                forall|k: int|
                    had.len() <= k < fired@.len() ==> {
                        let tick = (#[trigger] fired@[k]).1;
                        &&& before.spec_elapsed() <= tick
                        &&& before.home_level(tick) == level
                        &&& before.home_index(tick) < until
                        &&& before.home_index(tick) < Self::width()
                        &&& before.home_index(tick) <= self.lowest(level as int)
                    },
                forall|j: int, k: int|
                    had.len() <= j <= k < fired@.len() ==> before.home_index(
                        (#[trigger] fired@[j]).1,
                    ) <= before.home_index((#[trigger] fired@[k]).1),
                fired@.to_multiset().add(self.pending()) =~= had.to_multiset().add(
                    before.pending(),
                ),
            ensures
                self.lowest(level as int) >= 64 || self.lowest(level as int) >= until,
            decreases 64 - self.lowest(level as int), self.bucket(
                level as int,
                self.lowest(level as int) as int,
            ).len(),
        {
            let ghost prior = *self;
            let ghost sofar = fired@;
            proof {
                self.lemma_lowest(level as int);
            }
            match self.levels[level].drain_next(until) {
                Some(item) => {
                    fired.push(item);
                    proof {
                        let at = prior.lowest(level as int) as int;
                        let was = prior.bucket(level as int, at);
                        assert(was[was.len() - 1] == item);
                        assert(was =~= self.bucket(level as int, at).push(item));
                        assert forall|l: int, b: int|
                            0 <= l < LEVEL && 0 <= b < Self::width() && !(l == level && b == at)
                            implies #[trigger] self.slot(l, b) == prior.slot(l, b) by {}
                        assert forall|l: int, b: int|
                            0 <= l < LEVEL && 0 <= b < Self::width() && !(l == level && b == at)
                            implies #[trigger] self.bucket(l, b) == prior.bucket(l, b) by {
                            assert(self.slot(l, b) == prior.slot(l, b));
                        }
                        assert(self.placed()) by {
                            assert forall|l: int, b: int, k: int|
                                0 <= l < LEVEL && 0 <= b < Self::width() && 0 <= k < self.bucket(
                                    l,
                                    b,
                                ).len() implies {
                                let t = (#[trigger] self.bucket(l, b)[k]).1;
                                &&& self.spec_elapsed() <= t < Self::range()
                                &&& self.home_level(t) == l
                                &&& self.home_index(t) == b
                            } by {
                                assert(self.bucket(l, b)[k] == prior.bucket(l, b)[k]);
                            }
                        }
                        self.lemma_lowest(level as int);
                        let now = self.lowest(level as int) as int;
                        if now < at {
                            assert(self.bucket(level as int, now) == prior.bucket(level as int, now));
                        }
                        prior.lemma_bucket_changed(self, level as int, at);
                        self.bucket(level as int, at).to_multiset_ensures();
                        sofar.to_multiset_ensures();
                        let kept = self.bucket(level as int, at).to_multiset();
                        assert forall|x: (T, usize)|
                            fired@.to_multiset().add(self.pending()).count(x) == had.to_multiset().add(
                                before.pending(),
                            ).count(x) by {
                            assert(self.pending().add(was.to_multiset()).count(x)
                                == prior.pending().add(kept).count(x));
                            assert(sofar.to_multiset().add(prior.pending()).count(x)
                                == had.to_multiset().add(before.pending()).count(x));
                        }
                        assert(fired@[fired@.len() - 1] == item);
                        assert(forall|k: int| 0 <= k < sofar.len() ==> fired@[k] == sofar[k]);
                    }
                },
                None => {
                    proof {
                        assert(self.levels@ =~= prior.levels@);
                        prior.lemma_same_levels(self);
                    }
                    break ;
                },
            }
        }
        proof {
            self.lemma_lowest(level as int);
        }
    }

    /// Empties the bucket `from`, which the elapsed time has just entered:
    /// what is due goes to the end of `fired`, the rest is scheduled anew and
    /// settles below `top`.
    fn cascade(&mut self, from: S, Ghost(top): Ghost<int>, fired: &mut Vec<(T, usize)>)
        requires
            old(self).wf(),
            from.inv(),
            0 <= top < LEVEL,
            forall|k: int|
                0 <= k < from.items().len() ==> {
                    let tick = (#[trigger] from.items()[k]).1;
                    &&& tick < Self::range()
                    &&& tick > old(self).spec_elapsed() ==> old(self).home_level(tick) < top
                },
            forall|l: int, b: int|
                0 <= l < top && 0 <= b < Self::width() ==> (#[trigger] old(self).bucket(l, b)).len()
                    == 0,
        ensures
            final(self).wf(),
            final(self).spec_elapsed() == old(self).spec_elapsed(),
            forall|l: int, b: int|
                top <= l < LEVEL && 0 <= b < Self::width() ==> #[trigger] final(self).slot(l, b)
                    == old(self).slot(l, b),
            forall|l: int, b: int, k: int|
                0 <= l < top && 0 <= b < Self::width() && 0 <= k < final(self).bucket(l, b).len()
                    ==> (#[trigger] final(self).bucket(l, b)[k]).1 > old(self).spec_elapsed(),
            final(fired)@.len() >= old(fired)@.len(),
            forall|k: int| 0 <= k < old(fired)@.len() ==> #[trigger] final(fired)@[k] == old(fired)@[k],
            forall|k: int|
                old(fired)@.len() <= k < final(fired)@.len() ==> (#[trigger] final(fired)@[k]).1
                    <= old(self).spec_elapsed() && from.items().contains(final(fired)@[k]),
            final(fired)@.to_multiset().add(final(self).pending()) =~= old(fired)@.to_multiset().add(
                old(self).pending(),
            ).add(from.items().to_multiset()),
    {
        let ghost before = *self;
        let ghost had = fired@;
        let mut cascading = from;
        proof {
            Self::lemma_shape();
        }
        loop
            invariant
                self.wf(),
                before.wf(),
                from.inv(),
                cascading.inv(),
                0 <= top < LEVEL,
                2 <= Self::width() <= 64,
                self.spec_elapsed() == before.spec_elapsed(),
                cascading.items().len() <= from.items().len(),
                forall|k: int|
                    0 <= k < cascading.items().len() ==> #[trigger] cascading.items()[k]
                        == from.items()[k],
                forall|k: int|
                    0 <= k < from.items().len() ==> {
                        let tick = (#[trigger] from.items()[k]).1;
                        &&& tick < Self::range()
                        &&& tick > before.spec_elapsed() ==> before.home_level(tick) < top
                    },
                forall|l: int, b: int|
                    0 <= l < top && 0 <= b < Self::width() ==> (#[trigger] self.bucket(l, b)).len()
                        + cascading.items().len() <= from.items().len(),
                forall|l: int, b: int|
                    top <= l < LEVEL && 0 <= b < Self::width() ==> #[trigger] self.slot(l, b)
                        == before.slot(l, b),
                forall|l: int, b: int, k: int|
                    0 <= l < top && 0 <= b < Self::width() && 0 <= k < self.bucket(l, b).len() ==> (
                    #[trigger] self.bucket(l, b)[k]).1 > before.spec_elapsed(),
                fired@.len() >= had.len(),
                forall|k: int| 0 <= k < had.len() ==> #[trigger] fired@[k] == had[k],
                forall|k: int|
                    had.len() <= k < fired@.len() ==> (#[trigger] fired@[k]).1
                        <= before.spec_elapsed() && from.items().contains(fired@[k]),
                fired@.to_multiset().add(self.pending()).add(cascading.items().to_multiset())
                    =~= had.to_multiset().add(before.pending()).add(from.items().to_multiset()),
            ensures
                cascading.items().len() == 0,
            decreases cascading.items().len(),
        {
            let ghost prior = *self;
            let ghost sofar = fired@;
            let ghost left = cascading.items();
            match cascading.pop() {
                Some((item, ts)) => {
                    proof {
                        assert(left[left.len() - 1] == (item, ts));
                        assert(from.items()[left.len() - 1] == (item, ts));
                        assert(left =~= cascading.items().push((item, ts)));
                        cascading.items().to_multiset_ensures();
                        sofar.to_multiset_ensures();
                    }
                    if ts <= self.elapsed {
                        fired.push((item, ts));
                        proof {
                            assert forall|x: (T, usize)|
                                fired@.to_multiset().add(self.pending()).add(
                                    cascading.items().to_multiset(),
                                ).count(x) == had.to_multiset().add(before.pending()).add(
                                    from.items().to_multiset(),
                                ).count(x) by {
                                assert(sofar.to_multiset().add(prior.pending()).add(
                                    left.to_multiset(),
                                ).count(x) == had.to_multiset().add(before.pending()).add(
                                    from.items().to_multiset(),
                                ).count(x));
                            }
                            assert(fired@[fired@.len() - 1] == (item, ts));
                            assert(forall|k: int| 0 <= k < sofar.len() ==> fired@[k] == sofar[k]);
                        }
                    } else {
                        proof {
                            let l = prior.home_level(ts);
                            let b = prior.home_index(ts);
                            lemma_prefix_step(ts as nat, CUTOFF as nat, l as nat);
                            prior.lemma_wf();
                            assert(prior.bucket(l, b).len() + left.len() <= from.items().len());
                            prior.slot(l, b).lemma_room_below(&from);
                        }
                        let settled = self.schedule(ts, item);
                        assert(settled is Ok);
                        proof {
                            let l = prior.home_level(ts);
                            let b = prior.home_index(ts);
                            lemma_one_more(prior.bucket(l, b), self.bucket(l, b), (item, ts));
                            assert forall|l2: int, b2: int|
                                0 <= l2 < top && 0 <= b2 < Self::width() implies (
                            #[trigger] self.bucket(l2, b2)).len() + cascading.items().len()
                                <= from.items().len() by {
                                assert(prior.bucket(l2, b2).len() + left.len() <= from.items().len());
                                if !(l2 == l && b2 == b) {
                                    assert(self.slot(l2, b2) == prior.slot(l2, b2));
                                }
                            }
                            assert forall|l2: int, b2: int|
                                top <= l2 < LEVEL && 0 <= b2 < Self::width() implies #[trigger] self.slot(
                                l2,
                                b2,
                            ) == before.slot(l2, b2) by {
                                assert(self.slot(l2, b2) == prior.slot(l2, b2));
                            }
                            assert forall|l2: int, b2: int, k: int|
                                0 <= l2 < top && 0 <= b2 < Self::width() && 0 <= k < self.bucket(
                                    l2,
                                    b2,
                                ).len() implies (#[trigger] self.bucket(l2, b2)[k]).1
                                > before.spec_elapsed() by {
                                if l2 == l && b2 == b {
                                    let was = prior.bucket(l, b);
                                    if self.bucket(l, b) == was.push((item, ts)) {
                                        if k < was.len() {
                                            assert(self.bucket(l, b)[k] == was[k]);
                                        }
                                    } else {
                                        if k > 0 {
                                            assert(self.bucket(l, b)[k] == was[k - 1]);
                                        }
                                    }
                                } else {
                                    assert(self.slot(l2, b2) == prior.slot(l2, b2));
                                    assert(self.bucket(l2, b2)[k] == prior.bucket(l2, b2)[k]);
                                }
                            }
                            assert forall|x: (T, usize)|
                                fired@.to_multiset().add(self.pending()).add(
                                    cascading.items().to_multiset(),
                                ).count(x) == had.to_multiset().add(before.pending()).add(
                                    from.items().to_multiset(),
                                ).count(x) by {
                                assert(sofar.to_multiset().add(prior.pending()).add(
                                    left.to_multiset(),
                                ).count(x) == had.to_multiset().add(before.pending()).add(
                                    from.items().to_multiset(),
                                ).count(x));
                                assert(self.pending().count(x) == prior.pending().insert(
                                    (item, ts),
                                ).count(x));
                            }
                        }
                    }
                },
                None => {
                    break ;
                },
            }
        }
        proof {
            assert(cascading.items().to_multiset() =~= Multiset::empty()) by {
                cascading.items().to_multiset_ensures();
                assert(cascading.items() =~= Seq::empty());
            }
        }
    }

    /// Advances the elapsed time to `target` and hands out, in the order of
    /// delivery, every item that is due by then. Advancing by nothing
    /// delivers nothing.
    ///
    /// Items leave bucket by bucket in the order of `rank_of`, so a later
    /// item never leaves before an earlier one unless both waited in one
    /// bucket.
    pub fn advance(&mut self, target: usize) -> (fired: Vec<(T, usize)>)
        requires
            old(self).wf(),
            old(self).spec_elapsed() <= target < Self::range(),
        ensures
            final(self).wf(),
            final(self).spec_elapsed() == target,
            target == old(self).spec_elapsed() ==> fired@.len() == 0 && final(self).pending()
                =~= old(self).pending(),
            target > old(self).spec_elapsed() ==> fired@.to_multiset() =~= old(
                self,
            ).pending().filter(|x: (T, usize)| x.1 <= target),
            target > old(self).spec_elapsed() ==> final(self).pending() =~= old(
                self,
            ).pending().filter(|x: (T, usize)| x.1 > target),
            forall|j: int, k: int|
                0 <= j <= k < fired@.len() ==> old(self).rank(#[trigger] fired@[j]) <= old(
                    self,
                ).rank(#[trigger] fired@[k]),
    {
        let mut fired: Vec<(T, usize)> = Vec::new();
        if self.elapsed == target {
            return fired;
        }
        let ghost before = *self;
        proof {
            Self::lemma_shape();
            lemma_level_bound(target as nat, self.elapsed as nat, CUTOFF as nat, LEVEL as nat);
            assert(fired@.to_multiset() =~= Multiset::empty()) by {
                fired@.to_multiset_ensures();
            }
        }
        let (top, to_idx) = locate(self.elapsed as u64, target as u64, CUTOFF as u64);
        let width = width_of(CUTOFF as u64) as u32;
        proof {
            lemma_prefix_step(target as nat, CUTOFF as nat, top as nat);
        }
        let mut i: usize = 0;
        while i < top
            invariant
                self.wf(),
                before.wf(),
                i <= top < LEVEL,
                width == Self::width(),
                2 <= Self::width() <= 64,
                self.spec_elapsed() == before.spec_elapsed(),
                forall|l: int, b: int|
                    0 <= l < i && 0 <= b < Self::width() ==> (#[trigger] self.bucket(l, b)).len()
                        == 0,
                forall|l: int, b: int|
                    i <= l < LEVEL && 0 <= b < Self::width() ==> #[trigger] self.slot(l, b)
                        == before.slot(l, b),
                forall|k: int|
                    0 <= k < fired@.len() ==> {
                        let tick = (#[trigger] fired@[k]).1;
                        &&& before.spec_elapsed() <= tick
                        &&& before.home_level(tick) < i
                        &&& before.home_index(tick) < Self::width()
                    },
                forall|j: int, k: int|
                    0 <= j <= k < fired@.len() ==> before.rank(#[trigger] fired@[j]) <= before.rank(
                        #[trigger] fired@[k],
                    ),
                fired@.to_multiset().add(self.pending()) =~= before.pending(),
            decreases top - i,
        {
            let ghost prior = *self;
            let ghost sofar = fired@;
            self.drain_into(i, width, &mut fired);
            proof {
                assert forall|l: int, b: int| 0 <= l < i + 1 && 0 <= b < Self::width() implies (
                #[trigger] self.bucket(l, b)).len() == 0 by {
                    if l < i {
                        assert(self.slot(l, b) == prior.slot(l, b));
                        assert(prior.bucket(l, b).len() == 0);
                    }
                }
                assert forall|l: int, b: int|
                    i + 1 <= l < LEVEL && 0 <= b < Self::width() implies #[trigger] self.slot(l, b)
                    == before.slot(l, b) by {
                    assert(self.slot(l, b) == prior.slot(l, b));
                }
                assert forall|j: int, k: int| 0 <= j <= k < fired@.len() implies before.rank(
                    #[trigger] fired@[j],
                ) <= before.rank(#[trigger] fired@[k]) by {
                    let tj = fired@[j].1;
                    let tk = fired@[k].1;
                    lemma_rank_parts(
                        before.home_level(tj) as nat,
                        before.home_index(tj) as nat,
                        before.home_level(tk) as nat,
                        before.home_index(tk) as nat,
                        Self::width(),
                    );
                    if k < sofar.len() {
                        assert(fired@[j] == sofar[j] && fired@[k] == sofar[k]);
                    } else if j < sofar.len() {
                        assert(fired@[j] == sofar[j]);
                    }
                }
                assert forall|x: (T, usize)|
                    fired@.to_multiset().add(self.pending()).count(x) == before.pending().count(
                        x,
                    ) by {
                    assert(fired@.to_multiset().add(self.pending()).count(x)
                        == sofar.to_multiset().add(prior.pending()).count(x));
                    assert(sofar.to_multiset().add(prior.pending()).count(x)
                        == before.pending().count(x));
                }
            }
            i += 1;
        }
        let ghost lower = *self;
        let ghost early = fired@;
        self.drain_into(top, to_idx, &mut fired);
        let ghost drained = *self;
        let ghost passed = fired@;
        proof {
            assert forall|l: int, b: int|
                0 <= l < LEVEL && 0 <= b < Self::width() && (l < top || (l == top && b < to_idx))
                implies (#[trigger] drained.bucket(l, b)).len() == 0 by {
                if l < top {
                    assert(drained.slot(l, b) == lower.slot(l, b));
                    assert(lower.bucket(l, b).len() == 0);
                }
            }
            assert forall|l: int, b: int|
                0 <= l < LEVEL && 0 <= b < Self::width() && (l > top || (l == top && b >= to_idx))
                implies #[trigger] drained.slot(l, b) == before.slot(l, b) by {
                assert(drained.slot(l, b) == lower.slot(l, b));
            }
            assert forall|k: int| 0 <= k < passed.len() implies {
                let tick = (#[trigger] passed[k]).1;
                &&& before.rank(passed[k]) < before.rank((passed[k].0, target))
                &&& tick < target
            } by {
                let tick = passed[k].1;
                if k < early.len() {
                    assert(passed[k] == early[k]);
                }
                lemma_rank_parts(
                    before.home_level(tick) as nat,
                    before.home_index(tick) as nat,
                    top as nat,
                    to_idx as nat,
                    Self::width(),
                );
                if tick >= target {
                    lemma_rank_monotone(
                        target as nat,
                        tick as nat,
                        before.elapsed as nat,
                        CUTOFF as nat,
                    );
                }
            }
            assert forall|j: int, k: int| 0 <= j <= k < passed.len() implies before.rank(
                #[trigger] passed[j],
            ) <= before.rank(#[trigger] passed[k]) by {
                let tj = passed[j].1;
                let tk = passed[k].1;
                lemma_rank_parts(
                    before.home_level(tj) as nat,
                    before.home_index(tj) as nat,
                    before.home_level(tk) as nat,
                    before.home_index(tk) as nat,
                    Self::width(),
                );
                if k < early.len() {
                    assert(passed[j] == early[j] && passed[k] == early[k]);
                } else if j < early.len() {
                    assert(passed[j] == early[j]);
                }
            }
            assert forall|x: (T, usize)|
                passed.to_multiset().add(drained.pending()).count(x) == before.pending().count(
                    x,
                ) by {
                assert(passed.to_multiset().add(drained.pending()).count(x)
                    == early.to_multiset().add(lower.pending()).count(x));
                assert(early.to_multiset().add(lower.pending()).count(x) == before.pending().count(
                    x,
                ));
            }
        }
        let fresh = S::default();
        proof {
            S::lemma_default_is_empty(fresh);
        }
        let cascading = self.levels[top].replace_slot(to_idx, fresh);
        self.elapsed = target;
        proof {
            let moved = drained.bucket(top as int, to_idx as int);
            assert(cascading == drained.slot(top as int, to_idx as int));
            assert forall|l: int, b: int|
                0 <= l < LEVEL && 0 <= b < Self::width() && !(l == top && b == to_idx)
                implies #[trigger] self.slot(l, b) == drained.slot(l, b) by {}
            assert forall|l: int, b: int|
                0 <= l < LEVEL && 0 <= b < Self::width() && !(l == top && b == to_idx)
                implies #[trigger] self.bucket(l, b) == drained.bucket(l, b) by {
                assert(self.slot(l, b) == drained.slot(l, b));
            }
            assert(self.bucket(top as int, to_idx as int).len() == 0);
            assert forall|l: int, b: int, k: int|
                0 <= l < LEVEL && 0 <= b < Self::width() && 0 <= k < self.bucket(l, b).len() implies {
                let t = (#[trigger] self.bucket(l, b)[k]).1;
                &&& target < t < Self::range()
                &&& self.home_level(t) == l
                &&& self.home_index(t) == b
            } by {
                assert(self.bucket(l, b) == drained.bucket(l, b));
                assert(drained.bucket(l, b).len() > 0);
                let t = drained.bucket(l, b)[k].1;
                lemma_rank_parts(
                    top as nat,
                    to_idx as nat,
                    l as nat,
                    b as nat,
                    Self::width(),
                );
                lemma_level_kept(t as nat, before.elapsed as nat, target as nat, CUTOFF as nat);
            }
            assert(self.placed());
            assert(self.wf());
            drained.lemma_wf();
            assert forall|k: int| 0 <= k < cascading.items().len() implies {
                let tick = (#[trigger] cascading.items()[k]).1;
                &&& tick < Self::range()
                &&& tick > self.spec_elapsed() ==> self.home_level(tick) < top
            } by {
                let tick = moved[k].1;
                if tick > target {
                    lemma_rank_parts(
                        top as nat,
                        to_idx as nat,
                        drained.home_level(tick) as nat,
                        drained.home_index(tick) as nat,
                        Self::width(),
                    );
                    lemma_level_drops(
                        tick as nat,
                        before.elapsed as nat,
                        target as nat,
                        CUTOFF as nat,
                    );
                }
            }
            drained.lemma_bucket_changed(self, top as int, to_idx as int);
            assert(self.bucket(top as int, to_idx as int).to_multiset() =~= Multiset::empty()) by {
                self.bucket(top as int, to_idx as int).to_multiset_ensures();
                assert(self.bucket(top as int, to_idx as int) =~= Seq::empty());
            }
        }
        let ghost settled = *self;
        self.cascade(cascading, Ghost(top as int), &mut fired);
        proof {
            let moved = cascading.items();
            assert forall|l: int, b: int, k: int|
                0 <= l < LEVEL && 0 <= b < Self::width() && 0 <= k < self.bucket(l, b).len() implies (
            #[trigger] self.bucket(l, b)[k]).1 > target by {
                if l >= top {
                    assert(self.slot(l, b) == settled.slot(l, b));
                    assert(self.bucket(l, b)[k] == settled.bucket(l, b)[k]);
                }
            }
            assert forall|k: int| 0 <= k < fired@.len() implies {
                &&& (#[trigger] fired@[k]).1 <= target
                &&& before.rank(fired@[k]) <= before.rank((fired@[k].0, target))
            } by {
                if k < passed.len() {
                    assert(fired@[k] == passed[k]);
                } else {
                    let at = choose|at: int| 0 <= at < moved.len() && moved[at] == fired@[k];
                    assert(drained.bucket(top as int, to_idx as int)[at] == fired@[k]);
                }
            }
            assert forall|j: int, k: int| 0 <= j <= k < fired@.len() implies before.rank(
                #[trigger] fired@[j],
            ) <= before.rank(#[trigger] fired@[k]) by {
                if k < passed.len() {
                    assert(fired@[j] == passed[j] && fired@[k] == passed[k]);
                } else {
                    let at = choose|at: int| 0 <= at < moved.len() && moved[at] == fired@[k];
                    assert(drained.bucket(top as int, to_idx as int)[at] == fired@[k]);
                }
            }
            let due = |x: (T, usize)| x.1 <= target;
            let late = |x: (T, usize)| x.1 > target;
            assert forall|x: (T, usize)|
                #![trigger fired@.to_multiset().count(x)]
                #![trigger self.pending().count(x)]
                {
                    &&& fired@.to_multiset().count(x) == before.pending().filter(due).count(x)
                    &&& self.pending().count(x) == before.pending().filter(late).count(x)
                } by {
                assert(fired@.to_multiset().add(self.pending()).count(x)
                    == passed.to_multiset().add(settled.pending()).add(moved.to_multiset()).count(
                    x,
                ));
                assert(settled.pending().add(moved.to_multiset()).count(x) == drained.pending().add(
                    settled.bucket(top as int, to_idx as int).to_multiset(),
                ).count(x));
                assert(passed.to_multiset().add(drained.pending()).count(x)
                    == before.pending().count(x));
                if x.1 <= target {
                    if self.pending().count(x) > 0 {
                        self.lemma_pending_member(x);
                        let (l, b) = choose|l: int, b: int|
                            0 <= l < LEVEL && 0 <= b < Self::width() && (#[trigger] self.bucket(
                                l,
                                b,
                            )).contains(x);
                        let k = choose|k: int|
                            0 <= k < self.bucket(l, b).len() && self.bucket(l, b)[k] == x;
                        assert(self.bucket(l, b)[k].1 > target);
                    }
                } else {
                    if fired@.to_multiset().count(x) > 0 {
                        fired@.to_multiset_ensures();
                        let k = choose|k: int| 0 <= k < fired@.len() && fired@[k] == x;
                        assert(fired@[k].1 <= target);
                    }
                }
            }
        }
        fired
    }

    /// Advances the elapsed time to `moment` and calls `f`, in the order of
    /// delivery, with the payload and the tick of every item that is due by
    /// then. The items are those that `advance` hands out.
    pub fn fast_forward<F: FnMut(T, usize)>(&mut self, moment: usize, mut f: F)
        requires
            old(self).wf(),
            old(self).spec_elapsed() <= moment < Self::range(),
            forall|payload: T, tick: usize| call_requires(f, (payload, tick)),
        ensures
            final(self).wf(),
            final(self).spec_elapsed() == moment,
            moment == old(self).spec_elapsed() ==> final(self).pending() =~= old(self).pending(),
            moment > old(self).spec_elapsed() ==> final(self).pending() =~= old(
                self,
            ).pending().filter(|x: (T, usize)| x.1 > moment),
    {
        let fired = self.advance(moment);
        for item in fired
            invariant
                forall|payload: T, tick: usize| call_requires(f, (payload, tick)),
        {
            f(item.0, item.1);
        }
    }
}

/// A wheel of eight levels of 64 buckets that hold at most `N` items each.
pub type BoundedWheel<T, const N: usize> = Wheel<T, BoundedSlot<(T, usize), N>, 8, 6>;

/// A wheel of eight levels of 64 buckets without a bound.
pub type VecDequeWheel<T> = Wheel<T, VecDeque<(T, usize)>, 8, 6>;

/// A bucket that has taken one item at either end holds that item more.
proof fn lemma_one_more<A>(had: Seq<A>, has: Seq<A>, x: A)
    requires
        has == with_item(had, x, true) || has == with_item(had, x, false),
    ensures
        has.to_multiset() =~= had.to_multiset().insert(x),
        has.len() == had.len() + 1,
{
    had.to_multiset_ensures();
    if has != had.push(x) {
        vstd::seq_lib::lemma_multiset_commutative(seq![x], had);
        assert(seq![x] =~= Seq::<A>::empty().push(x));
        Seq::<A>::empty().to_multiset_ensures();
    }
}

} // verus!
