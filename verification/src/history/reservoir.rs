//! Bounded sampling: of the samples offered, those with the largest draws
//! stay.

use crate::history::record;
use crate::history::record::{CompactSample, SampleView};
use vstd::prelude::*;

verus! {

/// A sample and the random number drawn for it.
pub struct Drawn {
    pub sample: CompactSample,
    pub draw: u64,
}

/// What a drawn sample holds.
#[verifier::ext_equal]
pub struct DrawnView {
    pub sample: SampleView,
    pub draw: u64,
}

impl View for Drawn {
    type V = DrawnView;

    open spec fn view(&self) -> DrawnView {
        DrawnView { sample: self.sample@, draw: self.draw }
    }
}

/// Whether `i` is the first of the smallest draws.
pub open spec fn is_least(s: Seq<DrawnView>, i: int) -> bool {
    &&& 0 <= i < s.len()
    &&& forall|j: int| 0 <= j < s.len() ==> s[i].draw <= (#[trigger] s[j]).draw
    &&& forall|j: int| 0 <= j < i ==> s[i].draw < (#[trigger] s[j]).draw
}

/// The samples after one more was offered: it is appended, and where there
/// are then more than `capacity`, the first with the smallest draw leaves.
pub open spec fn offered(s: Seq<DrawnView>, x: DrawnView, capacity: nat) -> Seq<DrawnView> {
    let grown = s.push(x);
    if grown.len() > capacity {
        grown.remove(choose|i: int| is_least(grown, i))
    } else {
        grown
    }
}

/// The samples that stay when all of `s` are offered in turn.
pub open spec fn sampled(s: Seq<DrawnView>, capacity: nat) -> Seq<DrawnView>
    decreases s.len(),
{
    if s.len() == 0 {
        s
    } else {
        offered(sampled(s.drop_last(), capacity), s.last(), capacity)
    }
}

/// Each sample with its draw; a sample without one has the draw 0.
pub open spec fn with_draws(samples: Seq<SampleView>, draws: Seq<u64>) -> Seq<DrawnView> {
    samples.map(
        |i: int, s: SampleView|
            DrawnView {
                sample: s,
                draw: if i < draws.len() {
                    draws[i]
                } else {
                    0
                },
            },
    )
}

/// The samples without their draws.
pub open spec fn without_draws(s: Seq<DrawnView>) -> Seq<SampleView> {
    s.map_values(|d: DrawnView| d.sample)
}

/// The samples that stay of `samples` and then `next`, offered in turn to a
/// reservoir of the given capacity.
pub open spec fn resampled(
    samples: Seq<SampleView>,
    next: SampleView,
    draws: Seq<u64>,
    capacity: nat,
) -> Seq<SampleView> {
    without_draws(sampled(with_draws(samples.push(next), draws), capacity))
}

/// Views of drawn samples, in order.
pub open spec fn drawn_views(s: Seq<Drawn>) -> Seq<DrawnView> {
    s.map_values(|d: Drawn| d@)
}

/// Samples of bounded number.
pub struct WeightedReservoir {
    capacity: usize,
    items: Vec<Drawn>,
}

impl WeightedReservoir {
    /// The samples held, with their draws.
    pub closed spec fn held(&self) -> Seq<DrawnView> {
        drawn_views(self.items@)
    }

    /// How many samples are held at most.
    pub closed spec fn limit(&self) -> nat {
        self.capacity as nat
    }

    /// A reservoir that holds at most `capacity` samples.
    pub fn with_capacity(capacity: usize) -> (r: Self)
        ensures
            r.held() == Seq::<DrawnView>::empty(),
            r.limit() == capacity,
    {
        let r = WeightedReservoir { capacity, items: Vec::new() };
        proof {
            assert(r.held() =~= Seq::<DrawnView>::empty());
        }
        r
    }

    /// Offers a sample with the random number drawn for it.
    pub fn insert(&mut self, sample: CompactSample, draw: u64)
        ensures
            final(self).held() == offered(
                old(self).held(),
                (DrawnView { sample: sample@, draw }),
                old(self).limit(),
            ),
            final(self).limit() == old(self).limit(),
    {
        let ghost before = self.held();
        let ghost x = DrawnView { sample: sample@, draw };
        self.items.push(Drawn { sample, draw });
        let ghost grown = before.push(x);
        proof {
            assert(self.held() =~= grown);
        }
        if self.items.len() > self.capacity {
            let mut least: usize = 0;
            let mut i: usize = 1;
            while i < self.items.len()
                invariant
                    0 <= least < i <= self.items@.len(),
                    grown == drawn_views(self.items@),
                    is_least(grown.take(i as int), least as int),
                decreases self.items@.len() - i,
            {
                proof {
                    assert(grown[i as int] == self.items@[i as int]@);
                    assert(grown[least as int] == self.items@[least as int]@);
                    assert(forall|j: int|
                        0 <= j < i ==> grown.take(i + 1)[j] == grown.take(i as int)[j]);
                    assert(grown.take(i + 1)[i as int] == grown[i as int]);
                }
                if self.items[i].draw < self.items[least].draw {
                    least = i;
                }
                i += 1;
            }
            proof {
                assert(grown.take(i as int) =~= grown);
                let k = choose|k: int| is_least(grown, k);
                assert(is_least(grown, least as int));
                assert(k == least);
            }
            let _ = self.items.remove(least);
            proof {
                assert(self.held() =~= grown.remove(least as int));
            }
        }
    }

    /// The samples held, in the order in which they were offered.
    pub fn samples(&self) -> (r: Vec<CompactSample>)
        ensures
            record::sample_views(r@) == without_draws(self.held()),
    {
        let mut out: Vec<CompactSample> = Vec::new();
        let mut i: usize = 0;
        while i < self.items.len()
            invariant
                0 <= i <= self.items@.len(),
                out@.len() == i,
                forall|j: int| 0 <= j < i ==> (#[trigger] out@[j])@ == self.items@[j].sample@,
            decreases self.items@.len() - i,
        {
            out.push(self.items[i].sample.clone());
            i += 1;
        }
        proof {
            assert(record::sample_views(out@) =~= without_draws(self.held()));
        }
        out
    }
}

/// Offers the samples and then `next` in turn to a reservoir of the given
/// capacity, the `i`-th with the `i`-th draw, and returns those that stay.
pub fn resample(
    samples: &Vec<CompactSample>,
    next: CompactSample,
    draws: &[u64],
    capacity: usize,
) -> (r: Vec<CompactSample>)
    ensures
        record::sample_views(r@) == resampled(
            record::sample_views(samples@),
            next@,
            draws@,
            capacity as nat,
        ),
{
    let ghost all = with_draws(record::sample_views(samples@).push(next@), draws@);
    let mut reservoir = WeightedReservoir::with_capacity(capacity);
    let mut i: usize = 0;
    proof {
        assert(sampled(all.take(0), capacity as nat) =~= Seq::<DrawnView>::empty());
    }
    while i < samples.len()
        invariant
            0 <= i <= samples@.len(),
            all == with_draws(record::sample_views(samples@).push(next@), draws@),
            reservoir.limit() == capacity,
            reservoir.held() == sampled(all.take(i as int), capacity as nat),
        decreases samples@.len() - i,
    {
        let draw: u64 = if i < draws.len() {
            draws[i]
        } else {
            0
        };
        proof {
            assert(all.take(i + 1).drop_last() =~= all.take(i as int));
            assert(all.take(i + 1).last() == DrawnView { sample: samples@[i as int]@, draw });
        }
        reservoir.insert(samples[i].clone(), draw);
        i += 1;
    }
    let draw: u64 = if i < draws.len() {
        draws[i]
    } else {
        0
    };
    proof {
        assert(all.drop_last() =~= all.take(i as int));
        assert(all.last() == DrawnView { sample: next@, draw });
    }
    reservoir.insert(next, draw);
    reservoir.samples()
}

proof fn lemma_least_exists(s: Seq<DrawnView>) -> (i: int)
    requires
        s.len() > 0,
    ensures
        is_least(s, i),
    decreases s.len(),
{
    let front = s.drop_last();
    let n = s.len() - 1;
    if n == 0 {
        0
    } else {
        let i = lemma_least_exists(front);
        assert(forall|j: int| 0 <= j < n ==> s[j] == front[j]);
        if s[n].draw < s[i].draw {
            n
        } else {
            i
        }
    }
}

proof fn lemma_sampled_len(s: Seq<DrawnView>, capacity: nat)
    ensures
        sampled(s, capacity).len() == if s.len() < capacity {
            s.len()
        } else {
            capacity
        },
    decreases s.len(),
{
    if s.len() > 0 {
        lemma_sampled_len(s.drop_last(), capacity);
        let grown = sampled(s.drop_last(), capacity).push(s.last());
        if grown.len() > capacity {
            let i = lemma_least_exists(grown);
            assert(is_least(grown, choose|i: int| is_least(grown, i)));
        }
    }
}

/// A reservoir never holds more than its capacity, and fills up to it.
pub proof fn reservoir_is_bounded(
    samples: Seq<SampleView>,
    next: SampleView,
    draws: Seq<u64>,
    capacity: nat,
)
    ensures
        resampled(samples, next, draws, capacity).len() == if samples.len() < capacity {
            samples.len() + 1
        } else {
            capacity
        },
{
    lemma_sampled_len(with_draws(samples.push(next), draws), capacity);
}

proof fn lemma_sampled_keeps_all(s: Seq<DrawnView>, capacity: nat)
    requires
        s.len() <= capacity,
    ensures
        sampled(s, capacity) == s,
    decreases s.len(),
{
    if s.len() > 0 {
        lemma_sampled_keeps_all(s.drop_last(), capacity);
        assert(s.drop_last().push(s.last()) =~= s);
    }
}

/// While there is room, every sample is kept, whatever is drawn.
pub proof fn reservoir_with_room_keeps_every_sample(
    samples: Seq<SampleView>,
    next: SampleView,
    draws: Seq<u64>,
    capacity: nat,
)
    requires
        samples.len() < capacity,
    ensures
        resampled(samples, next, draws, capacity) == samples.push(next),
{
    let all = with_draws(samples.push(next), draws);
    lemma_sampled_keeps_all(all, capacity);
    assert(without_draws(all) =~= samples.push(next));
}

proof fn lemma_sampled_elements(s: Seq<DrawnView>, capacity: nat, k: int)
    requires
        0 <= k < sampled(s, capacity).len(),
    ensures
        s.contains(sampled(s, capacity)[k]),
    decreases s.len(),
{
    if s.len() > 0 {
        let front = s.drop_last();
        let kept = sampled(front, capacity);
        let grown = kept.push(s.last());
        let x = sampled(s, capacity)[k];
        let at = if grown.len() > capacity {
            lemma_sampled_len(front, capacity);
            let least = lemma_least_exists(grown);
            let i = choose|i: int| is_least(grown, i);
            assert(is_least(grown, i));
            if k < i {
                k
            } else {
                k + 1
            }
        } else {
            k
        };
        assert(x == grown[at]);
        if at < kept.len() {
            lemma_sampled_elements(front, capacity, at);
            let j = choose|j: int| 0 <= j < front.len() && front[j] == x;
            assert(s[j] == x);
        } else {
            assert(s[s.len() - 1] == x);
        }
    }
}

/// A reservoir holds nothing that was not offered to it.
pub proof fn reservoir_holds_only_what_was_offered(
    samples: Seq<SampleView>,
    next: SampleView,
    draws: Seq<u64>,
    capacity: nat,
    k: int,
)
    requires
        0 <= k < resampled(samples, next, draws, capacity).len(),
    ensures
        samples.push(next).contains(resampled(samples, next, draws, capacity)[k]),
{
    let all = with_draws(samples.push(next), draws);
    lemma_sampled_elements(all, capacity, k);
    let x = sampled(all, capacity)[k];
    let j = choose|j: int| 0 <= j < all.len() && all[j] == x;
    assert(samples.push(next)[j] == x.sample);
}

/// A sample that is offered is taken in behind the others. Where they are then
/// too many, one leaves: none has a smaller draw, and none in front of it has
/// as small a one.
pub proof fn the_smallest_draw_leaves(s: Seq<DrawnView>, x: DrawnView, capacity: nat) -> (at: int)
    ensures
        s.len() < capacity ==> offered(s, x, capacity) == s.push(x),
        s.len() >= capacity ==> {
            let grown = s.push(x);
            &&& 0 <= at < grown.len()
            &&& offered(s, x, capacity) == grown.remove(at)
            &&& forall|j: int|
                0 <= j < grown.len() ==> grown[at].draw <= (#[trigger] grown[j]).draw && (j < at
                    ==> grown[at].draw < grown[j].draw)
        },
{
    let grown = s.push(x);
    let i = lemma_least_exists(grown);
    let k = choose|k: int| is_least(grown, k);
    assert(is_least(grown, k));
    k
}

/// Each sample is offered in turn with its own draw, and with 0 where there is
/// none.
pub proof fn samples_are_offered_in_turn_with_their_draws(
    samples: Seq<SampleView>,
    draws: Seq<u64>,
    s: Seq<DrawnView>,
    x: DrawnView,
    capacity: nat,
    i: int,
)
    requires
        0 <= i < samples.len(),
    ensures
        with_draws(samples, draws).len() == samples.len(),
        with_draws(samples, draws)[i].sample == samples[i],
        i < draws.len() ==> with_draws(samples, draws)[i].draw == draws[i],
        i >= draws.len() ==> with_draws(samples, draws)[i].draw == 0,
        sampled(s.push(x), capacity) == offered(sampled(s, capacity), x, capacity),
{
    assert(s.push(x).drop_last() =~= s);
}

/// Where a full reservoir is offered one more sample, one leaves it: that with
/// the smallest draw, the first one of several. A sample without a draw has the
/// draw 0.
pub proof fn a_full_reservoir_gives_up_the_smallest_draw(
    samples: Seq<SampleView>,
    next: SampleView,
    draws: Seq<u64>,
) -> (at: int)
    ensures
        ({
            let draw = |i: int|
                if i < draws.len() {
                    draws[i]
                } else {
                    0
                };
            &&& 0 <= at <= samples.len()
            &&& resampled(samples, next, draws, samples.len()) == samples.push(next).remove(at)
            &&& forall|j: int|
                0 <= j <= samples.len() ==> draw(at) <= #[trigger] draw(j) && (j < at ==> draw(at)
                    < draw(j))
        }),
{
    let n = samples.len();
    let all = with_draws(samples.push(next), draws);
    let front = all.drop_last();
    let draw = |i: int|
        if i < draws.len() {
            draws[i]
        } else {
            0
        };
    lemma_sampled_keeps_all(front, n);
    assert(front.push(all.last()) =~= all);
    let at = the_smallest_draw_leaves(front, all.last(), n);
    assert forall|j: int| 0 <= j <= n implies draw(at) <= #[trigger] draw(j) && (j < at ==> draw(at)
        < draw(j)) by {
        assert(all[j].draw == draw(j));
        assert(all[at].draw == draw(at));
    }
    assert(without_draws(all.remove(at)) =~= samples.push(next).remove(at));
    at
}

} // verus!
