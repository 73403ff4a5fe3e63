//! Recent readings for the sparklines, sampled from the snapshot.
//!
//! `History` is a ring of optional values, oldest first when read, with
//! a gap where a reading was missing. `Histories` holds one per
//! sparkline and samples them all from a snapshot.
use std::collections::VecDeque;
use vstd::arithmetic::power2::*;
use vstd::prelude::*;

use crate::control;
use crate::double::Double;
use crate::order;
use crate::state;
use crate::state::State;

verus! {

/// How often the histories are sampled, in milliseconds.
pub const SAMPLE_MS: u64 = 2000;

/// How often the histories are sampled, in seconds: 2.0, as a double's
/// bits.
pub const SAMPLE_S: u64 = 0x4000_0000_0000_0000;

/// Samples kept per history. With one every two seconds, ten minutes,
/// which is a demo session.
pub const CAPACITY: usize = 300;

/// 1e12, as a double's bits: hashes in a terahash.
pub const TERA: u64 = 0x426d_1a94_a200_0000;

/// The latest `CAPACITY` of some samples.
pub open spec fn latest(samples: Seq<Option<Double>>) -> Seq<Option<Double>> {
    if samples.len() > CAPACITY {
        samples.skip(samples.len() - CAPACITY)
    } else {
        samples
    }
}

/// A ring of the last `CAPACITY` samples.
#[derive(Debug, Clone)]
pub struct History {
    ring: VecDeque<Option<Double>>,
}

impl View for History {
    type V = Seq<Option<Double>>;

    /// The samples, oldest first.
    closed spec fn view(&self) -> Seq<Option<Double>> {
        self.ring@
    }
}

impl Default for History {
    fn default() -> (h: Self)
        ensures
            h@ == Seq::<Option<Double>>::empty(),
            h.wf(),
    {
        History { ring: VecDeque::new() }
    }
}

impl History {
    /// No more samples than are kept.
    pub open spec fn wf(self) -> bool {
        self@.len() <= CAPACITY
    }

    /// Appends a sample; the oldest goes when the ring is full.
    pub fn push(&mut self, value: Option<Double>)
        requires
            old(self).wf(),
        ensures
            final(self).wf(),
            final(self)@ == latest(old(self)@.push(value)),
    {
        if self.ring.len() == CAPACITY {
            self.ring.pop_front();
        }
        self.ring.push_back(value);
        assert(self@ =~= latest(old(self)@.push(value)));
    }

    /// Samples oldest first, gaps included.
    pub fn samples(&self) -> (samples: Vec<Option<Double>>)
        ensures
            samples@ == self@,
    {
        let mut samples: Vec<Option<Double>> = Vec::new();
        let mut i: usize = 0;
        while i < self.ring.len()
            invariant
                i <= self.ring@.len(),
                samples@ == self.ring@.take(i as int),
            decreases self.ring@.len() - i,
        {
            samples.push(self.ring[i]);
            assert(samples@ =~= self.ring@.take(i + 1));
            i = i + 1;
        }
        assert(samples@ =~= self@);
        samples
    }

    /// How many samples there are.
    pub fn len(&self) -> (n: usize)
        ensures
            n == self@.len(),
    {
        self.ring.len()
    }

    /// Whether there is no sample.
    pub fn is_empty(&self) -> (r: bool)
        ensures
            r == (self@.len() == 0),
    {
        self.ring.len() == 0
    }

    pub open spec fn span_spec(self) -> Double {
        Double::of_spec(self@.len() as int).times(Double { bits: SAMPLE_S })
    }

    /// The span the samples cover, in seconds.
    pub fn span_secs(&self) -> (s: Double)
        ensures
            s == self.span_spec(),
    {
        Double::count(self.ring.len()).times(Double { bits: SAMPLE_S })
    }
}

/// What a history holds after some samples are pushed in turn.
pub open spec fn pushed(start: Seq<Option<Double>>, values: Seq<Option<Double>>) -> Seq<
    Option<Double>,
>
    decreases values.len(),
{
    if values.len() == 0 {
        start
    } else {
        latest(pushed(start, values.drop_last()).push(values.last()))
    }
}

/// However many samples are pushed, a history holds the latest of them
/// in order.
pub proof fn lemma_keeps_the_latest_in_order(values: Seq<Option<Double>>)
    ensures
        pushed(Seq::<Option<Double>>::empty(), values) == latest(values),
    decreases values.len(),
{
    if values.len() > 0 {
        let before = values.drop_last();
        lemma_keeps_the_latest_in_order(before);
        assert(values =~= before.push(values.last()));
        assert(latest(latest(before).push(values.last())) =~= latest(values));
    } else {
        assert(latest(values) =~= Seq::<Option<Double>>::empty());
    }
}

/// One history per sparkline on the display.
#[derive(Debug, Clone)]
pub struct Histories {
    pub bath: History,
    pub inlet: History,
    pub outlet: History,
    pub hashrate_ths: History,
    pub power_w: History,
    pub chip_c: History,
}

impl Default for Histories {
    fn default() -> (h: Self)
        ensures
            h.wf(),
            h.bath@.len() == 0,
            h.inlet@.len() == 0,
            h.outlet@.len() == 0,
            h.hashrate_ths@.len() == 0,
            h.power_w@.len() == 0,
            h.chip_c@.len() == 0,
    {
        Histories {
            bath: History::default(),
            inlet: History::default(),
            outlet: History::default(),
            hashrate_ths: History::default(),
            power_w: History::default(),
            chip_c: History::default(),
        }
    }
}

/// A hash rate in terahashes per second.
pub open spec fn terahashes_spec(hashrate_hs: Option<Double>) -> Option<Double> {
    match hashrate_hs {
        Some(h) => Some(h.over(Double { bits: TERA })),
        None => None,
    }
}

/// A hash rate in terahashes per second.
pub fn terahashes(hashrate_hs: Option<Double>) -> (r: Option<Double>)
    ensures
        r == terahashes_spec(hashrate_hs),
{
    match hashrate_hs {
        Some(h) => Some(h.over(Double { bits: TERA })),
        None => None,
    }
}

impl Histories {
    pub open spec fn wf(self) -> bool {
        self.bath.wf() && self.inlet.wf() && self.outlet.wf() && self.hashrate_ths.wf()
            && self.power_w.wf() && self.chip_c.wf()
    }

    /// Appends one sample of each from the snapshot.
    pub fn sample(&mut self, state: &State)
        requires
            old(self).wf(),
        ensures
            final(self).wf(),
            final(self).bath@ == latest(
                old(self).bath@.push(state::reading_of(state.probes@, "bath"@)),
            ),
            final(self).inlet@ == latest(
                old(self).inlet@.push(state::reading_of(state.probes@, "inlet"@)),
            ),
            final(self).outlet@ == latest(
                old(self).outlet@.push(state::reading_of(state.probes@, "outlet"@)),
            ),
            final(self).hashrate_ths@ == latest(
                old(self).hashrate_ths@.push(terahashes_spec(state.miner.hashrate_hs)),
            ),
            final(self).power_w@ == latest(old(self).power_w@.push(state.miner.power_w)),
            final(self).chip_c@ == latest(old(self).chip_c@.push(state.miner.chip_temperature_c)),
    {
        self.bath.push(control::bath_reading(state));
        self.inlet.push(state.reading("inlet"));
        self.outlet.push(state.reading("outlet"));
        self.hashrate_ths.push(terahashes(state.miner.hashrate_hs));
        self.power_w.push(state.miner.power_w);
        self.chip_c.push(state.miner.chip_temperature_c);
    }
}

/// A history holds the last 300 samples at most, in order, the newest
/// always among them, and drops none before that many.
pub proof fn lemma_what_is_kept(samples: Seq<Option<Double>>, i: int)
    ensures
        samples.len() <= 300 ==> latest(samples) == samples,
        samples.len() > 300 ==> latest(samples).len() == 300,
        0 <= i < latest(samples).len() ==> latest(samples)[latest(samples).len() - 1 - i]
            == samples[samples.len() - 1 - i],
{
}

/// Every sample stands for two seconds.
pub proof fn lemma_a_sample_is_two_seconds(h: History)
    requires
        h@.len() < 0x1_0000_0000,
    ensures
        order::is_whole(h.span_spec(), 2 * (h@.len() as int)),
{
    lemma2_to64();
    lemma2_to64_rest();
    let n = h@.len() as int;
    order::lemma_of_is_exact(n);
    order::lemma_constant_is_whole(SAMPLE_S, 0x400, 0, 2, 51);
    order::lemma_wholes_compute(Double::of_spec(n), Double { bits: SAMPLE_S }, n, 2);
}

/// A trillion hashes are one terahash, however many; and what is not
/// reported is not made up.
pub proof fn lemma_a_trillion_hashes(hashrate_hs: Double, tera: int)
    requires
        order::is_whole(hashrate_hs, tera * 1_000_000_000_000),
        -0x20_0000_0000_0000 < tera < 0x20_0000_0000_0000,
    ensures
        terahashes_spec(Some(hashrate_hs)) matches Some(x) && order::is_whole(x, tera),
        terahashes_spec(None) is None,
{
    lemma2_to64();
    lemma2_to64_rest();
    order::lemma_constant_is_whole(TERA, 0x426, 0xd_1a94_a200_0000, 1_000_000_000_000, 13);
    let v = tera * 1_000_000_000_000;
    assert(v % 1_000_000_000_000 == 0 && v / 1_000_000_000_000 == tera);
    order::lemma_wholes_compute(hashrate_hs, Double { bits: TERA }, v, 1_000_000_000_000);
}

} // verus!
