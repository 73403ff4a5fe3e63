//! A simulated bath and a simulated miner, for running Coinbath without
//! hardware.
//!
//! `Bath` is a first-order thermal model, heated by whatever share of
//! full power the miner reports; `Bath::tick` is the readings the
//! probes would send. `SimMiner` plays the miner: it holds whatever
//! share the state asks for and reports the telemetry the Mujina client
//! would.
use vstd::arithmetic::power2::*;
use vstd::prelude::*;

use crate::double;
use crate::double::Double;
use crate::ieee;
use crate::order;
use crate::rounding;
use crate::state::{Command, Miner, State};

verus! {

/// Room temperature the bath cools toward, in degrees Celsius: 22.0, as
/// a double's bits, like every number here.
pub const AMBIENT_C: u64 = 0x4036_0000_0000_0000;

/// Temperature rise above ambient at full power, once settled: 40.0.
pub const FULL_POWER_RISE_C: u64 = 0x4044_0000_0000_0000;

/// Time constant of the bath, in seconds: 120.0.
pub const TAU_S: u64 = 0x405e_0000_0000_0000;

/// Miner output at full power: 300.0 W and 30 TH/s.
pub const FULL_POWER_W: u64 = 0x4072_c000_0000_0000;

pub const FULL_HASHRATE_HS: u64 = 0x42bb_48eb_57e0_0000;

/// How far the chip runs above the water at full power: 40.0. The rig
/// measured about 40 C at 150 W.
pub const CHIP_RISE_C: u64 = 0x4044_0000_0000_0000;

/// Where the simulated board caps its thread, as an EmberOne does: full
/// at the limit, 75.0, minus the band, 10.0, and nothing at the limit.
pub const CHIP_LIMIT_C: u64 = 0x4052_c000_0000_0000;

pub const CHIP_BAND_C: u64 = 0x4024_0000_0000_0000;

/// How often the simulator reports, in milliseconds, and in seconds:
/// 1.0.
pub const TICK_MS: u64 = 1000;

pub const TICK_S: u64 = 0x3ff0_0000_0000_0000;

/// How far the water leaving for the plates is below the bath: 0.3.
pub const INLET_DROP_C: u64 = 0x3fd3_3333_3333_3333;

/// How far the water returning from the plates is above the bath at
/// full power: 2.0.
pub const OUTLET_RISE_C: u64 = 0x4000_0000_0000_0000;

/// 1.0.
pub const ONE: u64 = 0x3ff0_0000_0000_0000;

/// A share held to the range from nothing to full.
pub open spec fn share_spec(fraction: Double) -> Double {
    fraction.held_to(Double { bits: 0 }, Double { bits: ONE })
}

fn share(fraction: Double) -> (s: Double)
    ensures
        s == share_spec(fraction),
{
    fraction.held_to(Double { bits: 0 }, Double { bits: ONE })
}

/// A first-order model of water heated by a miner.
#[derive(Debug, Clone)]
pub struct Bath {
    pub bath_c: Double,
}

impl Default for Bath {
    fn default() -> (b: Self)
        ensures
            b.bath_c.bits == AMBIENT_C,
    {
        Self::new()
    }
}

impl Bath {
    /// A bath at room temperature.
    pub fn new() -> (b: Self)
        ensures
            b.bath_c.bits == AMBIENT_C,
    {
        Bath { bath_c: Double { bits: AMBIENT_C } }
    }

    /// Where the bath settles at a share of full power.
    pub open spec fn target(power_fraction: Double) -> Double {
        (Double { bits: AMBIENT_C }).plus(
            (Double { bits: FULL_POWER_RISE_C }).times(share_spec(power_fraction)),
        )
    }

    /// The bath after `dt` seconds at a share of full power.
    pub open spec fn stepped(self, dt: Double, power_fraction: Double) -> Double {
        self.bath_c.plus(
            Self::target(power_fraction).minus(self.bath_c).times(
                dt.over(Double { bits: TAU_S }).lesser(Double { bits: ONE }),
            ),
        )
    }

    /// Advances the model by `dt` seconds with the miner at
    /// `power_fraction` of full power.
    pub fn step(&mut self, dt: Double, power_fraction: Double)
        ensures
            final(self).bath_c == old(self).stepped(dt, power_fraction),
    {
        let target = (Double { bits: AMBIENT_C }).plus(
            (Double { bits: FULL_POWER_RISE_C }).times(share(power_fraction)),
        );
        let rate = dt.over(Double { bits: TAU_S }).lesser(Double { bits: ONE });
        self.bath_c = self.bath_c.plus(target.minus(self.bath_c).times(rate));
    }

    pub open spec fn inlet_spec(self) -> Double {
        self.bath_c.minus(Double { bits: INLET_DROP_C })
    }

    /// Water leaving the bath for the plates.
    pub fn inlet_c(&self) -> (c: Double)
        ensures
            c == self.inlet_spec(),
    {
        self.bath_c.minus(Double { bits: INLET_DROP_C })
    }

    pub open spec fn outlet_spec(self, power_fraction: Double) -> Double {
        self.bath_c.plus((Double { bits: OUTLET_RISE_C }).times(share_spec(power_fraction)))
    }

    /// Water returning from the plates, warmer by the heat picked up.
    pub fn outlet_c(&self, power_fraction: Double) -> (c: Double)
        ensures
            c == self.outlet_spec(power_fraction),
    {
        self.bath_c.plus((Double { bits: OUTLET_RISE_C }).times(share(power_fraction)))
    }

    /// One tick: the model moves on by a second at the share the miner
    /// reports, or off where it reports none, and each probe, in the
    /// order of `PROBE_NAMES`, reads what it would.
    pub fn tick(&mut self, state: &State) -> (readings: Vec<Command>)
        ensures
            ({
                let held = match state.miner.power_fraction {
                    Some(f) => f,
                    None => Double { bits: 0 },
                };
                &&& final(self).bath_c == old(self).stepped(Double { bits: TICK_S }, held)
                &&& readings@ == seq![
                    simulated(0, final(self).bath_c),
                    simulated(1, final(self).inlet_spec()),
                    simulated(2, final(self).outlet_spec(held)),
                ]
            }),
    {
        let held = match state.miner.power_fraction {
            Some(f) => f,
            None => Double { bits: 0 },
        };
        self.step(Double { bits: TICK_S }, held);
        let mut readings: Vec<Command> = Vec::new();
        readings.push(reading(0, self.bath_c));
        readings.push(reading(1, self.inlet_c()));
        readings.push(reading(2, self.outlet_c(held)));
        assert(readings@ =~= seq![
            simulated(0, self.bath_c),
            simulated(1, self.inlet_spec()),
            simulated(2, self.outlet_spec(held)),
        ]);
        readings
    }
}

/// A simulated probe's reading, which has no volts behind it.
pub open spec fn simulated(index: usize, celsius: Double) -> Command {
    Command::ProbeReading { index, volts: None, celsius: Some(celsius) }
}

fn reading(index: usize, celsius: Double) -> (c: Command)
    ensures
        c == simulated(index, celsius),
{
    Command::ProbeReading { index, volts: None, celsius: Some(celsius) }
}

/// Probe names the simulator reports, in index order.
pub const PROBE_NAMES: [&'static str; 3] = ["bath", "inlet", "outlet"];

/// The simulated miner between ticks: the share it holds.
#[derive(Debug, Clone)]
pub struct SimMiner {
    pub held: Double,
}

impl SimMiner {
    /// A miner at full power, as Mujina starts.
    pub fn new() -> (m: Self)
        ensures
            m.held.bits == ONE,
    {
        SimMiner { held: Double { bits: ONE } }
    }

    /// The chip's temperature at a water temperature.
    pub open spec fn chip(self, water_c: Double) -> Double {
        water_c.plus((Double { bits: CHIP_RISE_C }).times(self.held))
    }

    /// The most the board lets its thread hold.
    pub open spec fn ceiling(self, water_c: Double) -> Double {
        share_spec(
            (Double { bits: CHIP_LIMIT_C }).minus(self.chip(water_c)).over(
                Double { bits: CHIP_BAND_C },
            ),
        )
    }

    /// One tick: the miner holds whatever share of full power the state
    /// asks for, and full power until something asks, less whatever its
    /// chip temperature caps it to, and reports it.
    pub fn tick(&mut self, state: &State) -> (report: Miner)
        requires
            state.probes@.len() > 0,
        ensures
            ({
                let asked = match state.power_fraction {
                    Some(f) => f,
                    None => Double { bits: ONE },
                };
                let water_c = match state.probes@[0].celsius {
                    Some(c) => c,
                    None => Double { bits: AMBIENT_C },
                };
                let held = asked.lesser(old(self).ceiling(water_c));
                &&& final(self).held == held
                &&& report.online
                &&& report.hashrate_hs == Some((Double { bits: FULL_HASHRATE_HS }).times(held))
                &&& report.power_w == Some((Double { bits: FULL_POWER_W }).times(held))
                &&& report.chip_temperature_c == Some(old(self).chip(water_c))
                &&& report.power_fraction == Some(held)
                &&& report.power_ceiling == Some(old(self).ceiling(water_c))
                &&& report.has_no_details()
            }),
    {
        let asked = match state.power_fraction {
            Some(f) => f,
            None => Double { bits: ONE },
        };
        let water_c = match state.probes[0].celsius {
            Some(c) => c,
            None => Double { bits: AMBIENT_C },
        };
        let chip_c = water_c.plus((Double { bits: CHIP_RISE_C }).times(self.held));
        let ceiling = share(
            (Double { bits: CHIP_LIMIT_C }).minus(chip_c).over(Double { bits: CHIP_BAND_C }),
        );
        let held = asked.lesser(ceiling);
        self.held = held;
        let mut report = Miner::default();
        report.online = true;
        report.hashrate_hs = Some((Double { bits: FULL_HASHRATE_HS }).times(held));
        report.power_w = Some((Double { bits: FULL_POWER_W }).times(held));
        report.chip_temperature_c = Some(chip_c);
        report.power_fraction = Some(held);
        report.power_ceiling = Some(ceiling);
        report
    }
}

/// The simulated board's ceiling is a share, and the share held is
/// never over it nor over what is asked.
pub proof fn lemma_the_simulated_miner_keeps_to_its_ceiling(
    m: SimMiner,
    asked: Double,
    water_c: Double,
)
    requires
        !asked.is_nan(),
        !m.ceiling(water_c).is_nan(),
    ensures
        (Double { bits: 0 }).at_most(m.ceiling(water_c)),
        m.ceiling(water_c).at_most(Double { bits: ONE }),
        asked.lesser(m.ceiling(water_c)).at_most(m.ceiling(water_c)),
        asked.lesser(m.ceiling(water_c)).at_most(asked),
{
}

// What the model does.
/// The bath settles at 22 C with the miner off and at 62 C at full
/// power, and no lower for a greater share.
#[verifier::rlimit(50)]
pub proof fn lemma_where_the_bath_settles(less: Double, more: Double)
    requires
        less.at_most(more),
    ensures
        Bath::target(less).at_most(Bath::target(more)),
        less.at_most(Double { bits: 0 }) ==> order::is_whole(Bath::target(less), 22),
        (Double { bits: 0x3ff0_0000_0000_0000 }).at_most(more) ==> order::is_whole(
            Bath::target(more),
            62,
        ),
        order::is_whole(Bath::target(Double { bits: 0x3fe0_0000_0000_0000 }), 42),
        Bath::target(less).is_finite() && Bath::target(more).is_finite(),
{
    let (zero, one, half) = (
        Double { bits: 0 },
        Double { bits: ONE },
        Double { bits: 0x3fe0_0000_0000_0000 },
    );
    let (room, rise) = (Double { bits: AMBIENT_C }, Double { bits: FULL_POWER_RISE_C });
    lemma_constants();
    let (a, b) = (share_spec(less), share_spec(more));
    order::lemma_times_keeps_order(zero, a, rise);
    order::lemma_times_keeps_order(a, b, rise);
    order::lemma_times_keeps_order(b, one, rise);
    order::lemma_plus_keeps_order(rise.times(zero), rise.times(a), room);
    order::lemma_plus_keeps_order(rise.times(a), rise.times(b), room);
    order::lemma_plus_keeps_order(rise.times(b), rise.times(one), room);
    order::lemma_wholes_compute(rise, zero, 40, 0);
    order::lemma_wholes_compute(room, rise.times(zero), 22, 0);
    order::lemma_wholes_compute(rise, one, 40, 1);
    order::lemma_wholes_compute(room, rise.times(one), 22, 40);
    if less.at_most(zero) {
        order::lemma_times_keeps_order(a, zero, rise);
        order::lemma_plus_keeps_order(rise.times(a), rise.times(zero), room);
        lemma_same_whole(room.plus(rise.times(zero)), room.plus(rise.times(a)), 22);
    }
    if one.at_most(more) {
        order::lemma_times_keeps_order(one, b, rise);
        order::lemma_plus_keeps_order(rise.times(one), rise.times(b), room);
        lemma_same_whole(room.plus(rise.times(one)), room.plus(rise.times(b)), 62);
    }
    lemma_half_of_the_rise();
    order::lemma_wholes_compute(room, rise.times(half), 22, 20);
}

proof fn lemma_same_whole(x: Double, y: Double, v: int)
    requires
        order::is_whole(x, v),
        x.at_most(y),
        y.at_most(x),
    ensures
        order::is_whole(y, v),
{
    order::lemma_units_order(x, y);
    order::lemma_units_order(y, x);
}

/// 0, 1, 22, 40, 65, 75 and 10, as doubles.
proof fn lemma_constants()
    ensures
        order::is_whole(Double { bits: 0 }, 0),
        order::is_whole(Double { bits: ONE }, 1),
        order::is_whole(Double { bits: AMBIENT_C }, 22),
        order::is_whole(Double { bits: FULL_POWER_RISE_C }, 40),
        order::is_whole(Double { bits: CHIP_RISE_C }, 40),
        order::is_whole(Double { bits: CHIP_LIMIT_C }, 75),
        order::is_whole(Double { bits: CHIP_BAND_C }, 10),
        order::is_whole(Double { bits: 0x4050_4000_0000_0000 }, 65),
{
    lemma2_to64();
    lemma2_to64_rest();
    ieee::lemma_units_zero(rounding::binary64());
    order::lemma_constant_is_whole(ONE, 0x3ff, 0, 1, 52);
    order::lemma_constant_is_whole(AMBIENT_C, 0x403, 0x6_0000_0000_0000, 22, 48);
    order::lemma_constant_is_whole(FULL_POWER_RISE_C, 0x404, 0x4_0000_0000_0000, 40, 47);
    order::lemma_constant_is_whole(CHIP_LIMIT_C, 0x405, 0x2_c000_0000_0000, 75, 46);
    order::lemma_constant_is_whole(CHIP_BAND_C, 0x402, 0x4_0000_0000_0000, 10, 49);
    order::lemma_constant_is_whole(0x4050_4000_0000_0000, 0x405, 0x4000_0000_0000, 65, 46);
}

proof fn lemma_half_of_the_rise()
    ensures
        order::is_whole(
            (Double { bits: FULL_POWER_RISE_C }).times(Double { bits: 0x3fe0_0000_0000_0000 }),
            20,
        ),
{
    let (rise, half) = (
        Double { bits: FULL_POWER_RISE_C },
        Double { bits: 0x3fe0_0000_0000_0000 },
    );
    let (two, twenty) = (Double { bits: OUTLET_RISE_C }, Double::of_spec(20));
    let one = Double { bits: ONE };
    let p = pow2(1074) as int;
    lemma2_to64();
    lemma2_to64_rest();
    lemma_pow2_pos(1074);
    lemma_constants();
    order::lemma_constant_is_whole(OUTLET_RISE_C, 0x400, 0, 2, 51);
    let f = rounding::binary64();
    ieee::lemma_format_bounds(f);
    assert(f.units(0x3fe0_0000_0000_0000) == 0x10_0000_0000_0000 * pow2(1021));
    lemma_pow2_adds(52, 1021);
    lemma_pow2_unfold(1074);
    let h = order::units(half);
    assert(2 * h == p);
    order::lemma_times_rank(rise, half);
    assert((40 * p) * h == (20 * p) * p) by (nonlinear_arith)
        requires
            2 * h == p,
    ;
    order::lemma_nearest_rank_scaled(20 * p, 1, p);
    order::lemma_of_is_exact(20);
    order::lemma_nearest_rank_of_units(twenty);
    ieee::lemma_format_bounds(f);
    order::lemma_units_order(rise.times(half), twenty);
    order::lemma_units_order(twenty, rise.times(half));
}

/// A step takes the bath from where it is toward where it settles, by
/// the share of the way that its time is of 120 seconds: it never
/// leaves the way, and after that long or longer it is all of it.
#[verifier::rlimit(50)]
pub proof fn lemma_a_step_goes_toward_the_target(bath: Bath, dt: Double, fraction: Double)
    requires
        bath.bath_c.is_finite(),
        dt.is_finite(),
        dt.rank() >= 0,
        !fraction.is_nan(),
        Bath::target(fraction).minus(bath.bath_c).is_finite(),
    ensures
        ({
            let (now, target) = (bath.bath_c, Bath::target(fraction));
            let way = target.minus(now);
            let after = bath.stepped(dt, fraction);
            &&& now.at_most(target) ==> now.at_most(after) && after.at_most(now.plus(way))
            &&& target.at_most(now) ==> after.at_most(now) && now.plus(way).at_most(after)
            &&& (Double { bits: 0x405e_0000_0000_0000 }).at_most(dt) ==> after.equals(
                now.plus(way),
            )
            &&& dt.over(Double { bits: 0x405e_0000_0000_0000 }).below(
                Double { bits: 0x3ff0_0000_0000_0000 },
            ) ==> after == now.plus(way.times(dt.over(Double { bits: 0x405e_0000_0000_0000 })))
        }),
{
    let zero = Double { bits: 0 };
    let one = Double { bits: ONE };
    let tau = Double { bits: TAU_S };
    let (now, target) = (bath.bath_c, Bath::target(fraction));
    let way = target.minus(now);
    lemma_where_the_bath_settles(fraction, fraction);
    ieee::lemma_units_zero(rounding::binary64());
    order::lemma_over_at_least_one(dt, tau);
    let rate = dt.over(tau).lesser(one);
    order::lemma_plus_rank(now, zero);
    order::lemma_nearest_rank_of_units(now);
    order::lemma_negated(now);
    order::lemma_plus_rank(now, now.negated());
    ieee::lemma_rounded_zero(rounding::binary64(), 1);
    order::lemma_times_one(way);
    double::lemma_times_zero(way, zero);
    if now.at_most(target) {
        order::lemma_plus_keeps_order(now, target, now.negated());
        order::lemma_times_keeps_order(zero, rate, way);
        order::lemma_times_keeps_order(rate, one, way);
        order::lemma_plus_keeps_order(zero, way.times(rate), now);
        order::lemma_plus_keeps_order(way.times(rate), way, now);
    }
    if target.at_most(now) {
        order::lemma_plus_keeps_order(target, now, now.negated());
        order::lemma_times_turns_order(zero, rate, way);
        order::lemma_times_turns_order(rate, one, way);
        order::lemma_plus_keeps_order(way.times(rate), zero, now);
        order::lemma_plus_keeps_order(way, way.times(rate), now);
    }
    if tau.at_most(dt) {
        order::lemma_over_keeps_order(tau, dt, tau);
        order::lemma_over_itself(tau);
        assert(rate.equals(one));
        order::lemma_plus_keeps_order(way.times(rate), way, now);
        order::lemma_plus_keeps_order(way, way.times(rate), now);
    }
}

/// The water leaves colder than the bath by 0.3 C, and comes back
/// warmer by 2 C at full power, and by nothing with the miner off.
pub proof fn lemma_the_water_around_the_bath(bath: Bath, fraction: Double)
    requires
        bath.bath_c.is_finite(),
        !fraction.is_nan(),
    ensures
        bath.inlet_spec() == bath.bath_c.minus(Double { bits: 0x3fd3_3333_3333_3333 }),
        bath.inlet_spec().at_most(bath.bath_c),
        bath.bath_c.at_most(bath.outlet_spec(fraction)),
        bath.outlet_spec(fraction).at_most(
            bath.bath_c.plus(Double { bits: 0x4000_0000_0000_0000 }),
        ),
        fraction.at_most(Double { bits: 0 }) ==> bath.outlet_spec(fraction).equals(bath.bath_c),
        (Double { bits: 0x3ff0_0000_0000_0000 }).at_most(fraction) ==> bath.outlet_spec(
            fraction,
        ).equals(bath.bath_c.plus(Double { bits: 0x4000_0000_0000_0000 })),
{
    let (zero, one) = (Double { bits: 0 }, Double { bits: ONE });
    let (drop, rise) = (Double { bits: INLET_DROP_C }, Double { bits: OUTLET_RISE_C });
    let now = bath.bath_c;
    let s = share_spec(fraction);
    ieee::lemma_units_zero(rounding::binary64());
    order::lemma_plus_rank(now, zero);
    order::lemma_nearest_rank_of_units(now);
    order::lemma_negated(drop);
    order::lemma_plus_keeps_order(drop.negated(), zero, now);
    double::lemma_times_zero(rise, zero);
    order::lemma_times_one(rise);
    order::lemma_times_keeps_order(zero, s, rise);
    order::lemma_times_keeps_order(s, one, rise);
    order::lemma_plus_keeps_order(zero, rise.times(s), now);
    order::lemma_plus_keeps_order(rise.times(s), rise, now);
    if fraction.at_most(zero) {
        order::lemma_times_keeps_order(s, zero, rise);
        order::lemma_plus_keeps_order(rise.times(s), zero, now);
    }
    if one.at_most(fraction) {
        order::lemma_times_keeps_order(one, s, rise);
        order::lemma_plus_keeps_order(rise, rise.times(s), now);
    }
}

/// The simulated chip is no colder than the water, by 40 C at full
/// power; up to 65 C it caps nothing, from 75 C it lets nothing through,
/// and a warmer one lets no more through.
#[verifier::rlimit(50)]
pub proof fn lemma_a_hot_chip_caps_its_thread(m: SimMiner, n: SimMiner, cold_c: Double, hot_c: Double)
    requires
        cold_c.is_finite(),
        !m.held.is_nan(),
        m.chip(cold_c).is_finite(),
        n.chip(hot_c).is_finite(),
        m.chip(cold_c).at_most(n.chip(hot_c)),
    ensures
        m.chip(cold_c) == cold_c.plus((Double { bits: 0x4044_0000_0000_0000 }).times(m.held)),
        n.ceiling(hot_c).at_most(m.ceiling(cold_c)),
        m.chip(cold_c).at_most(Double { bits: 0x4050_4000_0000_0000 }) ==> m.ceiling(cold_c).equals(
            Double { bits: 0x3ff0_0000_0000_0000 },
        ),
        (Double { bits: 0x4052_c000_0000_0000 }).at_most(n.chip(hot_c)) ==> n.ceiling(hot_c).equals(
            Double { bits: 0 },
        ),
{
    let (zero, one) = (Double { bits: 0 }, Double { bits: ONE });
    let (limit, band, full) = (
        Double { bits: CHIP_LIMIT_C },
        Double { bits: CHIP_BAND_C },
        Double { bits: 0x4050_4000_0000_0000 },
    );
    let (cold, hot) = (m.chip(cold_c), n.chip(hot_c));
    lemma_constants();
    lemma_room_left(cold, hot);
    lemma_room_left(cold, cold);
    if cold.at_most(full) {
        lemma_room_left(cold, full);
        order::lemma_wholes_compute(limit, full, 75, 65);
        order::lemma_wholes_compute(limit.minus(full), band, 10, 10);
        order::lemma_units_order(one, limit.minus(full).over(band));
    }
    if limit.at_most(hot) {
        lemma_room_left(limit, hot);
        order::lemma_wholes_compute(limit, limit, 75, 75);
        order::lemma_wholes_compute(limit.minus(limit), band, 0, 10);
        order::lemma_units_order(limit.minus(limit).over(band), zero);
    }
}

/// A hotter chip leaves no more of the band.
proof fn lemma_room_left(cold: Double, hot: Double)
    requires
        cold.is_finite(),
        hot.is_finite(),
        cold.at_most(hot),
    ensures
        (Double { bits: CHIP_LIMIT_C }).minus(hot).over(Double { bits: CHIP_BAND_C }).at_most(
            (Double { bits: CHIP_LIMIT_C }).minus(cold).over(Double { bits: CHIP_BAND_C }),
        ),
{
    let (limit, band) = (Double { bits: CHIP_LIMIT_C }, Double { bits: CHIP_BAND_C });
    order::lemma_negated(cold);
    order::lemma_negated(hot);
    order::lemma_plus_keeps_order(hot.negated(), cold.negated(), limit);
    order::lemma_over_keeps_order(limit.minus(hot), limit.minus(cold), band);
}

/// A simulated reading is of its probe, and has no volts.
pub proof fn lemma_a_simulated_reading(index: usize, celsius: Double)
    ensures
        simulated(index, celsius) == (Command::ProbeReading {
            index,
            volts: None,
            celsius: Some(celsius),
        }),
{
}

} // verus!
