//! ADS1015 conversions.
//!
//! Single-ended one-shot reads at the +/-4.096 V range, where the
//! 12-bit result is 2 mV per count. The wider range covers a divider
//! output that approaches the 3.3 V supply. `Conversion` says what to
//! put on the bus next; whoever owns the bus does it.
use vstd::arithmetic::power2::*;
use vstd::prelude::*;

use crate::double;
use crate::double::Double;
use crate::order;
use crate::wording;

verus! {

/// A single-ended input.
#[derive(Debug, Clone, Copy, PartialEq, Eq, Structural)]
pub enum Channel {
    A0,
    A1,
    A2,
    A3,
}

impl Channel {
    pub open spec fn number_spec(self) -> u8 {
        match self {
            Channel::A0 => 0,
            Channel::A1 => 1,
            Channel::A2 => 2,
            Channel::A3 => 3,
        }
    }

    /// The input's number, 0 to 3.
    #[verifier::when_used_as_spec(number_spec)]
    pub fn number(self) -> (n: u8)
        ensures
            n == self.number_spec(),
            n <= 3,
    {
        match self {
            Channel::A0 => 0,
            Channel::A1 => 1,
            Channel::A2 => 2,
            Channel::A3 => 3,
        }
    }

    /// The input's name on the chip, such as "A0".
    pub fn to_text(&self) -> (text: String)
        ensures
            text@ == "A"@ + wording::digits(self.number() as nat),
    {
        let mut text = "A".to_string();
        wording::push_digits(&mut text, self.number() as u128);
        text
    }
}

impl TryFrom<u8> for Channel {
    type Error = String;

    fn try_from(n: u8) -> (r: Result<Self, String>)
        ensures
            r matches Ok(channel) ==> channel.number() == n,
            r is Ok <==> n <= 3,
            r matches Err(why) ==> why@ == "channel "@ + wording::digits(n as nat)
                + " is not 0..=3"@,
    {
        match n {
            0 => Ok(Channel::A0),
            1 => Ok(Channel::A1),
            2 => Ok(Channel::A2),
            3 => Ok(Channel::A3),
            _ => {
                let mut why = "channel ".to_string();
                wording::push_digits(&mut why, n as u128);
                why.append(" is not 0..=3");
                Err(why)
            },
        }
    }
}

impl vstd::std_specs::convert::TryFromSpecImpl<u8> for Channel {
    open spec fn obeys_try_from_spec() -> bool {
        false
    }

    open spec fn try_from_spec(n: u8) -> Result<Channel, String> {
        arbitrary()
    }
}

/// The chip's address on the bus.
pub const ADDRESS: u16 = 0x48;

const REG_CONVERSION: u8 = 0x00;

const REG_CONFIG: u8 = 0x01;

/// Start a conversion when written, conversion ready when read.
const CFG_OS: u16 = 0x8000;

const CFG_PGA_4_096V: u16 = 0x0200;

const CFG_MODE_SINGLE: u16 = 0x0100;

const CFG_DR_1600SPS: u16 = 0x0080;

const CFG_COMP_DISABLE: u16 = 0x0003;

/// A conversion takes 0.625 ms at 1600 SPS; each poll is an I2C round
/// trip of about the same length.
pub const MAX_POLLS: u32 = 10;

/// Volts per count, 4.096 / 2048, as a double's bits.
pub const VOLTS_PER_COUNT: u64 = 0x3f60_624d_d2f1_a9fc;

/// Conversions averaged into one reading. With the miner running, a
/// single conversion wanders a few tenths of a degree from the next;
/// sixteen at 1600 SPS take about 30 ms per channel and bring that
/// under a tenth.
pub const CONVERSIONS_PER_READING: usize = 16;

/// The config word that starts a single-ended read of `channel`: start,
/// the channel's input against ground, 4.096 V, one shot, 1600 SPS, no
/// comparator.
pub fn config_word(channel: Channel) -> (word: u16)
    ensures
        word == 0xc383 + 0x1000 * channel.number(),
{
    // Single-ended inputs are MUX values 0b100..=0b111.
    let mux: u16 = (4 + channel.number() as u16) << 12;
    let word = CFG_OS | mux | CFG_PGA_4_096V | CFG_MODE_SINGLE | CFG_DR_1600SPS | CFG_COMP_DISABLE;
    let ghost n = channel.number() as u16;
    assert((0x8000u16 | (((4 + n) as u16) << 12) | 0x0200u16 | 0x0100u16 | 0x0080u16 | 0x0003u16)
        == 0xc383 + 0x1000 * n) by (bit_vector)
        requires
            n <= 3,
    ;
    word
}

/// The signed 16-bit value of two bytes, the high one first.
pub open spec fn big_endian(buf: [u8; 2]) -> int {
    let u = buf[0] * 256 + buf[1];
    if u >= 0x8000 {
        u - 0x1_0000
    } else {
        u
    }
}

/// The signed count in the conversion register, which holds the 12-bit
/// result left-aligned.
pub fn raw_from_bytes(buf: [u8; 2]) -> (raw: i16)
    ensures
        raw == big_endian(buf) / 16,
        -2048 <= raw < 2048,
{
    let u: i32 = buf[0] as i32 * 256 + buf[1] as i32;
    let count: i32 = u / 16;
    if u >= 0x8000 {
        (count - 4096) as i16
    } else {
        count as i16
    }
}

/// Whether the config register says the conversion is ready.
pub fn is_ready(buf: [u8; 2]) -> (r: bool)
    ensures
        r == (buf[0] >= 0x80),
{
    buf[0] >= 0x80
}

/// The volts of a count.
pub open spec fn volts_spec(raw: int) -> Double {
    Double::of_spec(raw).times(Double { bits: VOLTS_PER_COUNT })
}

/// The volts of a count.
pub fn volts(raw: i16) -> (v: Double)
    ensures
        v == volts_spec(raw as int),
{
    Double::of(raw as i64).times(Double { bits: VOLTS_PER_COUNT })
}

/// The volts of some counts, summed in order.
pub open spec fn volts_sum(raws: Seq<i16>) -> Double
    decreases raws.len(),
{
    if raws.len() == 0 {
        Double { bits: 0 }
    } else {
        volts_sum(raws.drop_last()).plus(volts_spec(raws.last() as int))
    }
}

/// The mean volts of a burst of conversions.
pub fn mean_volts(raws: &Vec<i16>) -> (v: Double)
    requires
        raws@.len() == CONVERSIONS_PER_READING,
    ensures
        v == volts_sum(raws@).over(Double::of_spec(CONVERSIONS_PER_READING as int)),
{
    let mut sum = Double { bits: 0 };
    let mut i: usize = 0;
    while i < CONVERSIONS_PER_READING
        invariant
            i <= CONVERSIONS_PER_READING,
            raws@.len() == CONVERSIONS_PER_READING,
            sum == volts_sum(raws@.take(i as int)),
        decreases CONVERSIONS_PER_READING - i,
    {
        proof {
            assert(raws@.take(i + 1).drop_last() =~= raws@.take(i as int));
        }
        sum = sum.plus(volts(raws[i]));
        i = i + 1;
    }
    proof {
        assert(raws@.take(i as int) =~= raws@);
    }
    sum.over(Double::of(CONVERSIONS_PER_READING as i64))
}

/// What to do on the bus next.
#[derive(Debug, Clone, PartialEq)]
pub enum Step {
    /// Write these bytes.
    Write(Vec<u8>),
    /// Read two bytes.
    Read,
    /// The conversion is done, with this count.
    Done(i16),
    /// The conversion did not become ready in time.
    NotReady,
}

impl Step {
    /// A write of these bytes.
    pub open spec fn writes(self, bytes: Seq<u8>) -> bool {
        self matches Step::Write(b) && b@ == bytes
    }
}

/// How far a conversion has come.
#[derive(Debug, Clone, Copy, PartialEq, Eq, Structural)]
pub enum Stage {
    /// Nothing is on the bus yet.
    Begin,
    /// The start was written.
    Started,
    /// The config register is selected.
    Selected,
    /// The config register was read.
    Polled,
    /// The conversion register is selected.
    Chosen,
    /// The conversion register was read.
    Fetched,
    /// There is nothing left to do.
    Over,
}

/// One conversion of one channel.
#[derive(Debug, Clone, Copy)]
pub struct Conversion {
    pub channel: Channel,
    pub stage: Stage,
    /// Times the config register has been asked for.
    pub polls: u32,
}

impl Conversion {
    pub fn new(channel: Channel) -> (c: Self)
        ensures
            c == (Conversion { channel, stage: Stage::Begin, polls: 0 }),
    {
        Conversion { channel, stage: Stage::Begin, polls: 0 }
    }

    /// The polls stay within their limit.
    pub open spec fn wf(self) -> bool {
        self.polls <= MAX_POLLS
    }

    /// Whether the config register is asked for next: after the start,
    /// and after a poll that found nothing ready, up to the limit.
    pub open spec fn polls_again(self, read: [u8; 2]) -> bool {
        self.polls < MAX_POLLS && (self.stage == Stage::Started || (self.stage == Stage::Polled
            && read[0] < 0x80))
    }

    /// Says what to do next. `read` is what the last read returned, if
    /// the last step was one.
    pub fn next(&mut self, read: [u8; 2]) -> (step: Step)
        requires
            old(self).wf(),
            old(self).stage != Stage::Over,
        ensures
            final(self).wf(),
            final(self).channel == old(self).channel,
            final(self).polls == old(self).polls + if old(self).polls_again(read) {
                1int
            } else {
                0int
            },
            match old(self).stage {
                Stage::Begin => final(self).stage == Stage::Started && step.writes(
                    seq![1u8, (0xc3 + 0x10 * old(self).channel.number()) as u8, 0x83u8],
                ),
                Stage::Selected => final(self).stage == Stage::Polled && step is Read,
                Stage::Chosen => final(self).stage == Stage::Fetched && step is Read,
                Stage::Fetched => final(self).stage == Stage::Over && step == Step::Done(
                    (big_endian(read) / 16) as i16,
                ),
                _ => if old(self).polls_again(read) {
                    final(self).stage == Stage::Selected && step.writes(seq![1u8])
                } else if old(self).stage == Stage::Polled && read[0] >= 0x80 {
                    final(self).stage == Stage::Chosen && step.writes(seq![0u8])
                } else {
                    final(self).stage == Stage::Over && step is NotReady
                },
            },
    {
        match self.stage {
            Stage::Begin => {
                let word = config_word(self.channel);
                self.stage = Stage::Started;
                let high: u8 = (word / 256) as u8;
                let low: u8 = (word % 256) as u8;
                let bytes: Vec<u8> = vec![REG_CONFIG, high, low];
                assert(bytes@ =~= seq![
                    1u8,
                    (0xc3 + 0x10 * self.channel.number()) as u8,
                    0x83u8,
                ]);
                Step::Write(bytes)
            },
            Stage::Selected => {
                self.stage = Stage::Polled;
                Step::Read
            },
            Stage::Chosen => {
                self.stage = Stage::Fetched;
                Step::Read
            },
            Stage::Fetched => {
                self.stage = Stage::Over;
                Step::Done(raw_from_bytes(read))
            },
            Stage::Started | Stage::Polled | Stage::Over => {
                let polled = match self.stage {
                    Stage::Polled => true,
                    _ => false,
                };
                if polled && is_ready(read) {
                    self.stage = Stage::Chosen;
                    let bytes: Vec<u8> = vec![REG_CONVERSION];
                    assert(bytes@ =~= seq![0u8]);
                    Step::Write(bytes)
                } else if self.polls < MAX_POLLS {
                    self.polls = self.polls + 1;
                    self.stage = Stage::Selected;
                    let bytes: Vec<u8> = vec![REG_CONFIG];
                    assert(bytes@ =~= seq![1u8]);
                    Step::Write(bytes)
                } else {
                    self.stage = Stage::Over;
                    Step::NotReady
                }
            },
        }
    }
}

// What a count is.
/// Two bytes are the 16-bit number in two's complement that they spell,
/// the high one first.
pub proof fn lemma_two_bytes_spell_a_number(buf: [u8; 2])
    ensures
        -0x8000 <= big_endian(buf) < 0x8000,
        (big_endian(buf) - (buf[0] * 256 + buf[1])) % 0x1_0000 == 0,
        big_endian(buf) < 0 <==> buf[0] >= 0x80,
{
}

/// A count's volts are the double nearest to that many times two
/// thousandths of a volt: none for none, and no fewer for a higher
/// count.
pub proof fn lemma_volts_are_in_proportion(less: int, more: int)
    requires
        -0x8000 <= less <= more <= 0x7fff,
    ensures
        volts_spec(less).rank() == order::nearest_rank(
            less * order::units(Double { bits: 0x3f60_624d_d2f1_a9fc }),
            1,
        ),
        volts_spec(less).at_most(volts_spec(more)),
        less >= 0 ==> volts_spec(less).rank() >= 0,
        less <= 0 ==> volts_spec(less).rank() <= 0,
{
    let each = Double { bits: VOLTS_PER_COUNT };
    let p = pow2(1074) as int;
    let u = order::units(each);
    lemma_pow2_pos(1074);
    order::lemma_of_is_exact(less);
    order::lemma_of_is_exact(more);
    order::lemma_of_keeps_order(less, more);
    order::lemma_times_keeps_order(Double::of_spec(less), Double::of_spec(more), each);
    order::lemma_times_rank(Double::of_spec(less), each);
    assert((less * p) * u == (less * u) * p && 1 * p == p) by (nonlinear_arith);
    order::lemma_nearest_rank_scaled(less * u, 1, p);
    double::lemma_times_sign(Double::of_spec(less), each);
}

/// Every count adds its volts to a burst's.
pub proof fn lemma_every_count_is_summed(raws: Seq<i16>, raw: i16)
    ensures
        volts_sum(Seq::<i16>::empty()) == (Double { bits: 0 }),
        volts_sum(raws.push(raw)) == volts_sum(raws).plus(volts_spec(raw as int)),
{
    assert(raws.push(raw).drop_last() =~= raws);
}

/// The config register is asked for after the start, and again as long
/// as its first bit says the conversion is not ready, ten times in all.
pub proof fn lemma_when_it_is_polled(c: Conversion, read: [u8; 2])
    ensures
        c.polls >= 10 ==> !c.polls_again(read),
        c.polls < 10 && c.stage == Stage::Started ==> c.polls_again(read),
        c.polls < 10 && c.stage == Stage::Polled ==> c.polls_again(read) == (read[0] < 128),
        c.stage != Stage::Started && c.stage != Stage::Polled ==> !c.polls_again(read),
{
}

/// No two inputs have one number, and the numbers are those from 0 to
/// 3 in order.
pub proof fn lemma_inputs_are_numbered(a: Channel, b: Channel)
    ensures
        a != b <==> a.number() != b.number(),
        a.number() == 0 <==> a == Channel::A0,
        a.number() == 1 <==> a == Channel::A1,
        a.number() == 2 <==> a == Channel::A2,
        a.number() == 3 <==> a == Channel::A3,
        a.number() <= 3,
{
}

/// A step writes these bytes just where it is a write of them, in order.
pub proof fn lemma_what_a_step_writes(step: Step, bytes: Seq<u8>)
    ensures
        step.writes(bytes) ==> step is Write && step->Write_0@ == bytes,
        step is Write && step->Write_0@ == bytes ==> step.writes(bytes),
{
}

} // verus!
