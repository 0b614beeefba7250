//! Writing a video: which encoder is used, when its frames are shown, and when it is done.

use crate::arith::{
    law_nearest_whole_is_nearest, law_quotient_is_near, law_scaling_is_near,
    lemma_rounds_below_power, nearest_whole, of_signed, of_whole, product, quotient, size,
};
use crate::decoder::Rational;
use crate::double::{unit, Double, ONE_BITS};
use crate::hw::{candidates_of, EncoderPref, HwCodec};
use vstd::arithmetic::power2::*;
use vstd::prelude::*;

verus! {

/// How long a frame is shown at a given rate, in seconds; `None` for a rate that is not positive.
pub open spec fn frame_secs_of(frame_rate: Double) -> Option<Double> {
    if frame_rate.at_most(Double { bits: 0 }) {
        None
    } else {
        Some(quotient(Double { bits: ONE_BITS }, frame_rate))
    }
}

/// Works out how long a frame is shown at a given rate.
pub fn frame_duration(frame_rate: Double) -> (secs: Option<Double>)
    ensures
        secs == frame_secs_of(frame_rate),
{
    if frame_rate.le(Double::zero()) {
        None
    } else {
        Some(Double::one().over(frame_rate))
    }
}

/// Trying one encoder after the other.
pub struct Attempts {
    candidates: Vec<Option<HwCodec>>,
    next: usize,
}

impl Attempts {
    /// The encoders that are left to be tried.
    pub closed spec fn left(&self) -> Seq<Option<HwCodec>> {
        self.candidates@.skip(self.next as int)
    }

    pub closed spec fn wf(&self) -> bool {
        self.next <= self.candidates@.len()
    }

    /// Starts to try the encoders for a preference.
    pub fn new(pref: EncoderPref) -> (a: Attempts)
        ensures
            a.wf(),
            a.left() == candidates_of(pref),
    {
        let candidates = pref.candidates();
        assert(candidates@.skip(0) == candidates@);
        Attempts { candidates, next: 0 }
    }

    /// The next encoder to try; `None` if all have been tried. An encoder of `None` is the software
    /// encoder.
    pub fn take(&mut self) -> (candidate: Option<Option<HwCodec>>)
        requires
            old(self).wf(),
        ensures
            final(self).wf(),
            old(self).left().len() == 0 ==> candidate is None && final(self).left() == old(
                self,
            ).left(),
            old(self).left().len() > 0 ==> candidate == Some(old(self).left()[0])
                && final(self).left() == old(self).left().skip(1),
    {
        if self.next < self.candidates.len() {
            let candidate = self.candidates[self.next];
            self.next += 1;
            assert(self.left() == old(self).left().skip(1));
            Some(candidate)
        } else {
            None
        }
    }
}

/// How the pixels of a frame are laid out for an encoder.
#[derive(Clone, Copy, Debug, PartialEq, Eq, Structural)]
pub enum PixelLayout {
    /// As hardware encoders take them.
    Nv12,
    /// As the software encoder takes them.
    Yuv420p,
}

/// How the pixels of a frame are laid out for an encoder, by whether it is a hardware encoder.
pub fn layout_for(hardware: bool) -> (layout: PixelLayout)
    ensures
        layout == if hardware {
            PixelLayout::Nv12
        } else {
            PixelLayout::Yuv420p
        },
{
    if hardware {
        PixelLayout::Nv12
    } else {
        PixelLayout::Yuv420p
    }
}

/// How many frames there are from one key frame to the next.
pub const KEY_INTERVAL: u64 = 12;

/// When a frame is shown, and whether it is a key frame.
#[derive(Clone, Copy, Debug, PartialEq, Eq, Structural)]
pub struct Stamp {
    /// In units of the time base.
    pub pts: i64,
    pub key: bool,
}

/// Counts frames, and tells when they are shown.
#[derive(Clone, Copy, Debug, PartialEq, Eq, Structural)]
pub struct FrameClock {
    pub time_base: Rational,
    pub frame_count: u64,
}

/// A time in seconds, in whole units of a time base.
pub open spec fn ticks_of(secs: Double, base: Rational) -> int {
    nearest_whole(
        quotient(
            product(secs, of_signed(base.denominator as int)),
            of_signed(base.numerator as int),
        ),
    )
}

impl FrameClock {
    /// A clock before the first frame.
    pub fn new(time_base: Rational) -> (c: FrameClock)
        ensures
            c == (FrameClock { time_base, frame_count: 0 }),
    {
        FrameClock { time_base, frame_count: 0 }
    }

    /// Stamps the next frame, which is shown at a given time, in seconds.
    pub fn stamp(&mut self, timestamp_secs: Double) -> (stamp: Stamp)
        requires
            old(self).frame_count < u64::MAX,
        ensures
            stamp == (Stamp {
                pts: ticks_of(timestamp_secs, old(self).time_base) as i64,
                key: old(self).frame_count % KEY_INTERVAL == 0,
            }),
            *final(self) == (FrameClock {
                frame_count: (old(self).frame_count + 1) as u64,
                ..*old(self)
            }),
    {
        let pts: i64 = timestamp_secs.times(
            Double::from_i64(self.time_base.denominator as i64),
        ).over(Double::from_i64(self.time_base.numerator as i64)).round_to_i64();
        let key = self.frame_count % KEY_INTERVAL == 0;
        self.frame_count += 1;
        Stamp { pts, key }
    }
}

/// What comes of asking an encoder for a packet.
#[derive(Clone, Copy, Debug, PartialEq, Eq, Structural)]
pub enum PacketEvent {
    /// A packet.
    Packet,
    /// Nothing yet.
    Again,
    /// Nothing any more.
    Eof,
    /// An error.
    Failed,
}

/// What is done next.
#[derive(Clone, Copy, Debug, PartialEq, Eq, Structural)]
pub enum PacketAction {
    /// Write the packet, and ask for another.
    Write,
    /// Wait, and ask again.
    Wait,
    /// Ask no more.
    Done,
    /// Report the error.
    Fail,
}

/// What is done next while frames are still to come: what is not ready yet is left for later.
pub fn on_packet(event: PacketEvent) -> (action: PacketAction)
    ensures
        action == match event {
            PacketEvent::Packet => PacketAction::Write,
            PacketEvent::Again | PacketEvent::Eof => PacketAction::Done,
            PacketEvent::Failed => PacketAction::Fail,
        },
{
    match event {
        PacketEvent::Packet => PacketAction::Write,
        PacketEvent::Again | PacketEvent::Eof => PacketAction::Done,
        PacketEvent::Failed => PacketAction::Fail,
    }
}

/// How often in a row an encoder that has been told of the end may have nothing yet.
pub const MAX_RETRIES: u32 = 200;

/// Emptying an encoder that has been told of the end.
#[derive(Clone, Copy, Debug, PartialEq, Eq, Structural)]
pub struct Drain {
    /// How often in a row it has had nothing yet.
    pub retries: u32,
}

/// What is done next, after the encoder has had nothing yet `retries` times in a row, and how often
/// that is then.
pub open spec fn drained(retries: int, event: PacketEvent) -> (int, PacketAction) {
    match event {
        PacketEvent::Packet => (0, PacketAction::Write),
        PacketEvent::Again => (
            retries + 1,
            if retries + 1 >= MAX_RETRIES {
                PacketAction::Done
            } else {
                PacketAction::Wait
            },
        ),
        PacketEvent::Eof => (retries, PacketAction::Done),
        PacketEvent::Failed => (retries, PacketAction::Fail),
    }
}

impl Drain {
    /// Starts to empty an encoder.
    pub fn new() -> (d: Drain)
        ensures
            d.retries == 0,
    {
        Drain { retries: 0 }
    }

    /// Decides what is done next.
    pub fn on_packet(&mut self, event: PacketEvent) -> (action: PacketAction)
        requires
            old(self).retries < MAX_RETRIES,
        ensures
            (final(self).retries as int, action) == drained(old(self).retries as int, event),
            action is Write || action is Wait ==> final(self).retries < MAX_RETRIES,
    {
        match event {
            PacketEvent::Packet => {
                self.retries = 0;
                PacketAction::Write
            },
            PacketEvent::Again => {
                self.retries += 1;
                if self.retries >= MAX_RETRIES {
                    PacketAction::Done
                } else {
                    PacketAction::Wait
                }
            },
            PacketEvent::Eof => PacketAction::Done,
            PacketEvent::Failed => PacketAction::Fail,
        }
    }
}

/// How often in a row the encoder has had nothing yet, after it had nothing yet `n` times.
pub open spec fn retries_after(n: nat) -> int
    decreases n,
{
    if n == 0 {
        0
    } else {
        let (retries, action) = drained(retries_after((n - 1) as nat), PacketEvent::Again);
        retries
    }
}

/// An encoder that never has anything is given up on, after it has been asked so often and not
/// before.
pub proof fn law_drain_gives_up(n: nat)
    ensures
        ({
            let (retries, action) = drained(retries_after(n), PacketEvent::Again);
            action == if n + 1 >= MAX_RETRIES {
                PacketAction::Done
            } else {
                PacketAction::Wait
            }
        }),
{
    lemma_retries_after(n);
}

proof fn lemma_retries_after(n: nat)
    ensures
        retries_after(n) == n,
    decreases n,
{
    if n > 0 {
        lemma_retries_after((n - 1) as nat);
    }
}

/// How long the stages of encoding have taken, in microseconds.
#[derive(Clone, Copy, Debug, PartialEq, Eq, Structural)]
pub struct StageTimings {
    pub scale_us: u128,
    pub upload_us: u128,
    pub send_us: u128,
    pub write_us: u128,
    pub wait_us: u128,
    pub frames: u64,
}

impl StageTimings {
    /// No time yet.
    pub fn new() -> (t: StageTimings)
        ensures
            t == (StageTimings {
                scale_us: 0,
                upload_us: 0,
                send_us: 0,
                write_us: 0,
                wait_us: 0,
                frames: 0,
            }),
    {
        StageTimings { scale_us: 0, upload_us: 0, send_us: 0, write_us: 0, wait_us: 0, frames: 0 }
    }
}

/// A rate is one over the time that a frame is shown, to the precision of a double; only a positive
/// rate has such a time.
pub proof fn law_frame_time_is_one_over_rate(frame_rate: Double)
    requires
        frame_rate.spec_is_finite(),
    ensures
        frame_rate.value() <= 0 <==> frame_secs_of(frame_rate) is None,
        pow2(1000) <= frame_rate.value() <= pow2(1138) ==> {
            let got = frame_rate.value() * (frame_secs_of(frame_rate)->0).value();
            let exact = unit() * unit();
            &&& pow2(53) * (got - exact) <= exact
            &&& pow2(53) * (exact - got) <= exact
        },
{
    let u = unit();
    let one = Double { bits: ONE_BITS };
    let y = size(frame_rate);
    lemma2_to64();
    lemma2_to64_rest();
    lemma_pow2_pos(1074);
    crate::double::lemma_magnitudes_ordered(0, 0);
    if pow2(1000) <= frame_rate.value() <= pow2(1138) {
        crate::progress::lemma_one();
        lemma_pow2_pos(1000);
        crate::double::lemma_magnitudes_ordered(frame_rate.magnitude(), 0);
        lemma_pow2_adds(1074, 1074);
        lemma_pow2_adds(1138, 52);
        lemma_pow2_adds(1000, 1148);
        lemma_pow2_strictly_increases(1190, 2148);
        assert(u * u >= y * pow2(52)) by (nonlinear_arith)
            requires
                y <= pow2(1138),
                pow2(1190) == pow2(1138) * pow2(52),
                u * u >= pow2(1190),
        ;
        assert(u * u <= y * pow2(1148)) by (nonlinear_arith)
            requires
                y >= pow2(1000),
                u * u == pow2(1000) * pow2(1148),
        ;
        lemma_rounds_below_power(u * u, y, 1148);
        law_quotient_is_near(one, frame_rate);
    }
}

/// The time stamp of a frame is the number of units of the time base that lies nearest to its time,
/// but for the rounding of doubles.
pub proof fn law_stamp_is_nearest(secs: Double, base: Rational)
    requires
        secs.spec_is_finite(),
        secs.value() == 0 || pow2(1000) <= secs.value() <= pow2(1100),
        base.numerator > 0,
        base.denominator > 0,
    ensures
        ({
            let units = base.denominator * secs.value();
            let got = ticks_of(secs, base) * base.numerator * unit();
            let half = base.numerator * unit();
            &&& pow2(53) * (2 * (got - units)) <= pow2(53) * half + 6 * units
            &&& pow2(53) * (2 * (units - got)) <= pow2(53) * half + 6 * units
        }),
{
    let u = unit() as int;
    let t = pow2(53) as int;
    let a = base.denominator as int;
    let b = base.numerator as int;
    let x = secs.value();
    let q = quotient(product(secs, of_whole(a as nat)), of_whole(b as nat));
    lemma2_to64();
    lemma2_to64_rest();
    lemma_pow2_pos(1074);
    lemma_pow2_strictly_increases(1100, 1138);
    law_scaling_is_near(secs, a as nat, b as nat);
    let v = q.value();
    lemma_pow2_adds(31, 1100);
    lemma_pow2_adds(62, 1074);
    lemma_pow2_strictly_increases(1133, 1136);
    lemma_pow2_adds(2, 1131);
    assert(a * x <= pow2(1131)) by (nonlinear_arith)
        requires
            0 < a <= 0x8000_0000,
            0 <= x <= pow2(1100),
            pow2(1131) == 0x8000_0000 * pow2(1100),
    ;
    let y = a * x;
    assert(y >= 0) by (nonlinear_arith)
        requires
            y == a * x,
            a > 0,
            x >= 0,
    ;
    assert(v <= 4 * pow2(1131)) by (nonlinear_arith)
        requires
            t * (b * v - y) <= 3 * y,
            t >= 1,
            b >= 1,
            v >= 0,
            0 <= y <= pow2(1131),
    ;
    assert(pow2(62) * u <= i64::MAX * u) by (nonlinear_arith)
        requires
            pow2(62) <= i64::MAX,
            u > 0,
    ;
    law_nearest_whole_is_nearest(q);
    let n = ticks_of(secs, base);
    let got = n * b * u;
    assert(2 * (got - b * v) <= b * u && 2 * (b * v - got) <= b * u) by (nonlinear_arith)
        requires
            2 * (n * u - v) <= u,
            2 * (v - n * u) <= u,
            b > 0,
            got == n * b * u,
    ;
    assert(t * (2 * (got - y)) <= t * (b * u) + 6 * y) by (nonlinear_arith)
        requires
            2 * (got - b * v) <= b * u,
            t * (b * v - y) <= 3 * y,
            t > 0,
    ;
    assert(t * (2 * (y - got)) <= t * (b * u) + 6 * y) by (nonlinear_arith)
        requires
            2 * (b * v - got) <= b * u,
            t * (y - b * v) <= 3 * y,
            t > 0,
    ;
}

/// Once an encoder has given a packet, it is waited for as long as at first.
pub proof fn law_packet_renews_patience(retries: int, n: nat)
    ensures
        ({
            let (after, action) = drained(retries, PacketEvent::Packet);
            action is Write && after == retries_after(0)
        }),
{
}

} // verus!
