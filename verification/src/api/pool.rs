use vstd::prelude::*;

use crate::api::config::{validation, Config, EncoderConfig, InvalidConfig, SpeedSettings};

verus! {

/// Status answers of an encoder asked for a packet.
#[derive(Clone, Copy, Debug, PartialEq, Eq, Structural)]
pub enum EncoderStatus {
    /// More frames are needed before a packet can come.
    NeedMoreData,
    /// No more frames are taken until packets are taken out.
    EnoughData,
    /// Every frame up to the limit was encoded.
    LimitReached,
    /// A frame was encoded without producing a packet.
    Encoded,
    /// The encoder failed.
    Failure,
    /// The first-pass data is not ready yet.
    NotReady,
}

/// What a worker does with one answer of the encoder.
#[derive(Clone, Copy, Debug, PartialEq, Eq, Structural)]
pub enum DrainStep {
    /// Send the packet on and ask again.
    Emit,
    /// Ask again.
    Retry,
    /// Stop asking: the encoder is done.
    Stop,
}

/// The answers a flushing encoder gives: a packet, the limit, or a frame
/// encoded without packet.
pub open spec fn flush_answer(answer: Result<(), EncoderStatus>) -> bool {
    answer is Ok || answer == Err::<(), EncoderStatus>(EncoderStatus::LimitReached) || answer
        == Err::<(), EncoderStatus>(EncoderStatus::Encoded)
}

/// Decides what a flushing worker does with an answer of the encoder
/// (`Ok` stands for a packet): pass a packet on, stop at the limit, ask
/// again after a frame encoded without packet. The other answers are not
/// expected at this point.
pub fn flush_step(answer: Result<(), EncoderStatus>) -> (step: DrainStep)
    requires
        flush_answer(answer),
    ensures
        step == (match answer {
            Ok(()) => DrainStep::Emit,
            Err(EncoderStatus::LimitReached) => DrainStep::Stop,
            _ => DrainStep::Retry,
        }),
{
    match answer {
        Ok(()) => DrainStep::Emit,
        Err(EncoderStatus::LimitReached) => DrainStep::Stop,
        Err(_) => DrainStep::Retry,
    }
}

/// Decides what a worker that is fed frames does with an answer of the
/// encoder while the encoder has lookahead enough (`Ok` stands for a
/// packet): pass a packet on, or ask again after a frame encoded without
/// packet. The other answers are not expected at this point.
pub fn lookahead_step(answer: Result<(), EncoderStatus>) -> (step: DrainStep)
    requires
        answer is Ok || answer == Err::<(), EncoderStatus>(EncoderStatus::Encoded),
    ensures
        step == (if answer is Ok {
            DrainStep::Emit
        } else {
            DrainStep::Retry
        }),
{
    match answer {
        Ok(()) => DrainStep::Emit,
        Err(_) => DrainStep::Retry,
    }
}

/// Decides whether a worker asks the encoder for a packet before it feeds
/// the next frame: only when the encoder has lookahead enough.
pub fn poll_before_feeding(needs_more_fi_lookahead: bool) -> (poll: bool)
    ensures
        poll == !needs_more_fi_lookahead,
{
    !needs_more_fi_lookahead
}

/// The configuration the workers encode with: the given one with the
/// encoder's own scene detection turned off, since the GOPs are cut before.
pub fn worker_config(cfg: Config) -> (w: Config)
    ensures
        w.enc == (EncoderConfig {
            speed_settings: SpeedSettings { no_scene_detection: true },
            ..cfg.enc
        }),
        w.rate_control == cfg.rate_control,
        w.threads == cfg.threads,
{
    let mut cfg = cfg;
    cfg.enc.speed_settings.no_scene_detection = true;
    cfg
}

/// The worker slots a pool of `workers` starts with: one per worker, by
/// increasing number.
pub fn worker_slots(workers: usize) -> (slots: Vec<usize>)
    ensures
        slots@ == Seq::new(workers as nat, |i: int| i as usize),
{
    let mut slots: Vec<usize> = Vec::new();
    let mut w: usize = 0;
    while w < workers
        invariant
            w <= workers,
            slots@ == Seq::new(w as nat, |i: int| i as usize),
        decreases workers - w,
    {
        slots.push(w);
        w = w + 1;
        assert(slots@ =~= Seq::new(w as nat, |i: int| i as usize));
    }
    slots
}

/// Hands out GOP indices to the workers in the order they are started.
pub struct GopCounter {
    count: usize,
}

impl GopCounter {
    /// The number of indices handed out.
    pub closed spec fn count(&self) -> usize {
        self.count
    }

    /// No index handed out yet.
    pub fn new() -> (c: Self)
        ensures
            c.count() == 0,
    {
        GopCounter { count: 0 }
    }

    /// The number of indices handed out.
    pub fn issued(&self) -> (n: usize)
        ensures
            n == self.count(),
    {
        self.count
    }

    /// The index of the next GOP: 0, 1, 2, and so on.
    pub fn next_index(&mut self) -> (idx: usize)
        requires
            old(self).count() < usize::MAX,
        ensures
            idx == old(self).count(),
            final(self).count() == old(self).count() + 1,
    {
        let idx = self.count;
        self.count = idx + 1;
        idx
    }
}

/// The sizes of the channels of a GOP-parallel encode.
#[derive(Clone, Copy, Debug, PartialEq, Eq, Structural)]
pub struct ByGopPlan {
    /// How many input frames may wait to be split.
    pub input_len: usize,
    /// The most frames the frame sender takes.
    pub frame_limit: u64,
}

/// The rate-control settings ask for two passes: that is, first-pass data
/// is to be emitted or a summary is given.
pub open spec fn wants_two_pass(cfg: Config) -> bool {
    cfg.rate_control.emit_pass_data || cfg.rate_control.summary is Some
}

impl Config {
    /// Checks that a GOP-parallel encode fits this configuration and sizes
    /// its channels: two-pass rate control is refused, then the settings
    /// are checked; otherwise four frames per frame of lookahead may wait,
    /// and the sender takes up to `i32::MAX` frames.
    pub fn by_gop_plan(&self) -> (r: Result<ByGopPlan, InvalidConfig>)
        ensures
            wants_two_pass(*self) ==> r == Err::<ByGopPlan, InvalidConfig>(
                InvalidConfig::RateControlConfigurationMismatch,
            ),
            !wants_two_pass(*self) && validation(self.enc) is Err ==> r == Err::<ByGopPlan, InvalidConfig>(
                validation(self.enc)->Err_0,
            ),
            !wants_two_pass(*self) && validation(self.enc) is Ok ==> r == Ok::<ByGopPlan, InvalidConfig>(
                ByGopPlan {
                    input_len: (self.enc.rdo_lookahead_frames * 4) as usize,
                    frame_limit: i32::MAX as u64,
                },
            ),
    {
        let rc = &self.rate_control;
        if rc.emit_pass_data || rc.summary.is_some() {
            return Err(InvalidConfig::RateControlConfigurationMismatch);
        }
        self.validate()?;
        let input_len = self.enc.rdo_lookahead_frames * 4;
        let frame_limit = i32::MAX as u64;
        Ok(ByGopPlan { input_len, frame_limit })
    }
}

} // verus!
