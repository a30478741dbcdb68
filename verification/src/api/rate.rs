//! Two-pass rate control: the summary and frame packets that a first pass
//! emits, the checks a second pass makes on them, and summary merging.
//!
//! A summary packet is [`RC_SUMMARY_PACKET_SIZE`] bytes: six big-endian
//! 64-bit fields (format version, width, height, bit depth, chroma
//! subsampling code, number of frames) followed by zero bytes. A frame
//! packet is [`RC_FRAME_PACKET_SIZE`] bytes of statistics.
use vstd::prelude::*;

use crate::api::config::{validation, ChromaSampling, Config, EncoderConfig, InvalidConfig};
use crate::util::Pixel;

verus! {

/// Errors of the rate-control setup.
#[derive(Clone, Copy, Debug, PartialEq, Eq, Structural)]
pub enum RcError {
    /// The summary was written in a format this encoder does not read.
    InvalidVersion,
    /// The summary does not match the configuration.
    ConfigurationMismatch,
    /// The configuration itself is not valid.
    InvalidConfiguration(InvalidConfig),
}

/// Size in bytes of a rate-control summary packet.
pub const RC_SUMMARY_PACKET_SIZE: usize = 64;

/// Size in bytes of a frame-specific rate-control packet.
pub const RC_FRAME_PACKET_SIZE: usize = 16;

/// Format version written in, and required of, summary packets.
pub const RC_SUMMARY_VERSION: u64 = 1;

/// The eight bytes of `n`, most significant first.
pub open spec fn be64(n: u64) -> Seq<u8> {
    seq![
        (n >> 56u64) as u8,
        (n >> 48u64) as u8,
        (n >> 40u64) as u8,
        (n >> 32u64) as u8,
        (n >> 24u64) as u8,
        (n >> 16u64) as u8,
        (n >> 8u64) as u8,
        n as u8,
    ]
}

/// The number whose bytes, most significant first, are the eight bytes of
/// `b` from `at` on.
pub open spec fn from_be64(b: Seq<u8>, at: int) -> u64 {
    ((b[at] as u64) << 56u64) | ((b[at + 1] as u64) << 48u64) | ((b[at + 2] as u64) << 40u64) | ((
    b[at + 3] as u64) << 32u64) | ((b[at + 4] as u64) << 24u64) | ((b[at + 5] as u64) << 16u64)
        | ((b[at + 6] as u64) << 8u64) | (b[at + 7] as u64)
}

/// Reading back the bytes of a number gives the number.
pub proof fn lemma_be64_read_back(n: u64, b: Seq<u8>, at: int)
    requires
        0 <= at,
        at + 8 <= b.len(),
        b.subrange(at, at + 8) == be64(n),
    ensures
        from_be64(b, at) == n,
{
    let c = b.subrange(at, at + 8);
    assert(c[0] == b[at] && c[1] == b[at + 1] && c[2] == b[at + 2] && c[3] == b[at + 3]);
    assert(c[4] == b[at + 4] && c[5] == b[at + 5] && c[6] == b[at + 6] && c[7] == b[at + 7]);
    let (b0, b1, b2, b3, b4, b5, b6, b7) = (c[0], c[1], c[2], c[3], c[4], c[5], c[6], c[7]);
    assert((((b0 as u64) << 56u64) | ((b1 as u64) << 48u64) | ((b2 as u64) << 40u64) | ((
    b3 as u64) << 32u64) | ((b4 as u64) << 24u64) | ((b5 as u64) << 16u64) | ((b6 as u64) << 8u64)
        | (b7 as u64)) == n) by (bit_vector)
        requires
            b0 == (n >> 56u64) as u8,
            b1 == (n >> 48u64) as u8,
            b2 == (n >> 40u64) as u8,
            b3 == (n >> 32u64) as u8,
            b4 == (n >> 24u64) as u8,
            b5 == (n >> 16u64) as u8,
            b6 == (n >> 8u64) as u8,
            b7 == n as u8,
    ;
}

/// Writing the number that eight bytes give gives the bytes again.
pub proof fn lemma_be64_write_back(b: Seq<u8>, at: int)
    requires
        0 <= at,
        at + 8 <= b.len(),
    ensures
        be64(from_be64(b, at)) == b.subrange(at, at + 8),
{
    let (b0, b1, b2, b3, b4, b5, b6, b7) = (
        b[at],
        b[at + 1],
        b[at + 2],
        b[at + 3],
        b[at + 4],
        b[at + 5],
        b[at + 6],
        b[at + 7],
    );
    let n = from_be64(b, at);
    assert(n == ((b0 as u64) << 56u64) | ((b1 as u64) << 48u64) | ((b2 as u64) << 40u64) | ((
    b3 as u64) << 32u64) | ((b4 as u64) << 24u64) | ((b5 as u64) << 16u64) | ((b6 as u64) << 8u64)
        | (b7 as u64));
    assert((n >> 56u64) as u8 == b0 && (n >> 48u64) as u8 == b1 && (n >> 40u64) as u8 == b2 && (n
        >> 32u64) as u8 == b3 && (n >> 24u64) as u8 == b4 && (n >> 16u64) as u8 == b5 && (n
        >> 8u64) as u8 == b6 && n as u8 == b7) by (bit_vector)
        requires
            n == ((b0 as u64) << 56u64) | ((b1 as u64) << 48u64) | ((b2 as u64) << 40u64) | ((
            b3 as u64) << 32u64) | ((b4 as u64) << 24u64) | ((b5 as u64) << 16u64) | ((
            b6 as u64) << 8u64) | (b7 as u64),
    ;
    assert(be64(n) =~= b.subrange(at, at + 8));
}

/// The code a summary gives a chroma subsampling.
pub open spec fn chroma_code(cs: ChromaSampling) -> u64 {
    match cs {
        ChromaSampling::Cs420 => 0,
        ChromaSampling::Cs422 => 1,
        ChromaSampling::Cs444 => 2,
        ChromaSampling::Cs400 => 3,
    }
}

/// The summary packet that a first pass over `frames` frames encoded with
/// `enc` emits.
pub open spec fn summary_bytes(enc: EncoderConfig, frames: u64) -> Seq<u8> {
    be64(RC_SUMMARY_VERSION) + be64(enc.width as u64) + be64(enc.height as u64) + be64(
        enc.bit_depth as u64,
    ) + be64(chroma_code(enc.chroma_sampling)) + be64(frames) + Seq::new(16, |i: int| 0u8)
}

/// Field `k` of a summary packet.
pub open spec fn summary_field(b: Seq<u8>, k: int) -> u64 {
    from_be64(b, 8 * k)
}

/// A summary packet in the format this encoder reads: the packet size and
/// the format version.
pub open spec fn summary_readable(b: Seq<u8>) -> bool {
    b.len() == RC_SUMMARY_PACKET_SIZE && summary_field(b, 0) == RC_SUMMARY_VERSION
}

/// A summary written for the same picture format as `enc`: width, height,
/// bit depth and chroma subsampling.
pub open spec fn summary_matches(b: Seq<u8>, enc: EncoderConfig) -> bool {
    &&& summary_field(b, 1) == enc.width as u64
    &&& summary_field(b, 2) == enc.height as u64
    &&& summary_field(b, 3) == enc.bit_depth as u64
    &&& summary_field(b, 4) == chroma_code(enc.chroma_sampling)
}

/// Two summaries for the same picture format.
pub open spec fn same_format(a: Seq<u8>, b: Seq<u8>) -> bool {
    forall|k: int| 1 <= k <= 4 ==> summary_field(a, k) == summary_field(b, k)
}

/// The number of frames a summary counts.
pub open spec fn summary_frames(b: Seq<u8>) -> u64 {
    summary_field(b, 5)
}

/// A first-pass summary is readable, matches the configuration it was
/// written for, and counts the frames it was written for.
pub proof fn lemma_first_pass_summary_accepted(enc: EncoderConfig, frames: u64)
    ensures
        summary_readable(summary_bytes(enc, frames)),
        summary_matches(summary_bytes(enc, frames), enc),
        summary_frames(summary_bytes(enc, frames)) == frames,
{
    let b = summary_bytes(enc, frames);
    assert(b.len() == 64);
    assert(b.subrange(0, 8) =~= be64(RC_SUMMARY_VERSION));
    lemma_be64_read_back(RC_SUMMARY_VERSION, b, 0);
    assert(b.subrange(8, 16) =~= be64(enc.width as u64));
    lemma_be64_read_back(enc.width as u64, b, 8);
    assert(b.subrange(16, 24) =~= be64(enc.height as u64));
    lemma_be64_read_back(enc.height as u64, b, 16);
    assert(b.subrange(24, 32) =~= be64(enc.bit_depth as u64));
    lemma_be64_read_back(enc.bit_depth as u64, b, 24);
    assert(b.subrange(32, 40) =~= be64(chroma_code(enc.chroma_sampling)));
    lemma_be64_read_back(chroma_code(enc.chroma_sampling), b, 32);
    assert(b.subrange(40, 48) =~= be64(frames));
    lemma_be64_read_back(frames, b, 40);
}

/// Reads the 64-bit big-endian field at `at`.
fn read_be64(b: &[u8], at: usize) -> (n: u64)
    requires
        at + 8 <= b@.len(),
    ensures
        n == from_be64(b@, at as int),
{
    ((b[at] as u64) << 56u64) | ((b[at + 1] as u64) << 48u64) | ((b[at + 2] as u64) << 40u64) | ((
    b[at + 3] as u64) << 32u64) | ((b[at + 4] as u64) << 24u64) | ((b[at + 5] as u64) << 16u64)
        | ((b[at + 6] as u64) << 8u64) | (b[at + 7] as u64)
}

/// Appends the bytes of `n`, most significant first.
fn push_be64(v: &mut Vec<u8>, n: u64)
    ensures
        final(v)@ == old(v)@ + be64(n),
{
    v.push((n >> 56u64) as u8);
    v.push((n >> 48u64) as u8);
    v.push((n >> 40u64) as u8);
    v.push((n >> 32u64) as u8);
    v.push((n >> 24u64) as u8);
    v.push((n >> 16u64) as u8);
    v.push((n >> 8u64) as u8);
    v.push(n as u8);
    assert(final(v)@ =~= old(v)@ + be64(n));
}

/// The code a summary gives a chroma subsampling.
fn chroma_code_of(cs: ChromaSampling) -> (c: u64)
    ensures
        c == chroma_code(cs),
{
    match cs {
        ChromaSampling::Cs420 => 0,
        ChromaSampling::Cs422 => 1,
        ChromaSampling::Cs444 => 2,
        ChromaSampling::Cs400 => 3,
    }
}

/// Builds the summary packet of a first pass over `frames` frames.
fn make_summary(enc: &EncoderConfig, frames: u64) -> (b: Vec<u8>)
    ensures
        b@ == summary_bytes(*enc, frames),
{
    let mut b: Vec<u8> = Vec::new();
    push_be64(&mut b, RC_SUMMARY_VERSION);
    push_be64(&mut b, enc.width as u64);
    push_be64(&mut b, enc.height as u64);
    push_be64(&mut b, enc.bit_depth as u64);
    push_be64(&mut b, chroma_code_of(enc.chroma_sampling));
    push_be64(&mut b, frames);
    let mut i: usize = 0;
    while i < 16
        invariant
            i <= 16,
            b@ == summary_bytes(*enc, frames).take(48 + i),
        decreases 16 - i,
    {
        b.push(0u8);
        i = i + 1;
        assert(b@ =~= summary_bytes(*enc, frames).take(48 + i));
    }
    assert(summary_bytes(*enc, frames).take(64) =~= summary_bytes(*enc, frames));
    b
}

/// Whether `b` is a readable summary, as [`summary_readable`] says.
fn is_readable_summary(b: &[u8]) -> (ok: bool)
    ensures
        ok == summary_readable(b@),
{
    b.len() == RC_SUMMARY_PACKET_SIZE && read_be64(b, 0) == RC_SUMMARY_VERSION
}

/// Whether the readable summary `b` matches `enc`, as [`summary_matches`]
/// says.
fn summary_fits(b: &[u8], enc: &EncoderConfig) -> (ok: bool)
    requires
        b@.len() == RC_SUMMARY_PACKET_SIZE,
    ensures
        ok == summary_matches(b@, *enc),
{
    read_be64(b, 8) == enc.width as u64 && read_be64(b, 16) == enc.height as u64 && read_be64(b, 24)
        == enc.bit_depth as u64 && read_be64(b, 32) == chroma_code_of(enc.chroma_sampling)
}

impl Config {
    /// Sets up the rate control of the configuration from a first-pass
    /// summary. A summary in another format or version is an
    /// `InvalidVersion` error; one written for another picture format is a
    /// `ConfigurationMismatch` error. Either way the configuration stays as
    /// it was; otherwise it keeps the summary for the second pass.
    pub fn rc_setup_twopass(&mut self, summary: &[u8]) -> (r: Result<(), RcError>)
        ensures
            !summary_readable(summary@) ==> r == Err::<(), RcError>(RcError::InvalidVersion)
                && *final(self) == *old(self),
            summary_readable(summary@) && !summary_matches(summary@, old(self).enc) ==> r == Err::<
                (),
                RcError,
            >(RcError::ConfigurationMismatch) && *final(self) == *old(self),
            summary_readable(summary@) && summary_matches(summary@, old(self).enc) ==> {
                &&& r is Ok
                &&& final(self).enc == old(self).enc
                &&& final(self).threads == old(self).threads
                &&& final(self).rate_control.emit_pass_data == old(self).rate_control.emit_pass_data
                &&& (final(self).rate_control.summary matches Some(s) && s@ == summary@)
            },
            r is Ok ==> summary@.len() == 64 && from_be64(summary@, 0) == RC_SUMMARY_VERSION
                && from_be64(summary@, 8) == old(self).enc.width as u64 && from_be64(summary@, 16)
                == old(self).enc.height as u64 && from_be64(summary@, 24) == old(self).enc.bit_depth as u64
                && from_be64(summary@, 32) == chroma_code(old(self).enc.chroma_sampling),
    {
        if !is_readable_summary(summary) {
            return Err(RcError::InvalidVersion);
        }
        if !summary_fits(summary, &self.enc) {
            return Err(RcError::ConfigurationMismatch);
        }
        self.rate_control.summary = Some(vstd::slice::slice_to_vec(summary));
        Ok(())
    }

    /// Sets up the rate control to emit first-pass data and returns the
    /// sizes in bytes of the summary packet and of a frame packet; an error,
    /// with the configuration left as it was, where the settings are not
    /// valid.
    pub fn rc_setup_first_pass(&mut self) -> (r: Result<(usize, usize), RcError>)
        ensures
            validation(old(self).enc) is Err ==> r == Err::<(usize, usize), RcError>(
                RcError::InvalidConfiguration(validation(old(self).enc)->Err_0),
            ) && *final(self) == *old(self),
            validation(old(self).enc) is Ok ==> {
                &&& (r matches Ok((s, f)) && s == RC_SUMMARY_PACKET_SIZE && f == RC_FRAME_PACKET_SIZE)
                &&& final(self).rate_control.emit_pass_data
                &&& final(self).rate_control.summary == old(self).rate_control.summary
                &&& final(self).enc == old(self).enc
                &&& final(self).threads == old(self).threads
            },
    {
        if let Err(e) = self.validate() {
            return Err(RcError::InvalidConfiguration(e));
        }
        self.rate_control.emit_pass_data = true;
        Ok((RC_SUMMARY_PACKET_SIZE, RC_FRAME_PACKET_SIZE))
    }
}

/// Rate-control summary packet.
pub struct Summary(Vec<u8>);

/// Rate-control frame-specific packet.
pub struct Frame(Vec<u8>);

impl View for Summary {
    type V = Seq<u8>;

    closed spec fn view(&self) -> Seq<u8> {
        self.0@
    }
}

impl View for Frame {
    type V = Seq<u8>;

    closed spec fn view(&self) -> Seq<u8> {
        self.0@
    }
}

impl Summary {
    /// A summary packet holding `bytes`.
    pub fn new(bytes: Vec<u8>) -> (s: Self)
        ensures
            s@ == bytes@,
    {
        Summary(bytes)
    }

    /// The bytes of the packet.
    pub fn bytes(&self) -> (b: &[u8])
        ensures
            b@ == self@,
    {
        self.0.as_slice()
    }
}

impl Frame {
    /// A frame packet holding `bytes`.
    pub fn new(bytes: Vec<u8>) -> (f: Self)
        ensures
            f@ == bytes@,
    {
        Frame(bytes)
    }

    /// The bytes of the packet.
    pub fn bytes(&self) -> (b: &[u8])
        ensures
            b@ == self@,
    {
        self.0.as_slice()
    }
}

/// Rate-control data.
pub enum RcData {
    /// A rate-control summary packet.
    Summary(Summary),
    /// A rate-control frame-specific packet.
    Frame(Frame),
}

/// The abstract value of rate-control data: whether it is a summary, and
/// its bytes.
pub open spec fn rc_data_view(d: RcData) -> (bool, Seq<u8>) {
    match d {
        RcData::Summary(s) => (true, s@),
        RcData::Frame(f) => (false, f@),
    }
}

/// The rate-control state of a context.
pub struct RcState {
    /// Frames whose first-pass statistics were recorded.
    pub frames: u64,
    /// First-pass frame packets not handed out yet, oldest first.
    pub queue: Seq<Seq<u8>>,
    /// The summary fed to the second pass, if any.
    pub summary_in: Option<Seq<u8>>,
    /// The frame packets fed to the second pass, in order.
    pub frames_in: Seq<Seq<u8>>,
}

/// Every first-pass frame packet waiting has the frame packet size.
pub open spec fn packets_sized(s: RcState) -> bool {
    forall|i: int| 0 <= i < s.queue.len() ==> (#[trigger] s.queue[i]).len() == RC_FRAME_PACKET_SIZE
}

/// An encoder context over pixels of type `T`.
pub struct Context<T: Pixel> {
    config: Config,
    pixel: core::marker::PhantomData<T>,
    first_pass_frames: u64,
    first_pass_queue: Vec<Vec<u8>>,
    second_pass_summary: Option<Vec<u8>>,
    second_pass_frames: Vec<Vec<u8>>,
}

impl<T: Pixel> Context<T> {
    /// The configuration the context encodes with.
    pub closed spec fn config(&self) -> Config {
        self.config
    }

    /// The rate-control state.
    pub closed spec fn rc_state(&self) -> RcState {
        RcState {
            frames: self.first_pass_frames,
            queue: self.first_pass_queue@.map_values(|v: Vec<u8>| v@),
            summary_in: match self.second_pass_summary {
                Some(v) => Some(v@),
                None => None,
            },
            frames_in: self.second_pass_frames@.map_values(|v: Vec<u8>| v@),
        }
    }

    /// Makes a context that encodes with `config`, with no rate-control
    /// data yet.
    pub fn new(config: Config) -> (ctx: Self)
        ensures
            ctx.config() == config,
            ctx.rc_state() == (RcState {
                frames: 0,
                queue: Seq::empty(),
                summary_in: None,
                frames_in: Seq::empty(),
            }),
            packets_sized(ctx.rc_state()),
    {
        let ctx = Context {
            config,
            pixel: core::marker::PhantomData,
            first_pass_frames: 0,
            first_pass_queue: Vec::new(),
            second_pass_summary: None,
            second_pass_frames: Vec::new(),
        };
        assert(ctx.rc_state().queue =~= Seq::<Seq<u8>>::empty());
        assert(ctx.rc_state().frames_in =~= Seq::<Seq<u8>>::empty());
        ctx
    }

    /// Records the first-pass statistics of a frame the encoder encoded.
    /// When first-pass data is emitted, they wait to be handed out and the
    /// frame is counted; otherwise nothing changes.
    pub fn rc_record_frame(&mut self, stats: &[u8])
        requires
            stats@.len() == RC_FRAME_PACKET_SIZE,
            old(self).rc_state().frames < u64::MAX,
        ensures
            final(self).config() == old(self).config(),
            old(self).config().rate_control.emit_pass_data ==> final(self).rc_state() == (RcState {
                frames: (old(self).rc_state().frames + 1) as u64,
                queue: old(self).rc_state().queue.push(stats@),
                ..old(self).rc_state()
            }),
            !old(self).config().rate_control.emit_pass_data ==> final(self).rc_state() == old(
                self,
            ).rc_state(),
            packets_sized(old(self).rc_state()) ==> packets_sized(final(self).rc_state()),
    {
        if self.config.rate_control.emit_pass_data {
            let ghost q0 = self.first_pass_queue@;
            self.first_pass_frames = self.first_pass_frames + 1;
            self.first_pass_queue.push(vstd::slice::slice_to_vec(stats));
            assert(self.first_pass_queue@.map_values(|v: Vec<u8>| v@) =~= q0.map_values(
                |v: Vec<u8>| v@,
            ).push(stats@));
        }
    }

    /// Returns the first-pass data: the frame packets recorded, oldest
    /// first, and, when none waits, the summary of the frames recorded so
    /// far. It is an error when the configuration does not emit first-pass
    /// data.
    pub fn rc_first_pass_data(&mut self) -> (r: Result<RcData, ()>)
        ensures
            final(self).config() == old(self).config(),
            !old(self).config().rate_control.emit_pass_data ==> r is Err && final(self).rc_state()
                == old(self).rc_state(),
            old(self).config().rate_control.emit_pass_data && old(self).rc_state().queue.len() > 0
                ==> (r matches Ok(d) && rc_data_view(d) == (false, old(self).rc_state().queue[0]))
                && final(self).rc_state() == (RcState {
                queue: old(self).rc_state().queue.drop_first(),
                ..old(self).rc_state()
            }),
            old(self).config().rate_control.emit_pass_data && old(self).rc_state().queue.len() == 0
                ==> (r matches Ok(d) && rc_data_view(d) == (
                true,
                summary_bytes(old(self).config().enc, old(self).rc_state().frames),
            )) && final(self).rc_state() == old(self).rc_state(),
            packets_sized(old(self).rc_state()) ==> packets_sized(final(self).rc_state()),
            packets_sized(old(self).rc_state()) && r is Ok ==> {
                let d = rc_data_view(r->Ok_0);
                (d.0 && d.1.len() == RC_SUMMARY_PACKET_SIZE) || (!d.0 && d.1.len()
                    == RC_FRAME_PACKET_SIZE)
            },
    {
        if !self.config.rate_control.emit_pass_data {
            return Err(());
        }
        if self.first_pass_queue.len() > 0 {
            let ghost q0 = self.first_pass_queue@;
            let f = self.first_pass_queue.remove(0);
            assert(self.first_pass_queue@.map_values(|v: Vec<u8>| v@) =~= q0.map_values(
                |v: Vec<u8>| v@,
            ).drop_first());
            Ok(RcData::Frame(Frame(f)))
        } else {
            Ok(RcData::Summary(Summary(make_summary(&self.config.enc, self.first_pass_frames))))
        }
    }

    /// Feeds first-pass data to the encoder, which keeps it: a summary
    /// replaces the one kept before, frame packets are kept in order.
    pub fn rc_second_pass_data(&mut self, data: RcData) -> (r: Result<(), ()>)
        ensures
            final(self).config() == old(self).config(),
            r is Ok,
            final(self).rc_state().queue == old(self).rc_state().queue,
            rc_data_view(data).0 ==> final(self).rc_state() == (RcState {
                summary_in: Some(rc_data_view(data).1),
                ..old(self).rc_state()
            }),
            !rc_data_view(data).0 ==> final(self).rc_state() == (RcState {
                frames_in: old(self).rc_state().frames_in.push(rc_data_view(data).1),
                ..old(self).rc_state()
            }),
    {
        match data {
            RcData::Summary(Summary(b)) => {
                self.second_pass_summary = Some(b);
                Ok(())
            },
            RcData::Frame(Frame(b)) => {
                let ghost f0 = self.second_pass_frames@;
                let ghost bv = b@;
                self.second_pass_frames.push(b);
                assert(self.second_pass_frames@.map_values(|v: Vec<u8>| v@) =~= f0.map_values(
                    |v: Vec<u8>| v@,
                ).push(bv));
                Ok(())
            },
        }
    }
}

/// The frames that a series of summaries count together.
pub open spec fn total_frames(ss: Seq<Seq<u8>>) -> int
    decreases ss.len(),
{
    if ss.len() == 0 {
        0
    } else {
        total_frames(ss.drop_last()) + summary_frames(ss.last())
    }
}

/// The merge of a series of summaries: none for an empty series, for a
/// summary that is not readable, for summaries of different picture
/// formats, or when the frame count does not fit 64 bits; otherwise the
/// first summary with the frames of all counted.
pub open spec fn merged_summary(ss: Seq<Seq<u8>>) -> Option<Seq<u8>> {
    if ss.len() == 0 {
        None
    } else if exists|i: int|
        0 <= i < ss.len() && !(summary_readable(#[trigger] ss[i]) && same_format(ss[i], ss[0])) {
        None
    } else if total_frames(ss) > u64::MAX {
        None
    } else {
        Some(ss[0].subrange(0, 40) + be64(total_frames(ss) as u64) + ss[0].subrange(48, 64))
    }
}

/// Merges a set of summaries into one that counts the frames of all, as
/// [`merged_summary`] says; an error where it gives none.
pub fn rc_merge_summaries(summaries: &[Summary]) -> (r: Result<RcData, ()>)
    ensures
        match merged_summary(summaries@.map_values(|s: Summary| s@)) {
            Some(m) => r matches Ok(d) && rc_data_view(d) == (true, m),
            None => r is Err,
        },
{
    let ghost ss = summaries@.map_values(|s: Summary| s@);
    if summaries.len() == 0 {
        return Err(());
    }
    let first = summaries[0].bytes();
    let mut total: u64 = 0;
    let mut i: usize = 0;
    while i < summaries.len()
        invariant
            0 < summaries@.len(),
            ss == summaries@.map_values(|s: Summary| s@),
            first@ == ss[0],
            i <= summaries@.len(),
            forall|j: int| 0 <= j < i ==> summary_readable(#[trigger] ss[j]) && same_format(ss[j], ss[0]),
            total == total_frames(ss.take(i as int)),
        decreases summaries@.len() - i,
    {
        let b = summaries[i].bytes();
        if !is_readable_summary(b) {
            assert(!summary_readable(ss[i as int]));
            return Err(());
        }
        if !(read_be64(b, 8) == read_be64(first, 8) && read_be64(b, 16) == read_be64(first, 16)
            && read_be64(b, 24) == read_be64(first, 24) && read_be64(b, 32) == read_be64(first, 32)) {
            assert(ss[i as int] == b@);
            assert(!same_format(ss[i as int], ss[0])) by {
                if from_be64(b@, 8) != from_be64(first@, 8) {
                    assert(summary_field(ss[i as int], 1) != summary_field(ss[0], 1));
                } else if from_be64(b@, 16) != from_be64(first@, 16) {
                    assert(summary_field(ss[i as int], 2) != summary_field(ss[0], 2));
                } else if from_be64(b@, 24) != from_be64(first@, 24) {
                    assert(summary_field(ss[i as int], 3) != summary_field(ss[0], 3));
                } else {
                    assert(summary_field(ss[i as int], 4) != summary_field(ss[0], 4));
                }
            }
            return Err(());
        }
        assert(same_format(ss[i as int], ss[0]));
        let n = read_be64(b, 40);
        assert(ss.take(i + 1).drop_last() =~= ss.take(i as int));
        match total.checked_add(n) {
            Some(t) => {
                total = t;
            },
            None => {
                proof {
                    lemma_total_frames_monotone(ss, i + 1);
                }
                return Err(());
            },
        }
        i = i + 1;
    }
    assert(ss.take(i as int) =~= ss);
    let mut m: Vec<u8> = Vec::new();
    let mut k: usize = 0;
    while k < 40
        invariant
            k <= 40,
            first@.len() == 64,
            m@ == first@.take(k as int),
        decreases 40 - k,
    {
        m.push(first[k]);
        k = k + 1;
        assert(m@ =~= first@.take(k as int));
    }
    push_be64(&mut m, total);
    let mut k: usize = 48;
    while k < 64
        invariant
            48 <= k <= 64,
            first@.len() == 64,
            m@ == first@.take(40) + be64(total) + first@.subrange(48, k as int),
        decreases 64 - k,
    {
        m.push(first[k]);
        k = k + 1;
        assert(m@ =~= first@.take(40) + be64(total) + first@.subrange(48, k as int));
    }
    assert(first@.take(40) =~= first@.subrange(0, 40));
    Ok(RcData::Summary(Summary(m)))
}

/// The frames of a prefix never exceed the frames of a longer prefix.
pub proof fn lemma_total_frames_monotone(ss: Seq<Seq<u8>>, n: int)
    requires
        0 <= n <= ss.len(),
    ensures
        total_frames(ss.take(n)) <= total_frames(ss),
    decreases ss.len() - n,
{
    if n < ss.len() {
        lemma_total_frames_monotone(ss, n + 1);
        assert(ss.take(n + 1).drop_last() =~= ss.take(n));
    } else {
        assert(ss.take(n) =~= ss);
    }
}

/// Merging a single readable summary gives it back unchanged.
pub proof fn lemma_merge_single(b: Seq<u8>)
    requires
        summary_readable(b),
    ensures
        merged_summary(seq![b]) == Some(b),
{
    let ss = seq![b];
    assert(ss.drop_last() =~= Seq::<Seq<u8>>::empty());
    assert(ss.last() == b);
    assert(total_frames(Seq::<Seq<u8>>::empty()) == 0);
    assert(total_frames(ss) == summary_frames(b));
    lemma_be64_write_back(b, 40);
    assert(b.subrange(0, 40) + be64(summary_frames(b)) + b.subrange(48, 64) =~= b);
}

/// Merging the first-pass summaries of two runs over the same
/// configuration gives the summary of a run over all their frames.
pub proof fn lemma_merge_first_pass(enc: EncoderConfig, n: u64, m: u64)
    requires
        n + m <= u64::MAX,
    ensures
        merged_summary(seq![summary_bytes(enc, n), summary_bytes(enc, m)]) == Some(
            summary_bytes(enc, (n + m) as u64),
        ),
{
    let a = summary_bytes(enc, n);
    let b = summary_bytes(enc, m);
    let ss = seq![a, b];
    lemma_first_pass_summary_accepted(enc, n);
    lemma_first_pass_summary_accepted(enc, m);
    assert(ss.drop_last() =~= seq![a]);
    assert(seq![a].drop_last() =~= Seq::<Seq<u8>>::empty());
    assert(ss.last() == b && seq![a].last() == a);
    assert(total_frames(Seq::<Seq<u8>>::empty()) == 0);
    assert(total_frames(seq![a]) == n);
    assert(total_frames(ss) == n + m);
    assert forall|i: int| 0 <= i < ss.len() implies summary_readable(#[trigger] ss[i]) && same_format(
        ss[i],
        ss[0],
    ) by {
        if i == 1 {
            assert(ss[1] == b);
        }
    }
    assert(a.subrange(0, 40) + be64((n + m) as u64) + a.subrange(48, 64) =~= summary_bytes(
        enc,
        (n + m) as u64,
    ));
}

/// What the two passes promise each other: the summary a first pass hands
/// out is accepted by a second pass over the same configuration.
pub proof fn lemma_first_pass_summary_fits_second_pass(enc: EncoderConfig, frames: u64)
    ensures
        summary_readable(summary_bytes(enc, frames)) && summary_matches(summary_bytes(enc, frames), enc),
{
    lemma_first_pass_summary_accepted(enc, frames);
}

/// A first-pass summary is accepted exactly by the configurations of the
/// picture format it was written for: same width, height, bit depth and
/// chroma subsampling, whatever the frame count.
pub proof fn lemma_summary_matches_same_format(e1: EncoderConfig, n: u64, e2: EncoderConfig)
    ensures
        summary_matches(summary_bytes(e1, n), e2) <==> (e1.width == e2.width && e1.height
            == e2.height && e1.bit_depth == e2.bit_depth && e1.chroma_sampling == e2.chroma_sampling),
{
    let b = summary_bytes(e1, n);
    assert(b.subrange(8, 16) =~= be64(e1.width as u64));
    lemma_be64_read_back(e1.width as u64, b, 8);
    assert(b.subrange(16, 24) =~= be64(e1.height as u64));
    lemma_be64_read_back(e1.height as u64, b, 16);
    assert(b.subrange(24, 32) =~= be64(e1.bit_depth as u64));
    lemma_be64_read_back(e1.bit_depth as u64, b, 24);
    assert(b.subrange(32, 40) =~= be64(chroma_code(e1.chroma_sampling)));
    lemma_be64_read_back(chroma_code(e1.chroma_sampling), b, 32);
}

/// Two-pass setup with a first-pass summary succeeds exactly on a
/// configuration of the same picture format, and keeps that summary.
pub proof fn lemma_twopass_setup_needs_same_format(e1: EncoderConfig, n: u64, e2: EncoderConfig)
    ensures
        summary_readable(summary_bytes(e1, n)),
        summary_matches(summary_bytes(e1, n), e2) <==> (e1.width == e2.width && e1.height
            == e2.height && e1.bit_depth == e2.bit_depth && e1.chroma_sampling == e2.chroma_sampling),
{
    lemma_first_pass_summary_accepted(e1, n);
    lemma_summary_matches_same_format(e1, n, e2);
}

} // verus!
