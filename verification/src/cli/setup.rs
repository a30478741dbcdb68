//! Settings the command line derives from its input.
use vstd::prelude::*;

use crate::api::config::{ChromaSamplePosition, ChromaSampling, EncoderConfig, PixelRange, Rational};

verus! {

/// Largest input frame: 64 × 64 × 4096 × 2304 bytes, plus 1024 bytes of
/// header, as a `usize` computed with saturating arithmetic.
pub open spec fn y4m_frame_limit_spec() -> int {
    let full: int = 64int * 64 * 4096 * 2304 + 1024;
    if full > usize::MAX {
        usize::MAX as int
    } else {
        full
    }
}

/// `a * b`, or `usize::MAX` where the product does not fit.
fn mul_saturating(a: usize, b: usize) -> (r: usize)
    ensures
        r == (if a * b > usize::MAX {
            usize::MAX as int
        } else {
            a * b
        }),
{
    match a.checked_mul(b) {
        Some(p) => p,
        None => usize::MAX,
    }
}

/// The largest number of bytes the input reader accepts for a frame: the
/// largest frame size of the specification plus the largest header,
/// computed with saturating arithmetic so that narrow targets get
/// `usize::MAX`.
pub fn y4m_frame_limit() -> (limit: usize)
    ensures
        limit == y4m_frame_limit_spec(),
{
    let a = mul_saturating(64, 64);
    let b = mul_saturating(a, 4096);
    let c = mul_saturating(b, 2304);
    c.saturating_add(1024)
}

/// What the input file says of the video.
#[derive(Clone, Copy, Debug, PartialEq, Eq, Structural)]
pub struct VideoDetails {
    /// Frame width in pixels.
    pub width: usize,
    /// Frame height in pixels.
    pub height: usize,
    /// Bits per sample.
    pub bit_depth: usize,
    /// Chroma subsampling.
    pub chroma_sampling: ChromaSampling,
    /// Chroma sample position.
    pub chroma_sample_position: ChromaSamplePosition,
    /// Time base.
    pub time_base: Rational,
}

/// The settings after taking over the input's details: its size, bit
/// depth and chroma layout always; the limited range unless a range was
/// asked for; its time base unless another was asked for.
pub open spec fn with_video_details(
    enc: EncoderConfig,
    info: VideoDetails,
    color_range_specified: bool,
    override_time_base: bool,
) -> EncoderConfig {
    EncoderConfig {
        width: info.width,
        height: info.height,
        bit_depth: info.bit_depth,
        chroma_sampling: info.chroma_sampling,
        chroma_sample_position: info.chroma_sample_position,
        pixel_range: if color_range_specified {
            enc.pixel_range
        } else {
            PixelRange::Limited
        },
        time_base: if override_time_base {
            enc.time_base
        } else {
            info.time_base
        },
        ..enc
    }
}

/// What taking the input's details over does to each setting: size, bit
/// depth and chroma layout come from the input; the pixel range is kept
/// when a range was asked for and is the limited range otherwise; the time
/// base is kept when another was asked for and is the input's otherwise;
/// every other setting is kept.
pub proof fn lemma_video_details_fields(
    enc: EncoderConfig,
    info: VideoDetails,
    color_range_specified: bool,
    override_time_base: bool,
)
    ensures
        ({
            let r = with_video_details(enc, info, color_range_specified, override_time_base);
            &&& r.width == info.width && r.height == info.height
            &&& r.bit_depth == info.bit_depth
            &&& r.chroma_sampling == info.chroma_sampling
            &&& r.chroma_sample_position == info.chroma_sample_position
            &&& color_range_specified ==> r.pixel_range == enc.pixel_range
            &&& !color_range_specified ==> r.pixel_range == PixelRange::Limited
            &&& override_time_base ==> r.time_base == enc.time_base
            &&& !override_time_base ==> r.time_base == info.time_base
            &&& r.min_key_frame_interval == enc.min_key_frame_interval
            &&& r.max_key_frame_interval == enc.max_key_frame_interval
            &&& r.rdo_lookahead_frames == enc.rdo_lookahead_frames
            &&& r.speed_settings == enc.speed_settings
        }),
{
}

/// Takes the input's details over into the encoder settings, as
/// [`with_video_details`] says.
pub fn apply_video_details(
    enc: &mut EncoderConfig,
    info: &VideoDetails,
    color_range_specified: bool,
    override_time_base: bool,
)
    ensures
        *final(enc) == with_video_details(*old(enc), *info, color_range_specified, override_time_base),
        final(enc).pixel_range == (if color_range_specified {
            old(enc).pixel_range
        } else {
            PixelRange::Limited
        }),
        final(enc).time_base == (if override_time_base {
            old(enc).time_base
        } else {
            info.time_base
        }),
        final(enc).width == info.width && final(enc).height == info.height,
        final(enc).bit_depth == info.bit_depth,
        final(enc).chroma_sampling == info.chroma_sampling,
        final(enc).chroma_sample_position == info.chroma_sample_position,
{
    enc.width = info.width;
    enc.height = info.height;
    enc.bit_depth = info.bit_depth;
    enc.chroma_sampling = info.chroma_sampling;
    enc.chroma_sample_position = info.chroma_sample_position;
    // Without a range asked for, the range of the input format's default.
    if !color_range_specified {
        enc.pixel_range = PixelRange::Limited;
    }
    if !override_time_base {
        enc.time_base = info.time_base;
    }
}

} // verus!
