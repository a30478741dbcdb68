use vstd::prelude::*;

verus! {

/// Chroma subsampling of the coded video.
#[derive(Clone, Copy, Debug, PartialEq, Eq, Structural)]
pub enum ChromaSampling {
    /// Both chroma planes are subsampled horizontally and vertically.
    Cs420,
    /// Both chroma planes are subsampled horizontally.
    Cs422,
    /// No chroma subsampling.
    Cs444,
    /// Monochrome: no chroma planes.
    Cs400,
}

/// Position of the chroma samples relative to the luma samples.
#[derive(Clone, Copy, Debug, PartialEq, Eq, Structural)]
pub enum ChromaSamplePosition {
    /// Not signalled.
    Unknown,
    /// Vertically aligned with the even luma rows.
    Vertical,
    /// Co-located with the top-left luma sample.
    Colocated,
}

/// Range of the pixel values.
#[derive(Clone, Copy, Debug, PartialEq, Eq, Structural)]
pub enum PixelRange {
    /// Studio swing.
    Limited,
    /// Full swing.
    Full,
}

/// A fraction, used for time bases.
#[derive(Clone, Copy, Debug, PartialEq, Eq, Structural)]
pub struct Rational {
    /// Numerator.
    pub num: u64,
    /// Denominator.
    pub den: u64,
}

/// Speed related encoder switches.
#[derive(Clone, Copy, Debug, PartialEq, Eq, Structural)]
pub struct SpeedSettings {
    /// Turns the encoder's own scene-change detection off.
    pub no_scene_detection: bool,
}

/// The encoder settings that the channel layer reads.
#[derive(Clone, Copy, Debug, PartialEq, Eq, Structural)]
pub struct EncoderConfig {
    /// Frame width in pixels.
    pub width: usize,
    /// Frame height in pixels.
    pub height: usize,
    /// Bits per sample.
    pub bit_depth: usize,
    /// Chroma subsampling.
    pub chroma_sampling: ChromaSampling,
    /// Chroma sample position.
    pub chroma_sample_position: ChromaSamplePosition,
    /// Pixel value range.
    pub pixel_range: PixelRange,
    /// Time base of the stream.
    pub time_base: Rational,
    /// Minimum distance between two key frames.
    pub min_key_frame_interval: u64,
    /// Maximum distance between two key frames.
    pub max_key_frame_interval: u64,
    /// Number of frames the rate-distortion optimisation looks ahead.
    pub rdo_lookahead_frames: usize,
    /// Speed switches.
    pub speed_settings: SpeedSettings,
}

/// Rate-control settings.
#[derive(Clone, Debug)]
pub struct RateControlConfig {
    /// Whether the encoder emits first-pass statistics.
    pub emit_pass_data: bool,
    /// First-pass summary fed to a second pass, if any.
    pub summary: Option<Vec<u8>>,
}

/// Encoder configuration: settings, rate control and thread count.
#[derive(Clone, Debug)]
pub struct Config {
    /// Encoder settings.
    pub enc: EncoderConfig,
    /// Rate-control settings.
    pub rate_control: RateControlConfig,
    /// Number of threads, 0 for the default.
    pub threads: usize,
}

/// Reasons why a configuration cannot be used.
#[derive(Clone, Copy, Debug, PartialEq, Eq, Structural)]
pub enum InvalidConfig {
    /// The width is outside 16 to 65535 pixels.
    InvalidWidth(usize),
    /// The height is outside 16 to 65535 pixels.
    InvalidHeight(usize),
    /// The bit depth is not 8, 10 or 12.
    InvalidBitDepth(usize),
    /// The rate-distortion lookahead is outside its bounds.
    InvalidRdoLookaheadFrames {
        /// The value given.
        actual: usize,
        /// The largest value taken.
        max: usize,
        /// The smallest value taken.
        min: usize,
    },
    /// The maximum key-frame interval is above its bound.
    InvalidMaxKeyFrameInterval {
        /// The value given.
        actual: u64,
        /// The largest value taken.
        max: u64,
    },
    /// The frame rate numerator (the time base denominator) is 0 or does not
    /// fit 32 bits.
    InvalidFrameRateNum {
        /// The value given.
        actual: u64,
        /// The largest value taken.
        max: u64,
    },
    /// The frame rate denominator (the time base numerator) is 0 or does not
    /// fit 32 bits.
    InvalidFrameRateDen {
        /// The value given.
        actual: u64,
        /// The largest value taken.
        max: u64,
    },
    /// Two-pass rate control was asked of an encoder mode that cannot do it.
    RateControlConfigurationMismatch,
}

/// Largest rate-distortion lookahead, in frames.
pub const MAX_RDO_LOOKAHEAD_FRAMES: usize = 40;

/// Largest maximum key-frame interval.
pub const MAX_MAX_KEY_FRAME_INTERVAL: u64 = 1073741823;

/// Largest frame dimension.
pub const MAX_DIMENSION: usize = 65535;

/// Smallest frame dimension.
pub const MIN_DIMENSION: usize = 16;

/// The check of encoder settings: the first setting out of bounds, in the
/// order width, height, bit depth, lookahead, key-frame interval, frame rate.
pub open spec fn validation(enc: EncoderConfig) -> Result<(), InvalidConfig> {
    if enc.width < MIN_DIMENSION || enc.width > MAX_DIMENSION {
        Err(InvalidConfig::InvalidWidth(enc.width))
    } else if enc.height < MIN_DIMENSION || enc.height > MAX_DIMENSION {
        Err(InvalidConfig::InvalidHeight(enc.height))
    } else if !(enc.bit_depth == 8 || enc.bit_depth == 10 || enc.bit_depth == 12) {
        Err(InvalidConfig::InvalidBitDepth(enc.bit_depth))
    } else if enc.rdo_lookahead_frames < 1 || enc.rdo_lookahead_frames > MAX_RDO_LOOKAHEAD_FRAMES {
        Err(
            InvalidConfig::InvalidRdoLookaheadFrames {
                actual: enc.rdo_lookahead_frames,
                max: MAX_RDO_LOOKAHEAD_FRAMES,
                min: 1,
            },
        )
    } else if enc.max_key_frame_interval > MAX_MAX_KEY_FRAME_INTERVAL {
        Err(
            InvalidConfig::InvalidMaxKeyFrameInterval {
                actual: enc.max_key_frame_interval,
                max: MAX_MAX_KEY_FRAME_INTERVAL,
            },
        )
    } else if enc.time_base.den == 0 || enc.time_base.den > u32::MAX {
        Err(InvalidConfig::InvalidFrameRateNum { actual: enc.time_base.den, max: u32::MAX as u64 })
    } else if enc.time_base.num == 0 || enc.time_base.num > u32::MAX {
        Err(InvalidConfig::InvalidFrameRateDen { actual: enc.time_base.num, max: u32::MAX as u64 })
    } else {
        Ok(())
    }
}

impl Config {
    /// Checks the encoder settings, as [`validation`] says.
    pub fn validate(&self) -> (r: Result<(), InvalidConfig>)
        ensures
            r == validation(self.enc),
    {
        let enc = &self.enc;
        if enc.width < MIN_DIMENSION || enc.width > MAX_DIMENSION {
            return Err(InvalidConfig::InvalidWidth(enc.width));
        }
        if enc.height < MIN_DIMENSION || enc.height > MAX_DIMENSION {
            return Err(InvalidConfig::InvalidHeight(enc.height));
        }
        if !(enc.bit_depth == 8 || enc.bit_depth == 10 || enc.bit_depth == 12) {
            return Err(InvalidConfig::InvalidBitDepth(enc.bit_depth));
        }
        if enc.rdo_lookahead_frames < 1 || enc.rdo_lookahead_frames > MAX_RDO_LOOKAHEAD_FRAMES {
            return Err(
                InvalidConfig::InvalidRdoLookaheadFrames {
                    actual: enc.rdo_lookahead_frames,
                    max: MAX_RDO_LOOKAHEAD_FRAMES,
                    min: 1,
                },
            );
        }
        if enc.max_key_frame_interval > MAX_MAX_KEY_FRAME_INTERVAL {
            return Err(
                InvalidConfig::InvalidMaxKeyFrameInterval {
                    actual: enc.max_key_frame_interval,
                    max: MAX_MAX_KEY_FRAME_INTERVAL,
                },
            );
        }
        if enc.time_base.den == 0 || enc.time_base.den > u32::MAX as u64 {
            return Err(
                InvalidConfig::InvalidFrameRateNum { actual: enc.time_base.den, max: u32::MAX as u64 },
            );
        }
        if enc.time_base.num == 0 || enc.time_base.num > u32::MAX as u64 {
            return Err(
                InvalidConfig::InvalidFrameRateDen { actual: enc.time_base.num, max: u32::MAX as u64 },
            );
        }
        Ok(())
    }
}

/// The settings pass the check exactly when every bound holds: width and
/// height from 16 to 65535, bit depth 8, 10 or 12, lookahead from 1 to 40
/// frames, maximum key-frame interval at most 1073741823, and both parts of
/// the time base from 1 to `u32::MAX`; and a failure names the setting that
/// is out of bounds, with its value.
pub proof fn lemma_validation_bounds(enc: EncoderConfig)
    ensures
        (validation(enc) is Ok) <==> (16 <= enc.width <= 65535 && 16 <= enc.height <= 65535 && (
        enc.bit_depth == 8 || enc.bit_depth == 10 || enc.bit_depth == 12) && 1
            <= enc.rdo_lookahead_frames <= 40 && enc.max_key_frame_interval <= 1073741823 && 1
            <= enc.time_base.num <= 0xffff_ffff && 1 <= enc.time_base.den <= 0xffff_ffff),
        !(16 <= enc.width <= 65535) ==> validation(enc) == Err::<(), InvalidConfig>(
            InvalidConfig::InvalidWidth(enc.width),
        ),
        16 <= enc.width <= 65535 && !(16 <= enc.height <= 65535) ==> validation(enc) == Err::<
            (),
            InvalidConfig,
        >(InvalidConfig::InvalidHeight(enc.height)),
{
}

} // verus!
