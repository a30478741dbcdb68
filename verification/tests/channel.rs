use rav1e::api::channel::Sequence;
use rav1e::api::config::{
    ChromaSamplePosition, ChromaSampling, Config, EncoderConfig, PixelRange, RateControlConfig,
    Rational, SpeedSettings,
};

fn config(bit_depth: usize, cs: ChromaSampling) -> Config {
    Config {
        enc: EncoderConfig {
            width: 64,
            height: 48,
            bit_depth,
            chroma_sampling: cs,
            chroma_sample_position: ChromaSamplePosition::Unknown,
            pixel_range: PixelRange::Limited,
            time_base: Rational { num: 1, den: 30 },
            min_key_frame_interval: 12,
            max_key_frame_interval: 240,
            rdo_lookahead_frames: 40,
            speed_settings: SpeedSettings { no_scene_detection: false },
        },
        rate_control: RateControlConfig { emit_pass_data: false, summary: None },
        threads: 0,
    }
}

#[test]
fn header_8bit_420() {
    let h = config(8, ChromaSampling::Cs420).container_sequence_header();
    assert_eq!(h, vec![0x81, 0x1f, 0x0c, 0x00]);
}

#[test]
fn header_10bit_420() {
    let h = config(10, ChromaSampling::Cs420).container_sequence_header();
    assert_eq!(h, vec![0x81, 0x1f, 0x4c, 0x00]);
}

#[test]
fn header_8bit_444_is_high_profile() {
    let h = config(8, ChromaSampling::Cs444).container_sequence_header();
    assert_eq!(h, vec![0x81, 0x3f, 0x00, 0x00]);
}

#[test]
fn header_12bit_is_professional_profile() {
    let h = config(12, ChromaSampling::Cs444).container_sequence_header();
    assert_eq!(h, vec![0x81, 0x5f, 0x60, 0x00]);
}

#[test]
fn header_422_is_professional_profile() {
    let h = config(8, ChromaSampling::Cs422).container_sequence_header();
    assert_eq!(h, vec![0x81, 0x5f, 0x08, 0x00]);
}

#[test]
fn header_monochrome() {
    let h = config(8, ChromaSampling::Cs400).container_sequence_header();
    assert_eq!(h, vec![0x81, 0x1f, 0x1c, 0x00]);
}

#[test]
fn header_colocated_420_sample_position() {
    let mut cfg = config(8, ChromaSampling::Cs420);
    cfg.enc.chroma_sample_position = ChromaSamplePosition::Colocated;
    assert_eq!(cfg.container_sequence_header(), vec![0x81, 0x1f, 0x0e, 0x00]);
    cfg.enc.chroma_sample_position = ChromaSamplePosition::Vertical;
    assert_eq!(cfg.container_sequence_header(), vec![0x81, 0x1f, 0x0d, 0x00]);
}

#[test]
fn header_sample_position_only_for_420() {
    let mut cfg = config(10, ChromaSampling::Cs444);
    cfg.enc.chroma_sample_position = ChromaSamplePosition::Colocated;
    assert_eq!(cfg.container_sequence_header(), vec![0x81, 0x3f, 0x40, 0x00]);
}

#[test]
fn sequence_profile() {
    assert_eq!(Sequence::new(&config(10, ChromaSampling::Cs420).enc).profile, 0);
    assert_eq!(Sequence::new(&config(10, ChromaSampling::Cs444).enc).profile, 1);
    assert_eq!(Sequence::new(&config(10, ChromaSampling::Cs422).enc).profile, 2);
    assert_eq!(Sequence::new(&config(12, ChromaSampling::Cs420).enc).profile, 2);
}
