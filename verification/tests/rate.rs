use rav1e::api::config::{
    ChromaSamplePosition, ChromaSampling, Config, EncoderConfig, InvalidConfig, PixelRange,
    RateControlConfig,
    Rational, SpeedSettings,
};
use rav1e::api::context::Context;
use rav1e::api::rate::{
    rc_merge_summaries, Frame, RcData, RcError, Summary, RC_FRAME_PACKET_SIZE,
    RC_SUMMARY_PACKET_SIZE,
};

fn config() -> Config {
    Config {
        enc: EncoderConfig {
            width: 64,
            height: 48,
            bit_depth: 8,
            chroma_sampling: ChromaSampling::Cs420,
            chroma_sample_position: ChromaSamplePosition::Unknown,
            pixel_range: PixelRange::Limited,
            time_base: Rational { num: 1, den: 30 },
            min_key_frame_interval: 12,
            max_key_frame_interval: 240,
            rdo_lookahead_frames: 40,
            speed_settings: SpeedSettings { no_scene_detection: false },
        },
        rate_control: RateControlConfig { emit_pass_data: false, summary: None },
        threads: 0,
    }
}

fn first_pass_cfg() -> Config {
    let mut cfg = config();
    cfg.rc_setup_first_pass().unwrap();
    cfg
}

fn summary_bytes(d: RcData) -> Vec<u8> {
    match d {
        RcData::Summary(s) => s.bytes().to_vec(),
        RcData::Frame(_) => panic!("expected a summary"),
    }
}

fn be64(b: &[u8], at: usize) -> u64 {
    u64::from_be_bytes(b[at..at + 8].try_into().unwrap())
}

/// A first-pass summary over `frames` frames for `cfg`.
fn summary_of(cfg: &Config, frames: usize) -> Vec<u8> {
    let mut cfg = cfg.clone();
    cfg.rc_setup_first_pass().unwrap();
    let mut ctx: Context<u8> = Context::new(cfg);
    for _ in 0..frames {
        ctx.rc_record_frame(&[7; 16]);
    }
    for _ in 0..frames {
        assert!(matches!(ctx.rc_first_pass_data(), Ok(RcData::Frame(_))));
    }
    summary_bytes(ctx.rc_first_pass_data().unwrap())
}

#[test]
fn first_pass_packet_sizes() {
    let mut cfg = config();
    assert_eq!(cfg.rc_setup_first_pass().unwrap(), (64, 16));
    assert!(cfg.rate_control.emit_pass_data);
    assert_eq!(RC_SUMMARY_PACKET_SIZE, 64);
    assert_eq!(RC_FRAME_PACKET_SIZE, 16);
}

#[test]
fn first_pass_data_frames_then_summary() {
    let mut ctx: Context<u8> = Context::new(first_pass_cfg());
    let s0 = summary_bytes(ctx.rc_first_pass_data().unwrap());
    assert_eq!(s0.len(), 64);
    assert_eq!(be64(&s0, 0), 1);
    assert_eq!(be64(&s0, 8), 64);
    assert_eq!(be64(&s0, 16), 48);
    assert_eq!(be64(&s0, 24), 8);
    assert_eq!(be64(&s0, 32), 0);
    assert_eq!(be64(&s0, 40), 0);
    assert_eq!(&s0[48..], &[0u8; 16][..]);
    ctx.rc_record_frame(&[1; 16]);
    ctx.rc_record_frame(&[2; 16]);
    match ctx.rc_first_pass_data() {
        Ok(RcData::Frame(f)) => assert_eq!(f.bytes(), &[1u8; 16][..]),
        _ => panic!("expected the first frame packet"),
    }
    match ctx.rc_first_pass_data() {
        Ok(RcData::Frame(f)) => assert_eq!(f.bytes(), &[2u8; 16][..]),
        _ => panic!("expected the second frame packet"),
    }
    let s = summary_bytes(ctx.rc_first_pass_data().unwrap());
    assert_eq!(be64(&s, 40), 2);
}

#[test]
fn first_pass_data_needs_first_pass_setup() {
    let mut ctx: Context<u8> = Context::new(config());
    ctx.rc_record_frame(&[1; 16]);
    assert!(ctx.rc_first_pass_data().is_err());
}

#[test]
fn two_pass_setup_accepts_matching_summary() {
    let summary = summary_of(&config(), 3);
    let mut cfg = config();
    assert_eq!(cfg.rc_setup_twopass(&summary), Ok(()));
    assert_eq!(cfg.rate_control.summary, Some(summary));
    assert_eq!(cfg.enc, config().enc);
}

#[test]
fn two_pass_setup_refuses_bad_version() {
    let mut cfg = config();
    assert_eq!(cfg.rc_setup_twopass(&[]), Err(RcError::InvalidVersion));
    let mut summary = summary_of(&config(), 3);
    summary[7] = 2;
    assert_eq!(cfg.rc_setup_twopass(&summary), Err(RcError::InvalidVersion));
    assert_eq!(cfg.rc_setup_twopass(&summary[..63]), Err(RcError::InvalidVersion));
    assert!(cfg.rate_control.summary.is_none());
}

#[test]
fn two_pass_setup_refuses_other_format() {
    let mut other = config();
    other.enc.width = 128;
    let summary = summary_of(&other, 3);
    let mut cfg = config();
    assert_eq!(cfg.rc_setup_twopass(&summary), Err(RcError::ConfigurationMismatch));
    let mut other = config();
    other.enc.chroma_sampling = ChromaSampling::Cs444;
    assert_eq!(cfg.rc_setup_twopass(&summary_of(&other, 1)), Err(RcError::ConfigurationMismatch));
    assert!(cfg.rate_control.summary.is_none());
}

#[test]
fn second_pass_data_is_kept() {
    let mut ctx: Context<u8> = Context::new(config());
    assert!(ctx.rc_second_pass_data(RcData::Summary(Summary::new(summary_of(&config(), 2)))).is_ok());
    assert!(ctx.rc_second_pass_data(RcData::Frame(Frame::new(vec![0; 16]))).is_ok());
    assert!(ctx.rc_second_pass_data(RcData::Frame(Frame::new(vec![0; 15]))).is_ok());
}

#[test]
fn first_pass_setup_refuses_invalid_config() {
    let mut cfg = config();
    cfg.enc.width = 0;
    assert_eq!(
        cfg.rc_setup_first_pass(),
        Err(RcError::InvalidConfiguration(InvalidConfig::InvalidWidth(0)))
    );
    assert!(!cfg.rate_control.emit_pass_data);
    let mut cfg = config();
    cfg.enc.bit_depth = 0;
    assert_eq!(
        cfg.rc_setup_first_pass(),
        Err(RcError::InvalidConfiguration(InvalidConfig::InvalidBitDepth(0)))
    );
}

#[test]
fn merging_no_summary_is_an_error() {
    assert!(rc_merge_summaries(&[]).is_err());
}

#[test]
fn merging_one_summary_gives_it_back() {
    let s = summary_of(&config(), 5);
    let merged = summary_bytes(rc_merge_summaries(&[Summary::new(s.clone())]).unwrap());
    assert_eq!(merged, s);
}

#[test]
fn merging_counts_all_frames() {
    let merged = summary_bytes(
        rc_merge_summaries(&[Summary::new(summary_of(&config(), 2)), Summary::new(summary_of(&config(), 3))])
            .unwrap(),
    );
    assert_eq!(merged, summary_of(&config(), 5));
}

#[test]
fn merging_different_formats_is_an_error() {
    let mut other = config();
    other.enc.bit_depth = 10;
    assert!(rc_merge_summaries(&[Summary::new(summary_of(&config(), 2)), Summary::new(summary_of(&other, 3))])
        .is_err());
    assert!(rc_merge_summaries(&[Summary::new(vec![0; 64])]).is_err());
}
