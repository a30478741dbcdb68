use rav1e::api::config::{
    ChromaSamplePosition, ChromaSampling, Config, EncoderConfig, InvalidConfig, PixelRange,
    RateControlConfig, Rational, SpeedSettings,
};
use rav1e::api::pool::{
    flush_step, lookahead_step, poll_before_feeding, worker_config, worker_slots, ByGopPlan, DrainStep, EncoderStatus,
    GopCounter,
};

fn config() -> Config {
    Config {
        enc: EncoderConfig {
            width: 64,
            height: 48,
            bit_depth: 8,
            chroma_sampling: ChromaSampling::Cs420,
            chroma_sample_position: ChromaSamplePosition::Unknown,
            pixel_range: PixelRange::Limited,
            time_base: Rational { num: 1, den: 30 },
            min_key_frame_interval: 12,
            max_key_frame_interval: 240,
            rdo_lookahead_frames: 40,
            speed_settings: SpeedSettings { no_scene_detection: false },
        },
        rate_control: RateControlConfig { emit_pass_data: false, summary: None },
        threads: 3,
    }
}

#[test]
fn flush_steps() {
    assert_eq!(flush_step(Ok(())), DrainStep::Emit);
    assert_eq!(flush_step(Err(EncoderStatus::LimitReached)), DrainStep::Stop);
    assert_eq!(flush_step(Err(EncoderStatus::Encoded)), DrainStep::Retry);
}

#[test]
fn lookahead_steps() {
    assert_eq!(lookahead_step(Ok(())), DrainStep::Emit);
    assert_eq!(lookahead_step(Err(EncoderStatus::Encoded)), DrainStep::Retry);
}

#[test]
fn worker_config_turns_scene_detection_off() {
    let w = worker_config(config());
    assert!(w.enc.speed_settings.no_scene_detection);
    assert_eq!(w.enc.max_key_frame_interval, 240);
    assert_eq!(w.threads, 3);
}

#[test]
fn worker_slots_are_numbered() {
    assert_eq!(worker_slots(4), vec![0, 1, 2, 3]);
    assert!(worker_slots(0).is_empty());
}

#[test]
fn gop_indices_count_up() {
    let mut c = GopCounter::new();
    assert_eq!(c.next_index(), 0);
    assert_eq!(c.next_index(), 1);
    assert_eq!(c.next_index(), 2);
    assert_eq!(c.issued(), 3);
}

#[test]
fn poll_only_with_lookahead_enough() {
    assert!(poll_before_feeding(false));
    assert!(!poll_before_feeding(true));
}

#[test]
fn by_gop_plan_sizes() {
    assert_eq!(config().by_gop_plan(), Ok(ByGopPlan { input_len: 160, frame_limit: 2147483647 }));
}

#[test]
fn by_gop_plan_refuses_two_pass() {
    let mut cfg = config();
    cfg.rate_control.emit_pass_data = true;
    assert_eq!(cfg.by_gop_plan(), Err(InvalidConfig::RateControlConfigurationMismatch));
    let mut cfg = config();
    cfg.rate_control.summary = Some(vec![0; 64]);
    assert_eq!(cfg.by_gop_plan(), Err(InvalidConfig::RateControlConfigurationMismatch));
}

#[test]
fn by_gop_plan_checks_the_settings() {
    let mut cfg = config();
    cfg.enc.width = 0;
    assert_eq!(cfg.by_gop_plan(), Err(InvalidConfig::InvalidWidth(0)));
    let mut cfg = config();
    cfg.enc.rdo_lookahead_frames = 41;
    assert_eq!(
        cfg.by_gop_plan(),
        Err(InvalidConfig::InvalidRdoLookaheadFrames { actual: 41, max: 40, min: 1 })
    );
}

#[test]
fn validate_settings() {
    assert_eq!(config().validate(), Ok(()));
    let mut cfg = config();
    cfg.enc.height = 70000;
    assert_eq!(cfg.validate(), Err(InvalidConfig::InvalidHeight(70000)));
    let mut cfg = config();
    cfg.enc.bit_depth = 9;
    assert_eq!(cfg.validate(), Err(InvalidConfig::InvalidBitDepth(9)));
    let mut cfg = config();
    cfg.enc.max_key_frame_interval = 1 << 40;
    assert_eq!(
        cfg.validate(),
        Err(InvalidConfig::InvalidMaxKeyFrameInterval { actual: 1 << 40, max: 1073741823 })
    );
    let mut cfg = config();
    cfg.enc.time_base = Rational { num: 1, den: 0 };
    assert_eq!(cfg.validate(), Err(InvalidConfig::InvalidFrameRateNum { actual: 0, max: 4294967295 }));
    let mut cfg = config();
    cfg.enc.time_base = Rational { num: 0, den: 30 };
    assert_eq!(cfg.validate(), Err(InvalidConfig::InvalidFrameRateDen { actual: 0, max: 4294967295 }));
}
