use rav1e::api::config::{
    ChromaSamplePosition, ChromaSampling, EncoderConfig, PixelRange, Rational, SpeedSettings,
};
use rav1e::cli::passfile::{
    pass_file_readable, pass_record, read_pass_file, read_pass_records, PassData,
};
use rav1e::cli::setup::{apply_video_details, y4m_frame_limit, VideoDetails};
use rav1e::cli::source::FrameBudget;

fn bytes(d: &PassData) -> (bool, Vec<u8>) {
    match d {
        PassData::Summary(b) => (true, b.clone()),
        PassData::Frame(b) => (false, b.clone()),
    }
}

#[test]
fn record_is_length_then_data() {
    let r = pass_record(&PassData::Frame(vec![9, 8, 7]));
    assert!(!r.rewind);
    assert_eq!(r.bytes, vec![0, 0, 0, 3, 9, 8, 7]);
    let s = pass_record(&PassData::Summary(vec![1; 300]));
    assert!(s.rewind);
    assert_eq!(&s.bytes[..4], &[0, 0, 1, 44]);
    assert_eq!(s.bytes.len(), 304);
}

#[test]
fn file_reads_back_summary_then_frames() {
    let mut file = Vec::new();
    file.extend(pass_record(&PassData::Summary(vec![1, 2])).bytes);
    file.extend(pass_record(&PassData::Frame(vec![3])).bytes);
    file.extend(pass_record(&PassData::Frame(vec![])).bytes);
    assert!(pass_file_readable(&file));
    let out: Vec<(bool, Vec<u8>)> = read_pass_file(&file).iter().map(bytes).collect();
    assert_eq!(out, vec![(true, vec![1, 2]), (false, vec![3]), (false, vec![])]);
}

#[test]
fn trailing_partial_length_is_ignored() {
    let file = vec![0, 0, 0, 1, 5, 0, 0];
    assert!(pass_file_readable(&file));
    let out: Vec<(bool, Vec<u8>)> = read_pass_file(&file).iter().map(bytes).collect();
    assert_eq!(out, vec![(true, vec![5])]);
}

#[test]
fn oversized_or_short_record_is_unreadable() {
    assert!(!pass_file_readable(&[0, 0, 0, 65]));
    assert!(!pass_file_readable(&[0, 0, 0, 3, 1, 2]));
    assert!(pass_file_readable(&[]));
}

#[test]
fn rewinding_summary_replaces_the_first() {
    // The first pass writes a summary, frames, then seeks back and writes
    // the final summary of the same length.
    let mut file: Vec<u8> = Vec::new();
    let mut pos = 0usize;
    for d in [
        PassData::Summary(vec![0; 4]),
        PassData::Frame(vec![7]),
        PassData::Summary(vec![9; 4]),
    ] {
        let r = pass_record(&d);
        if r.rewind {
            pos = 0;
        }
        for (i, b) in r.bytes.iter().enumerate() {
            if pos + i < file.len() {
                file[pos + i] = *b;
            } else {
                file.push(*b);
            }
        }
        pos += r.bytes.len();
    }
    let out: Vec<(bool, Vec<u8>)> = read_pass_file(&file).iter().map(bytes).collect();
    assert_eq!(out, vec![(true, vec![9; 4]), (false, vec![7])]);
}

#[test]
fn frame_budget_limit() {
    let mut b = FrameBudget::new(2);
    assert!(b.may_read());
    b.count_frame(8);
    assert!(b.may_read());
    b.count_frame(10);
    assert!(!b.may_read());
    assert_eq!(b.frames_read(), 2);
}

#[test]
fn frame_budget_without_limit() {
    let mut b = FrameBudget::new(0);
    for _ in 0..100 {
        assert!(b.may_read());
        b.count_frame(12);
    }
    assert!(b.may_read());
}

#[test]
fn y4m_limit_value() {
    let expected: u64 = 64 * 64 * 4096 * 2304 + 1024;
    assert_eq!(y4m_frame_limit() as u64, expected.min(usize::MAX as u64));
}

fn enc() -> EncoderConfig {
    EncoderConfig {
        width: 1,
        height: 1,
        bit_depth: 8,
        chroma_sampling: ChromaSampling::Cs444,
        chroma_sample_position: ChromaSamplePosition::Unknown,
        pixel_range: PixelRange::Full,
        time_base: Rational { num: 1, den: 25 },
        min_key_frame_interval: 12,
        max_key_frame_interval: 240,
        rdo_lookahead_frames: 40,
        speed_settings: SpeedSettings { no_scene_detection: false },
    }
}

fn details() -> VideoDetails {
    VideoDetails {
        width: 640,
        height: 360,
        bit_depth: 10,
        chroma_sampling: ChromaSampling::Cs420,
        chroma_sample_position: ChromaSamplePosition::Colocated,
        time_base: Rational { num: 1001, den: 30000 },
    }
}

#[test]
fn video_details_defaults() {
    let mut e = enc();
    apply_video_details(&mut e, &details(), false, false);
    assert_eq!((e.width, e.height, e.bit_depth), (640, 360, 10));
    assert_eq!(e.chroma_sampling, ChromaSampling::Cs420);
    assert_eq!(e.chroma_sample_position, ChromaSamplePosition::Colocated);
    assert_eq!(e.pixel_range, PixelRange::Limited);
    assert_eq!(e.time_base, Rational { num: 1001, den: 30000 });
}

#[test]
fn video_details_keep_asked_settings() {
    let mut e = enc();
    apply_video_details(&mut e, &details(), true, true);
    assert_eq!(e.pixel_range, PixelRange::Full);
    assert_eq!(e.time_base, Rational { num: 1, den: 25 });
    assert_eq!(e.max_key_frame_interval, 240);
}

#[test]
fn good_records_before_a_failure_are_read() {
    let mut file = Vec::new();
    file.extend(pass_record(&PassData::Summary(vec![4])).bytes);
    file.extend(pass_record(&PassData::Frame(vec![5, 6])).bytes);
    file.extend([0, 0, 0, 9, 1]);
    let (records, ok) = read_pass_records(&file);
    assert!(!ok);
    let out: Vec<(bool, Vec<u8>)> = records.iter().map(bytes).collect();
    assert_eq!(out, vec![(true, vec![4]), (false, vec![5, 6])]);
}
