use rav1e::api::by_gop::{GopSplitter, Reassembler, SceneChange, SubGop, PYRAMID_SIZE};

fn view(gs: &[SubGop<u32>]) -> Vec<(Vec<u32>, bool)> {
    gs.iter().map(|g| (g.frames.clone(), g.end_gop)).collect()
}

fn run(min: u64, max: u64, distance: usize, n: u32) -> (Vec<(Vec<u32>, bool)>, Vec<(Vec<u32>, bool)>) {
    let mut s = GopSplitter::new(min, max, distance);
    let mut pushed = Vec::new();
    for f in 0..n {
        if let Some(g) = s.push(f) {
            pushed.push(g);
        }
    }
    let drained = s.finish();
    (view(&pushed), view(&drained))
}

#[test]
fn scene_change_splits_at_pyramid_size() {
    let mut sc = SceneChange::new(5, 10);
    let la: Vec<u32> = (0..9).collect();
    assert_eq!(sc.split(&la), Some((PYRAMID_SIZE, false)));
}

#[test]
fn scene_change_key_frame_due_splits_before_last() {
    let mut sc = SceneChange::new(0, 2);
    let la: Vec<u32> = (0..4).collect();
    assert_eq!(sc.split(&la), None);
    assert_eq!(sc.split(&la), Some((3, true)));
    // The counter restarts after a key frame.
    assert_eq!(sc.split(&la), None);
}

#[test]
fn scene_change_waits_for_min_interval() {
    let mut sc = SceneChange::new(3, 1);
    let la: Vec<u32> = (0..3).collect();
    assert_eq!(sc.split(&la), None);
    assert_eq!(sc.split(&la), None);
    assert_eq!(sc.split(&la), Some((2, true)));
}

#[test]
fn splitter_long_gop() {
    let (pushed, drained) = run(5, 10, 3, 12);
    assert_eq!(pushed, vec![((0..7).collect::<Vec<u32>>(), false)]);
    assert_eq!(drained, vec![(vec![7, 8, 9, 10], true), (vec![11], true)]);
}

#[test]
fn splitter_short_gops() {
    let (pushed, drained) = run(2, 3, 1, 5);
    assert_eq!(pushed, vec![(vec![0, 1], true)]);
    assert_eq!(drained, vec![(vec![2, 3], true), (vec![4], true)]);
}

#[test]
fn splitter_no_key_frame_in_reach() {
    let (pushed, drained) = run(0, 30, 1, 20);
    assert_eq!(
        pushed,
        vec![((0..7).collect::<Vec<u32>>(), false), ((7..14).collect::<Vec<u32>>(), false)]
    );
    assert_eq!(drained, vec![((14..20).collect::<Vec<u32>>(), true)]);
}

#[test]
fn splitter_key_frame_on_single_frame_gives_empty_gop() {
    let (pushed, drained) = run(2, 2, 1, 1);
    assert!(pushed.is_empty());
    assert_eq!(drained, vec![(vec![], true), (vec![0], true)]);
}

#[test]
fn splitter_waits_for_lookahead_distance() {
    let (pushed, drained) = run(3, 5, 2, 9);
    assert_eq!(pushed, vec![(vec![0, 1, 2, 3, 4], true)]);
    assert_eq!(drained, vec![(vec![5, 6, 7, 8], true)]);
}

#[test]
fn splitter_empty_input_gives_nothing() {
    let (pushed, drained) = run(3, 5, 2, 0);
    assert!(pushed.is_empty());
    assert!(drained.is_empty());
}

#[test]
fn splitter_keeps_every_frame_in_order() {
    for (min, max, dist) in [(0u64, 5u64, 1usize), (2, 9, 4), (6, 3, 2), (1, 30, 8)] {
        let (pushed, drained) = run(min, max, dist, 40);
        let all: Vec<u32> =
            pushed.iter().chain(drained.iter()).flat_map(|(f, _)| f.iter().copied()).collect();
        assert_eq!(all, (0..40).collect::<Vec<u32>>());
        for (f, _) in pushed.iter().chain(drained.iter()) {
            assert!(f.len() <= PYRAMID_SIZE);
        }
        assert!(drained.last().unwrap().1);
    }
}

#[test]
fn reassembler_releases_in_gop_order() {
    let mut r = Reassembler::new();
    assert_eq!(r.accept(2, "c"), Vec::<&str>::new());
    assert_eq!(r.accept(1, "b"), Vec::<&str>::new());
    assert_eq!(r.accept(0, "a"), vec!["a", "b", "c"]);
    assert_eq!(r.accept(4, "e"), Vec::<&str>::new());
    assert_eq!(r.finish(), vec!["e"]);
}

#[test]
fn reassembler_in_order_arrivals_pass_through() {
    let mut r = Reassembler::new();
    for i in 0..5usize {
        assert_eq!(r.accept(i, i * 10), vec![i * 10]);
    }
    assert_eq!(r.finish(), Vec::<usize>::new());
}

#[test]
fn reassembler_finish_skips_missing_indices() {
    let mut r = Reassembler::new();
    assert!(r.accept(3, 'd').is_empty());
    assert!(r.accept(7, 'h').is_empty());
    assert!(r.accept(5, 'f').is_empty());
    assert_eq!(r.finish(), vec!['d', 'f', 'h']);
}

#[test]
fn reassembler_numbers_packets_consecutively() {
    let mut r: Reassembler<u8> = Reassembler::new();
    assert_eq!(r.next_packet_index(), 0);
    assert_eq!(r.next_packet_index(), 1);
    assert_eq!(r.next_packet_index(), 2);
}

#[test]
fn key_frames_come_every_period() {
    let mut sc = SceneChange::new(3, 5);
    let la: Vec<u32> = (0..4).collect();
    let mut opened = Vec::new();
    for _ in 0..15 {
        opened.push(sc.split(&la).is_some());
    }
    let expected: Vec<bool> = (1..=15).map(|d| d % 5 == 0).collect();
    assert_eq!(opened, expected);
}

#[test]
fn drain_steps_then_rest_match_finish() {
    let mut a = GopSplitter::new(5, 10, 3);
    let mut b = GopSplitter::new(5, 10, 3);
    for f in 0..12u32 {
        a.push(f);
        b.push(f);
    }
    let mut stepped = Vec::new();
    while let Some(g) = a.drain_step() {
        stepped.push(g);
    }
    if let Some(g) = a.into_rest() {
        stepped.push(g);
    }
    assert_eq!(view(&stepped), view(&b.finish()));
}

#[test]
fn splitter_reports_pending_frames_and_next_gop() {
    let mut s = GopSplitter::new(2, 2, 5);
    assert_eq!(s.pending_frames(), 0);
    assert!(!s.next_opens_gop());
    s.push(1u32);
    s.push(2u32);
    assert_eq!(s.pending_frames(), 2);
    let mut sc = SceneChange::new(1, 1);
    assert!(sc.next_opens_gop());
    sc.split(&[1u8]);
    assert!(sc.next_opens_gop());
}

#[test]
fn reassembler_finish_keeps_numbering_and_moves_on() {
    let mut r = Reassembler::new();
    assert!(r.accept(2, 'c').is_empty());
    assert_eq!(r.next_packet_index(), 0);
    assert_eq!(r.next_gop(), 0);
    assert_eq!(r.finish(), vec!['c']);
    assert_eq!(r.next_gop(), 3);
    assert_eq!(r.packets_numbered(), 1);
    assert_eq!(r.next_packet_index(), 1);
}

#[test]
fn key_frames_every_call_when_intervals_are_at_most_one() {
    let mut sc = SceneChange::new(0, 0);
    let la: Vec<u32> = (0..3).collect();
    for _ in 0..5 {
        assert_eq!(sc.split(&la), Some((2, true)));
    }
}
