use vstd::prelude::*;

use std::collections::BTreeMap;

verus! {

/// Largest number of frames that one sub-GOP holds.
pub const PYRAMID_SIZE: usize = 7;

/// Key-frame placement state: counts the split decisions since the last
/// key frame.
pub struct SceneChange {
    frames: u64,
    min_key_frame_interval: u64,
    max_key_frame_interval: u64,
}

/// The abstract state of a [`SceneChange`]: decisions counted since the last
/// key frame, minimum and maximum key-frame interval.
pub struct SceneChangeState {
    /// Decisions counted since the last key frame.
    pub frames: u64,
    /// Minimum key-frame interval.
    pub min: u64,
    /// Maximum key-frame interval.
    pub max: u64,
}

/// Whether the next decision from `s` opens a new GOP.
pub open spec fn opens_gop(s: SceneChangeState) -> bool {
    let f = s.frames + 1;
    !(f < s.min) && f >= s.max
}

/// The state after one decision from `s`.
pub open spec fn after_decision(s: SceneChangeState) -> SceneChangeState {
    let f = s.frames + 1;
    SceneChangeState {
        frames: if f < s.min {
            f as u64
        } else if f >= s.max {
            0
        } else {
            f as u64
        },
        min: s.min,
        max: s.max,
    }
}

/// Where a lookahead of `len` frames is split, and whether the part before
/// the split ends a GOP; `None` when it is not split.
pub open spec fn split_point(len: int, new_gop: bool) -> Option<(usize, bool)> {
    if len > PYRAMID_SIZE {
        Some((PYRAMID_SIZE, new_gop))
    } else if new_gop {
        Some(((len - 1) as usize, true))
    } else {
        None
    }
}

/// The counter never reaches a value from which one more decision overflows.
pub open spec fn scene_state_wf(s: SceneChangeState) -> bool {
    s.frames == 0 || s.frames < s.min || s.frames < s.max
}

/// Both key-frame intervals are at most one: every decision then opens a
/// GOP, and draining a lookahead never ends.
pub open spec fn degenerate_intervals(s: SceneChangeState) -> bool {
    s.min <= 1 && s.max <= 1
}

/// What a split decision is, in terms of the counter and the intervals:
/// a key frame is due exactly when the count reaches both intervals; then
/// the counter restarts and the lookahead is cut with the GOP-end flag set,
/// after at most [`PYRAMID_SIZE`] frames and before its last frame.
/// Otherwise the counter goes up, and only a lookahead longer than
/// [`PYRAMID_SIZE`] is cut, without ending the GOP.
pub proof fn lemma_split_decision(s: SceneChangeState, len: int)
    requires
        scene_state_wf(s),
    ensures
        ({
            let due = s.frames + 1 >= s.min && s.frames + 1 >= s.max;
            &&& opens_gop(s) == due
            &&& due ==> split_point(len, opens_gop(s)) == Some((
                if len > 7 {
                    7usize
                } else {
                    (len - 1) as usize
                },
                true,
            ))
            &&& !due ==> split_point(len, opens_gop(s)) == (if len > 7 {
                Some((7usize, false))
            } else {
                None
            })
            &&& after_decision(s).frames == (if due {
                0
            } else {
                s.frames + 1
            })
            &&& after_decision(s).min == s.min && after_decision(s).max == s.max
        }),
{
}

impl SceneChange {
    /// The abstract state.
    pub closed spec fn state(&self) -> SceneChangeState {
        SceneChangeState {
            frames: self.frames,
            min: self.min_key_frame_interval,
            max: self.max_key_frame_interval,
        }
    }

    /// Well-formedness: see [`scene_state_wf`].
    pub open spec fn wf(&self) -> bool {
        scene_state_wf(self.state())
    }

    /// Starts counting with no decision made yet.
    pub fn new(min_key_frame_interval: u64, max_key_frame_interval: u64) -> (sc: Self)
        ensures
            sc.state() == (SceneChangeState {
                frames: 0,
                min: min_key_frame_interval,
                max: max_key_frame_interval,
            }),
            sc.wf(),
    {
        SceneChange { frames: 0, min_key_frame_interval, max_key_frame_interval }
    }

    /// Whether the next decision opens a new GOP.
    pub fn next_opens_gop(&self) -> (r: bool)
        requires
            self.wf(),
        ensures
            r == opens_gop(self.state()),
    {
        let f = self.frames + 1;
        !(f < self.min_key_frame_interval) && f >= self.max_key_frame_interval
    }

    /// Tells where to split the lookahead: after at most [`PYRAMID_SIZE`]
    /// frames, or before its last frame when a key frame is due, and
    /// whether the part before the split ends a GOP.
    pub fn split<F>(&mut self, lookahead: &[F]) -> (r: Option<(usize, bool)>)
        requires
            old(self).wf(),
            lookahead@.len() > 0 || !opens_gop(old(self).state()),
        ensures
            final(self).wf(),
            final(self).state() == after_decision(old(self).state()),
            r == split_point(lookahead@.len() as int, opens_gop(old(self).state())),
            ({
                let s = old(self).state();
                let len = lookahead@.len() as int;
                let due = s.frames + 1 >= s.min && s.frames + 1 >= s.max;
                &&& due ==> r == Some((if len > 7 { 7usize } else { (len - 1) as usize }, true))
                &&& !due ==> r == (if len > 7 { Some((7usize, false)) } else { None })
                &&& final(self).state().frames == (if due { 0 } else { s.frames + 1 })
            }),
    {
        proof {
            lemma_split_decision(self.state(), lookahead@.len() as int);
        }
        self.frames = self.frames + 1;

        let new_gop = if self.frames < self.min_key_frame_interval {
            false
        } else if self.frames >= self.max_key_frame_interval {
            self.frames = 0;
            true
        } else {
            false
        };

        let len = lookahead.len();

        if len > PYRAMID_SIZE {
            Some((PYRAMID_SIZE, new_gop))
        } else if new_gop {
            Some((len - 1, true))
        } else {
            None
        }
    }
}

/// The scene state after `k` decisions from `s`.
pub open spec fn after_decisions(s: SceneChangeState, k: nat) -> SceneChangeState
    decreases k,
{
    if k == 0 {
        s
    } else {
        after_decision(after_decisions(s, (k - 1) as nat))
    }
}

/// The distance between key frames: the larger of the two intervals, and
/// at least one.
pub open spec fn key_frame_period(s: SceneChangeState) -> int {
    if s.min <= 1 && s.max <= 1 {
        1
    } else if s.min >= s.max {
        s.min as int
    } else {
        s.max as int
    }
}

/// One more step of a count modulo `m`.
proof fn lemma_mod_step(j: int, m: int)
    requires
        j >= 0,
        m >= 1,
    ensures
        0 <= j % m < m,
        j % m + 1 < m ==> (j + 1) % m == j % m + 1,
        j % m + 1 >= m ==> (j + 1) % m == 0,
{
    vstd::arithmetic::div_mod::lemma_fundamental_div_mod(j, m);
    vstd::arithmetic::div_mod::lemma_mod_pos_bound(j, m);
    let q = j / m;
    let r = j % m;
    assert(j == m * q + r);
    assert(m * q == q * m) by (nonlinear_arith);
    if r + 1 < m {
        vstd::arithmetic::div_mod::lemma_fundamental_div_mod_converse(j + 1, m, q, r + 1);
    } else {
        assert((q + 1) * m == q * m + m) by (nonlinear_arith);
        vstd::arithmetic::div_mod::lemma_fundamental_div_mod_converse(j + 1, m, q + 1, 0);
    }
}

/// Key frames come at a fixed period on every call: from a GOP start, after
/// `k` decisions the count is `k` modulo the [`key_frame_period`], and the
/// next decision opens a GOP exactly when it is a multiple of the period.
pub proof fn lemma_key_frame_cycle(s: SceneChangeState, k: nat)
    requires
        s.frames == 0,
    ensures
        after_decisions(s, k).frames == (k as int) % key_frame_period(s),
        after_decisions(s, k).min == s.min && after_decisions(s, k).max == s.max,
        opens_gop(after_decisions(s, k)) == ((k + 1) as int % key_frame_period(s) == 0),
    decreases k,
{
    let m = key_frame_period(s);
    if k > 0 {
        lemma_key_frame_cycle(s, (k - 1) as nat);
        lemma_mod_step(k - 1, m);
    }
    lemma_mod_step(k as int, m);
}

/// A group of consecutive frames handed to one encoder worker.
pub struct SubGop<F> {
    /// The frames, in input order.
    pub frames: Vec<F>,
    /// Whether the group closes a GOP: the next group starts a new one.
    pub end_gop: bool,
}

impl<F> View for SubGop<F> {
    type V = (Seq<F>, bool);

    open spec fn view(&self) -> (Seq<F>, bool) {
        (self.frames@, self.end_gop)
    }
}

/// The abstract state of a [`GopSplitter`].
pub struct SplitterState<F> {
    /// Frames waiting in the lookahead, oldest first.
    pub lookahead: Seq<F>,
    /// The key-frame placement state.
    pub scene: SceneChangeState,
    /// Number of frames needed before a split is considered.
    pub distance: usize,
}

/// One input frame `f` given to a splitter in state `s`: the next state and
/// the sub-GOP that leaves, if one does.
pub open spec fn push_step<F>(s: SplitterState<F>, f: F) -> (SplitterState<F>, Option<(Seq<F>, bool)>) {
    let la = s.lookahead.push(f);
    if la.len() < s.distance {
        (SplitterState { lookahead: la, scene: s.scene, distance: s.distance }, None)
    } else {
        let scene = after_decision(s.scene);
        match split_point(la.len() as int, opens_gop(s.scene)) {
            Some((pos, end_gop)) => (
                SplitterState {
                    lookahead: la.subrange(pos as int, la.len() as int),
                    scene,
                    distance: s.distance,
                },
                Some((la.subrange(0, pos as int), end_gop)),
            ),
            None => (SplitterState { lookahead: la, scene, distance: s.distance }, None),
        }
    }
}

/// A lookahead and scene state from which draining is defined: the
/// intervals are not degenerate and an empty lookahead has made no decision.
pub open spec fn drainable<F>(la: Seq<F>, scene: SceneChangeState) -> bool {
    &&& !degenerate_intervals(scene)
    &&& scene_state_wf(scene)
    &&& (la.len() == 0 ==> scene.frames == 0)
}

/// Measure that drops with every split while draining.
pub open spec fn drain_measure<F>(la: Seq<F>, scene: SceneChangeState) -> nat {
    la.len() * 2 + if scene.frames == 0 { 0nat } else { 1nat }
}

/// The sub-GOPs that draining the lookahead `la` at the end of the input
/// gives: split while the scene state says so, then the rest as a GOP end.
pub open spec fn drain_steps<F>(la: Seq<F>, scene: SceneChangeState) -> Seq<(Seq<F>, bool)>
    decreases drain_measure(la, scene),
    when drainable(la, scene)
{
    match split_point(la.len() as int, opens_gop(scene)) {
        Some((pos, end_gop)) => {
            proof {
                lemma_drain_step_decreases(la, scene);
            }
            seq![(la.subrange(0, pos as int), end_gop)] + drain_steps(
                la.subrange(pos as int, la.len() as int),
                after_decision(scene),
            )
        },
        None => if la.len() == 0 {
            Seq::empty()
        } else {
            seq![(la, true)]
        },
    }
}

/// One split while draining keeps the state drainable and lowers the
/// measure.
pub proof fn lemma_drain_step_decreases<F>(la: Seq<F>, scene: SceneChangeState)
    requires
        drainable(la, scene),
        split_point(la.len() as int, opens_gop(scene)) is Some,
    ensures
        ({
            let pair = split_point(la.len() as int, opens_gop(scene))->0;
            let pos = pair.0;
            let rest = la.subrange(pos as int, la.len() as int);
            &&& pos <= la.len()
            &&& drainable(rest, after_decision(scene))
            &&& drain_measure(rest, after_decision(scene)) < drain_measure(la, scene)
        }),
{
}

/// One split decision on the lookahead `s` at the end of the input: the
/// next state and the sub-GOP that leaves, if one does.
pub open spec fn drain_one<F>(s: SplitterState<F>) -> (SplitterState<F>, Option<(Seq<F>, bool)>) {
    let la = s.lookahead;
    let scene = after_decision(s.scene);
    match split_point(la.len() as int, opens_gop(s.scene)) {
        Some((pos, end_gop)) => (
            SplitterState { lookahead: la.subrange(pos as int, la.len() as int), scene, distance: s.distance },
            Some((la.subrange(0, pos as int), end_gop)),
        ),
        None => (SplitterState { lookahead: la, scene, distance: s.distance }, None),
    }
}

/// Splits the incoming frames into sub-GOPs of at most [`PYRAMID_SIZE`]
/// frames, following the key-frame placement of a [`SceneChange`].
pub struct GopSplitter<F> {
    lookahead: Vec<F>,
    sc: SceneChange,
    lookahead_distance: usize,
}

impl<F> GopSplitter<F> {
    /// The abstract state.
    pub closed spec fn state(&self) -> SplitterState<F> {
        SplitterState {
            lookahead: self.lookahead@,
            scene: self.sc.state(),
            distance: self.lookahead_distance,
        }
    }

    /// Well-formedness: the scene counter is in range and an empty lookahead
    /// has made no decision yet.
    pub open spec fn wf(&self) -> bool {
        &&& scene_state_wf(self.state().scene)
        &&& (self.state().lookahead.len() == 0 ==> self.state().scene.frames == 0)
    }

    /// An empty splitter: it considers a split once `lookahead_distance`
    /// frames wait.
    pub fn new(
        min_key_frame_interval: u64,
        max_key_frame_interval: u64,
        lookahead_distance: usize,
    ) -> (s: Self)
        ensures
            s.wf(),
            s.state() == (SplitterState::<F> {
                lookahead: Seq::empty(),
                scene: SceneChangeState {
                    frames: 0,
                    min: min_key_frame_interval,
                    max: max_key_frame_interval,
                },
                distance: lookahead_distance,
            }),
    {
        GopSplitter {
            lookahead: Vec::new(),
            sc: SceneChange::new(min_key_frame_interval, max_key_frame_interval),
            lookahead_distance,
        }
    }

    /// Takes the next input frame; returns the sub-GOP that is ready, if
    /// one is.
    pub fn push(&mut self, frame: F) -> (r: Option<SubGop<F>>)
        requires
            old(self).wf(),
        ensures
            final(self).wf(),
            final(self).state() == push_step(old(self).state(), frame).0,
            match r {
                Some(g) => push_step(old(self).state(), frame).1 == Some(g@),
                None => push_step(old(self).state(), frame).1 is None,
            },
            ({
                let s = old(self).state();
                let la = s.lookahead.push(frame);
                let due = s.scene.frames + 1 >= s.scene.min && s.scene.frames + 1 >= s.scene.max;
                &&& la.len() < s.distance ==> r is None && final(self).state() == (SplitterState {
                    lookahead: la,
                    ..s
                })
                &&& la.len() >= s.distance ==> match r {
                    Some(g) => g.end_gop == due && g.frames@ + final(self).state().lookahead == la
                        && g.frames@.len() <= PYRAMID_SIZE,
                    None => !due && la.len() <= PYRAMID_SIZE && final(self).state().lookahead == la,
                }
            }),
    {
        proof {
            lemma_split_decision(self.state().scene, (self.state().lookahead.len() + 1) as int);
            lemma_push_keeps_frames(self.state(), frame);
        }
        self.lookahead.push(frame);
        if self.lookahead.len() < self.lookahead_distance {
            return None;
        }
        match self.sc.split(self.lookahead.as_slice()) {
            Some((split_pos, end_gop)) => {
                let mut frames = self.lookahead.split_off(split_pos);
                std::mem::swap(&mut frames, &mut self.lookahead);
                Some(SubGop { frames, end_gop })
            },
            None => None,
        }
    }

    /// The number of frames waiting in the lookahead.
    pub fn pending_frames(&self) -> (n: usize)
        ensures
            n == self.state().lookahead.len(),
    {
        self.lookahead.len()
    }

    /// Whether the next split decision opens a new GOP.
    pub fn next_opens_gop(&self) -> (r: bool)
        requires
            scene_state_wf(self.state().scene),
        ensures
            r == opens_gop(self.state().scene),
    {
        self.sc.next_opens_gop()
    }

    /// At the end of the input, makes one split decision on the lookahead;
    /// returns the sub-GOP that leaves, if it is split. Repeating this until
    /// it gives nothing, then taking [`GopSplitter::into_rest`], drains the
    /// lookahead as [`GopSplitter::finish`] does, and never ends where the
    /// key-frame intervals are degenerate.
    pub fn drain_step(&mut self) -> (r: Option<SubGop<F>>)
        requires
            scene_state_wf(old(self).state().scene),
            old(self).state().lookahead.len() > 0 || !opens_gop(old(self).state().scene),
        ensures
            scene_state_wf(final(self).state().scene),
            final(self).state() == drain_one(old(self).state()).0,
            match r {
                Some(g) => drain_one(old(self).state()).1 == Some(g@),
                None => drain_one(old(self).state()).1 is None,
            },
            ({
                let s = old(self).state();
                let due = s.scene.frames + 1 >= s.scene.min && s.scene.frames + 1 >= s.scene.max;
                match r {
                    Some(g) => g.end_gop == due && g.frames@ + final(self).state().lookahead
                        == s.lookahead && g.frames@.len() <= PYRAMID_SIZE,
                    None => !due && s.lookahead.len() <= PYRAMID_SIZE && final(self).state().lookahead
                        == s.lookahead,
                }
            }),
    {
        proof {
            lemma_split_decision(self.state().scene, self.state().lookahead.len() as int);
            let la = self.state().lookahead;
            if let Some((pos, _)) = split_point(la.len() as int, opens_gop(self.state().scene)) {
                assert(la.subrange(0, pos as int) + la.subrange(pos as int, la.len() as int) =~= la);
            }
        }
        match self.sc.split(self.lookahead.as_slice()) {
            Some((split_pos, end_gop)) => {
                let mut frames = self.lookahead.split_off(split_pos);
                std::mem::swap(&mut frames, &mut self.lookahead);
                Some(SubGop { frames, end_gop })
            },
            None => None,
        }
    }

    /// The frames still waiting, as the last sub-GOP, which closes a GOP;
    /// nothing when none waits.
    pub fn into_rest(self) -> (r: Option<SubGop<F>>)
        ensures
            self.state().lookahead.len() == 0 ==> r is None,
            self.state().lookahead.len() > 0 ==> (r matches Some(g) && g@ == (self.state().lookahead, true)),
    {
        if self.lookahead.len() > 0 {
            Some(SubGop { frames: self.lookahead, end_gop: true })
        } else {
            None
        }
    }

    /// Ends the input: splits the remaining lookahead while key-frame
    /// placement asks for it, then hands out what is left as the last GOP.
    pub fn finish(self) -> (out: Vec<SubGop<F>>)
        requires
            self.wf(),
            !degenerate_intervals(self.state().scene),
        ensures
            out@.map_values(|g: SubGop<F>| g@) == drain_steps(
                self.state().lookahead,
                self.state().scene,
            ),
    {
        let ghost la0 = self.lookahead@;
        let ghost sc0 = self.sc.state();
        let mut lookahead = self.lookahead;
        let mut sc = self.sc;
        let mut out: Vec<SubGop<F>> = Vec::new();
        loop
            invariant_except_break
                drainable(lookahead@, sc.state()),
                sc.wf(),
                out@.map_values(|g: SubGop<F>| g@) + drain_steps(lookahead@, sc.state())
                    == drain_steps(la0, sc0),
            ensures
                out@.map_values(|g: SubGop<F>| g@) + (if lookahead@.len() == 0 {
                    Seq::<(Seq<F>, bool)>::empty()
                } else {
                    seq![(lookahead@, true)]
                }) == drain_steps(la0, sc0),
            decreases drain_measure(lookahead@, sc.state()),
        {
            let ghost la = lookahead@;
            let ghost scs = sc.state();
            match sc.split(lookahead.as_slice()) {
                Some((split_pos, end_gop)) => {
                    proof {
                        lemma_drain_step_decreases(la, scs);
                    }
                    let rem = lookahead.split_off(split_pos);
                    let ghost prev = out@.map_values(|g: SubGop<F>| g@);
                    out.push(SubGop { frames: lookahead, end_gop });
                    lookahead = rem;
                    assert(out@.map_values(|g: SubGop<F>| g@) == prev.push(
                        (la.subrange(0, split_pos as int), end_gop),
                    ));
                    assert(drain_steps(la, scs) == seq![(la.subrange(0, split_pos as int), end_gop)]
                        + drain_steps(lookahead@, sc.state()));
                    assert(out@.map_values(|g: SubGop<F>| g@) + drain_steps(lookahead@, sc.state())
                        =~= prev + drain_steps(la, scs));
                },
                None => {
                    assert(drain_steps(la, scs) == (if la.len() == 0 {
                        Seq::<(Seq<F>, bool)>::empty()
                    } else {
                        seq![(la, true)]
                    }));
                    break ;
                },
            }
        }
        if lookahead.len() > 0 {
            let ghost prev = out@.map_values(|g: SubGop<F>| g@);
            let ghost la = lookahead@;
            out.push(SubGop { frames: lookahead, end_gop: true });
            assert(out@.map_values(|g: SubGop<F>| g@) =~= prev + seq![(la, true)]);
        } else {
            assert(out@.map_values(|g: SubGop<F>| g@) + Seq::<(Seq<F>, bool)>::empty()
                =~= out@.map_values(|g: SubGop<F>| g@));
        }
        out
    }
}

/// The frames of a list of sub-GOPs, one after the other.
pub open spec fn concat_frames<F>(gs: Seq<(Seq<F>, bool)>) -> Seq<F>
    decreases gs.len(),
{
    if gs.len() == 0 {
        Seq::empty()
    } else {
        gs[0].0 + concat_frames(gs.drop_first())
    }
}

/// Pushing a frame loses and reorders nothing: the frames of the sub-GOP
/// that leaves, followed by the new lookahead, are the old lookahead
/// followed by the frame.
pub proof fn lemma_push_keeps_frames<F>(s: SplitterState<F>, f: F)
    ensures
        ({
            let (s2, out) = push_step(s, f);
            match out {
                Some((frames, _)) => frames + s2.lookahead == s.lookahead.push(f),
                None => s2.lookahead == s.lookahead.push(f),
            }
        }),
{
    let (s2, out) = push_step(s, f);
    let la = s.lookahead.push(f);
    if let Some((frames, _)) = out {
        assert(frames + s2.lookahead =~= la);
    }
}

/// A sub-GOP that leaves on a push holds at most [`PYRAMID_SIZE`] frames.
pub proof fn lemma_push_gop_within_pyramid<F>(s: SplitterState<F>, f: F)
    ensures
        push_step(s, f).1 matches Some((frames, _)) ==> frames.len() <= PYRAMID_SIZE,
{
}

/// Draining loses and reorders nothing: the sub-GOPs hold the lookahead's
/// frames, in order.
pub proof fn lemma_drain_keeps_frames<F>(la: Seq<F>, scene: SceneChangeState)
    requires
        drainable(la, scene),
    ensures
        concat_frames(drain_steps(la, scene)) == la,
    decreases drain_measure(la, scene),
{
    let out = drain_steps(la, scene);
    match split_point(la.len() as int, opens_gop(scene)) {
        Some((pos, end_gop)) => {
            lemma_drain_step_decreases(la, scene);
            let rest = la.subrange(pos as int, la.len() as int);
            lemma_drain_keeps_frames(rest, after_decision(scene));
            let tail = drain_steps(rest, after_decision(scene));
            assert(out == seq![(la.subrange(0, pos as int), end_gop)] + tail);
            assert(out.drop_first() =~= tail);
            assert(concat_frames(out) == out[0].0 + concat_frames(out.drop_first()));
            assert(la.subrange(0, pos as int) + rest =~= la);
        },
        None => {
            if la.len() == 0 {
                assert(la =~= Seq::<F>::empty());
            } else {
                assert(out.drop_first() =~= Seq::<(Seq<F>, bool)>::empty());
                assert(concat_frames(out) == out[0].0 + concat_frames(out.drop_first()));
                assert(la + Seq::<F>::empty() =~= la);
            }
        },
    }
}

/// Every sub-GOP that draining gives holds at most [`PYRAMID_SIZE`]
/// frames; there is at least one exactly when the lookahead is not empty,
/// and the last one ends a GOP.
pub proof fn lemma_drain_gops_shape<F>(la: Seq<F>, scene: SceneChangeState)
    requires
        drainable(la, scene),
    ensures
        forall|i: int|
            0 <= i < drain_steps(la, scene).len() ==> (#[trigger] drain_steps(la, scene)[i]).0.len()
                <= PYRAMID_SIZE,
        (drain_steps(la, scene).len() > 0) == (la.len() > 0),
        la.len() > 0 ==> drain_steps(la, scene).last().1,
    decreases drain_measure(la, scene),
{
    let out = drain_steps(la, scene);
    match split_point(la.len() as int, opens_gop(scene)) {
        Some((pos, end_gop)) => {
            lemma_drain_step_decreases(la, scene);
            let rest = la.subrange(pos as int, la.len() as int);
            lemma_drain_gops_shape(rest, after_decision(scene));
            let tail = drain_steps(rest, after_decision(scene));
            assert(out == seq![(la.subrange(0, pos as int), end_gop)] + tail);
            assert forall|i: int| 0 <= i < out.len() implies (#[trigger] out[i]).0.len()
                <= PYRAMID_SIZE by {
                if i > 0 {
                    assert(out[i] == tail[i - 1]);
                }
            }
            assert(out.last() == tail.last());
        },
        None => {
        },
    }
}

/// The values of `m` at the keys in `[lo, hi)`, by increasing key.
pub open spec fn in_order<R>(m: Map<usize, R>, lo: int, hi: int) -> Seq<R>
    decreases hi - lo,
{
    if hi <= lo {
        Seq::empty()
    } else {
        in_order(m, lo, hi - 1) + if 0 <= hi - 1 <= usize::MAX && m.contains_key((hi - 1) as usize) {
            seq![m[(hi - 1) as usize]]
        } else {
            Seq::empty()
        }
    }
}

/// The first key from `lo` on that `m` lacks.
pub open spec fn run_end<R>(m: Map<usize, R>, lo: int) -> int
    decreases usize::MAX - lo,
{
    if lo < 0 || lo >= usize::MAX || !m.contains_key(lo as usize) {
        lo
    } else {
        run_end(m, lo + 1)
    }
}

/// The entries of `m` whose key is at least `k`.
pub open spec fn keys_from<R>(m: Map<usize, R>, k: int) -> Map<usize, R> {
    m.restrict(m.dom().filter(|j: usize| j >= k))
}

/// The abstract state of a [`Reassembler`].
pub struct ReassemblyState<R> {
    /// Workers' outputs that arrived and wait for their turn, by GOP index.
    pub pending: Map<usize, R>,
    /// The GOP index whose output goes out next.
    pub last_idx: usize,
    /// The number given to the next packet that goes out.
    pub packet_index: u64,
}

/// Puts the outputs of the GOP workers back in GOP order and numbers the
/// packets that go out consecutively.
pub struct Reassembler<R> {
    pending: BTreeMap<usize, R>,
    last_idx: usize,
    packet_index: u64,
    bound: Ghost<int>,
}

impl<R> Reassembler<R> {
    /// The abstract state.
    pub closed spec fn state(&self) -> ReassemblyState<R> {
        ReassemblyState { pending: self.pending@, last_idx: self.last_idx, packet_index: self.packet_index }
    }

    /// Well-formedness: every waiting output is at or after the next index,
    /// and below a bound that the index cannot overflow.
    pub closed spec fn wf(&self) -> bool {
        &&& self.last_idx <= self.bound@ <= usize::MAX
        &&& forall|j: usize| #[trigger] self.pending@.contains_key(j) ==> self.last_idx <= j < self.bound@
    }

    /// Nothing waits; GOP 0 goes out first and the first packet is number 0.
    pub fn new() -> (r: Self)
        ensures
            r.wf(),
            r.state() == (ReassemblyState::<R> { pending: Map::empty(), last_idx: 0, packet_index: 0 }),
    {
        Reassembler { pending: BTreeMap::new(), last_idx: 0, packet_index: 0, bound: Ghost(0) }
    }

    /// The output of GOP `idx` arrived: returns, in GOP order, the outputs
    /// that may go out now, that is those from the next index on up to the
    /// first that has not arrived.
    pub fn accept(&mut self, idx: usize, output: R) -> (out: Vec<R>)
        requires
            old(self).wf(),
            old(self).state().last_idx <= idx < usize::MAX,
        ensures
            final(self).wf(),
            ({
                let m = old(self).state().pending.insert(idx, output);
                let k = run_end(m, old(self).state().last_idx as int);
                &&& final(self).state().last_idx == k
                &&& out@ == in_order(m, old(self).state().last_idx as int, k)
                &&& final(self).state().pending == keys_from(m, k)
                &&& final(self).state().packet_index == old(self).state().packet_index
            }),
            (final(self).state(), out@) == accept_step(old(self).state(), idx, output),
    {
        let ghost m = self.pending@.insert(idx, output);
        let ghost lo = self.last_idx as int;
        self.pending.insert(idx, output);
        proof {
            if idx + 1 > self.bound@ {
                self.bound = Ghost(idx + 1);
            }
            assert(self.pending@ =~= keys_from(m, lo));
        }
        let mut out: Vec<R> = Vec::new();
        loop
            invariant_except_break
                lo <= self.last_idx <= self.bound@ <= usize::MAX,
                forall|j: usize| #[trigger] m.contains_key(j) ==> lo <= j < self.bound@,
                self.pending@ == keys_from(m, self.last_idx as int),
                out@ == in_order(m, lo, self.last_idx as int),
                run_end(m, lo) == run_end(m, self.last_idx as int),
                self.packet_index == old(self).packet_index,
            ensures
                self.wf(),
                self.last_idx == run_end(m, lo),
                self.pending@ == keys_from(m, self.last_idx as int),
                out@ == in_order(m, lo, self.last_idx as int),
                self.packet_index == old(self).packet_index,
            decreases self.bound@ - self.last_idx,
        {
            let ghost before = self.pending@;
            match self.pending.remove(&self.last_idx) {
                Some(r) => {
                    proof {
                        assert(m.contains_key(self.last_idx));
                    }
                    out.push(r);
                    self.last_idx = self.last_idx + 1;
                    proof {
                        assert(self.pending@ =~= keys_from(m, self.last_idx as int));
                        assert(out@ =~= in_order(m, lo, self.last_idx as int));
                    }
                },
                None => {
                    proof {
                        assert(!m.contains_key(self.last_idx));
                        assert(self.pending@ =~= before);
                    }
                    break ;
                },
            }
        }
        out
    }

    /// The GOP index whose output goes out next.
    pub fn next_gop(&self) -> (idx: usize)
        ensures
            idx == self.state().last_idx,
    {
        self.last_idx
    }

    /// The number the next packet gets.
    pub fn packets_numbered(&self) -> (n: u64)
        ensures
            n == self.state().packet_index,
    {
        self.packet_index
    }

    /// Numbers the next packet that goes out.
    pub fn next_packet_index(&mut self) -> (n: u64)
        requires
            old(self).wf(),
            old(self).state().packet_index < u64::MAX,
        ensures
            final(self).wf(),
            n == old(self).state().packet_index,
            final(self).state() == (ReassemblyState::<R> {
                packet_index: (n + 1) as u64,
                ..old(self).state()
            }),
    {
        let n = self.packet_index;
        self.packet_index = n + 1;
        n
    }

    /// The input ended: returns the outputs still waiting, by increasing
    /// GOP index, skipping the indices that never arrived. Nothing waits
    /// afterwards, the next index is one past the last output returned, and
    /// packet numbering goes on where it was.
    pub fn finish(&mut self) -> (out: Vec<R>)
        requires
            old(self).wf(),
        ensures
            final(self).wf(),
            out@ == in_order(old(self).state().pending, old(self).state().last_idx as int, usize::MAX as int),
            final(self).state().pending == Map::<usize, R>::empty(),
            final(self).state().packet_index == old(self).state().packet_index,
            old(self).state().last_idx <= final(self).state().last_idx,
            forall|j: usize| #[trigger] old(self).state().pending.contains_key(j) ==> j < final(self).state().last_idx,
            final(self).state().last_idx == old(self).state().last_idx
                || old(self).state().pending.contains_key((final(self).state().last_idx - 1) as usize),
    {
        let ghost m = self.pending@;
        let ghost lo = self.last_idx as int;
        let ghost hi = self.bound@;
        let mut out: Vec<R> = Vec::new();
        while !self.pending.is_empty()
            invariant
                lo <= self.last_idx <= hi <= usize::MAX,
                self.bound@ == hi,
                forall|j: usize| #[trigger] self.pending@.contains_key(j) ==> self.last_idx <= j < hi,
                self.pending@ == keys_from(m, self.last_idx as int),
                forall|j: usize| #[trigger] m.contains_key(j) ==> lo <= j < hi,
                out@ == in_order(m, lo, self.last_idx as int),
                self.packet_index == old(self).packet_index,
                self.pending@.is_empty() ==> (self.last_idx == lo || m.contains_key(
                    (self.last_idx - 1) as usize,
                )),
            decreases hi - self.last_idx,
        {
            let ghost before = self.pending@;
            proof {
                let j = choose|j: usize| self.pending@.contains_key(j);
                assert(self.pending@.contains_key(j));
            }
            let ghost removed = m.contains_key(self.last_idx);
            match self.pending.remove(&self.last_idx) {
                Some(r) => {
                    out.push(r);
                },
                None => {
                    proof {
                        assert(self.pending@ =~= before);
                    }
                },
            }
            let ghost prev = self.last_idx;
            self.last_idx = self.last_idx + 1;
            proof {
                assert(self.pending@ =~= keys_from(m, self.last_idx as int));
                assert(out@ =~= in_order(m, lo, self.last_idx as int));
                if !removed {
                    assert(!before.is_empty());
                    assert(self.pending@ == before);
                } else {
                    assert(m.contains_key(prev));
                }
            }
        }
        proof {
            assert forall|j: usize| m.contains_key(j) implies j < self.last_idx by {
                if j >= self.last_idx {
                    assert(keys_from(m, self.last_idx as int).dom().contains(j));
                    assert(self.pending@.dom().contains(j));
                }
            }
            lemma_in_order_no_keys_above(m, lo, self.last_idx as int, usize::MAX as int);
        }
        out
    }
}

/// Where `m` has no key in `[mid, hi)`, listing `[lo, hi)` lists `[lo, mid)`.
pub proof fn lemma_in_order_no_keys_above<R>(m: Map<usize, R>, lo: int, mid: int, hi: int)
    requires
        lo <= mid <= hi,
        forall|j: usize| m.contains_key(j) ==> j < mid,
    ensures
        in_order(m, lo, hi) == in_order(m, lo, mid),
    decreases hi - mid,
{
    if hi > mid {
        lemma_in_order_no_keys_above(m, lo, mid, hi - 1);
        assert(in_order(m, lo, hi) =~= in_order(m, lo, hi - 1));
    }
}

/// One arrival of the output `r` of GOP `idx`: the next state and what goes
/// out, as [`Reassembler::accept`] does it.
pub open spec fn accept_step<R>(s: ReassemblyState<R>, idx: usize, r: R) -> (ReassemblyState<R>, Seq<R>) {
    let m = s.pending.insert(idx, r);
    let k = run_end(m, s.last_idx as int);
    (
        ReassemblyState { pending: keys_from(m, k), last_idx: k as usize, packet_index: s.packet_index },
        in_order(m, s.last_idx as int, k),
    )
}

/// The state after a series of arrivals from `s`, and everything that went
/// out on the way.
pub open spec fn replay<R>(s: ReassemblyState<R>, arrivals: Seq<(usize, R)>) -> (ReassemblyState<R>, Seq<R>)
    decreases arrivals.len(),
{
    if arrivals.len() == 0 {
        (s, Seq::empty())
    } else {
        let (s1, o1) = replay(s, arrivals.drop_last());
        let (s2, o2) = accept_step(s1, arrivals.last().0, arrivals.last().1);
        (s2, o1 + o2)
    }
}

/// The outputs of a series of arrivals, by GOP index.
pub open spec fn arrived<R>(arrivals: Seq<(usize, R)>) -> Map<usize, R>
    decreases arrivals.len(),
{
    if arrivals.len() == 0 {
        Map::empty()
    } else {
        arrived(arrivals.drop_last()).insert(arrivals.last().0, arrivals.last().1)
    }
}

/// No GOP index arrives twice, and none is the largest `usize`.
pub open spec fn distinct_indices<R>(arrivals: Seq<(usize, R)>) -> bool {
    &&& forall|i: int, j: int| 0 <= i < j < arrivals.len() ==> arrivals[i].0 != arrivals[j].0
    &&& forall|i: int| 0 <= i < arrivals.len() ==> arrivals[i].0 < usize::MAX
}

/// A reassembler with nothing received yet.
pub open spec fn fresh_reassembly<R>() -> ReassemblyState<R> {
    ReassemblyState { pending: Map::empty(), last_idx: 0, packet_index: 0 }
}

/// Two maps that agree on the keys in `[lo, hi)` list them alike.
pub proof fn lemma_in_order_agree<R>(m1: Map<usize, R>, m2: Map<usize, R>, lo: int, hi: int)
    requires
        forall|j: usize| lo <= j < hi ==> (#[trigger] m1.contains_key(j)) == m2.contains_key(j),
        forall|j: usize| lo <= j < hi && #[trigger] m1.contains_key(j) ==> m1[j] == m2[j],
    ensures
        in_order(m1, lo, hi) == in_order(m2, lo, hi),
    decreases hi - lo,
{
    if hi > lo {
        lemma_in_order_agree(m1, m2, lo, hi - 1);
    }
}

/// Listing `[lo, hi)` is listing `[lo, mid)` then `[mid, hi)`.
pub proof fn lemma_in_order_split<R>(m: Map<usize, R>, lo: int, mid: int, hi: int)
    requires
        lo <= mid <= hi,
    ensures
        in_order(m, lo, hi) == in_order(m, lo, mid) + in_order(m, mid, hi),
    decreases hi - mid,
{
    if hi > mid {
        lemma_in_order_split(m, lo, mid, hi - 1);
        assert(in_order(m, lo, hi) =~= in_order(m, lo, mid) + in_order(m, mid, hi));
    } else {
        assert(in_order(m, lo, hi) =~= in_order(m, lo, mid) + Seq::<R>::empty());
    }
}

/// The first missing key from `lo` on: every key before it is present, it
/// is absent or the end of the `usize` range.
pub proof fn lemma_run_end<R>(m: Map<usize, R>, lo: int)
    requires
        0 <= lo <= usize::MAX,
    ensures
        lo <= run_end(m, lo) <= usize::MAX,
        forall|j: usize| lo <= j < run_end(m, lo) ==> #[trigger] m.contains_key(j),
        run_end(m, lo) < usize::MAX ==> !m.contains_key(run_end(m, lo) as usize),
    decreases usize::MAX - lo,
{
    if lo < usize::MAX && m.contains_key(lo as usize) {
        lemma_run_end(m, lo + 1);
    }
}

/// Two maps with the same keys from `lo` on find the same first missing key.
pub proof fn lemma_run_end_agree<R>(m1: Map<usize, R>, m2: Map<usize, R>, lo: int)
    requires
        0 <= lo <= usize::MAX,
        forall|j: usize| lo <= j ==> (#[trigger] m1.contains_key(j)) == m2.contains_key(j),
    ensures
        run_end(m1, lo) == run_end(m2, lo),
    decreases usize::MAX - lo,
{
    if lo < usize::MAX && m1.contains_key(lo as usize) {
        lemma_run_end_agree(m1, m2, lo + 1);
    }
}

/// What holds after each arrival of a series with distinct indices: the
/// waiting outputs are those arrived from the next index on, every index
/// before it has arrived, and what went out lists the arrived outputs
/// before it in GOP order.
pub open spec fn replay_invariant<R>(s: ReassemblyState<R>, out: Seq<R>, a: Map<usize, R>) -> bool {
    &&& s.pending == keys_from(a, s.last_idx as int)
    &&& forall|j: usize| j < s.last_idx ==> #[trigger] a.contains_key(j)
    &&& forall|j: usize| #[trigger] a.contains_key(j) ==> j < usize::MAX
    &&& out == in_order(a, 0, s.last_idx as int)
    &&& s.packet_index == 0
}

/// Replaying distinct arrivals keeps [`replay_invariant`], and every
/// arrival meets the precondition of [`Reassembler::accept`]: its index is
/// not behind the next index.
pub proof fn lemma_replay_invariant<R>(arrivals: Seq<(usize, R)>)
    requires
        distinct_indices(arrivals),
    ensures
        replay_invariant(
            replay(fresh_reassembly(), arrivals).0,
            replay(fresh_reassembly(), arrivals).1,
            arrived(arrivals),
        ),
        forall|i: int|
            0 <= i < arrivals.len() ==> replay(fresh_reassembly(), arrivals.take(i)).0.last_idx
                <= #[trigger] arrivals[i].0,
    decreases arrivals.len(),
{
    if arrivals.len() == 0 {
        assert(keys_from(Map::<usize, R>::empty(), 0) =~= Map::empty());
    } else {
        let prev = arrivals.drop_last();
        assert forall|i: int, j: int| 0 <= i < j < prev.len() implies prev[i].0 != prev[j].0 by {
            assert(prev[i] == arrivals[i] && prev[j] == arrivals[j]);
        }
        assert forall|i: int| 0 <= i < prev.len() implies prev[i].0 < usize::MAX by {
            assert(prev[i] == arrivals[i]);
        }
        lemma_replay_invariant(prev);
        let (s1, o1) = replay(fresh_reassembly(), prev);
        let a = arrived(prev);
        let (idx, r) = arrivals.last();
        let a2 = a.insert(idx, r);
        assert(arrived(arrivals) == a2);
        // The new index has not arrived before, so it is not behind.
        lemma_arrived_keys(prev);
        assert(!a.contains_key(idx)) by {
            if a.contains_key(idx) {
                let i = choose|i: int| 0 <= i < prev.len() && prev[i].0 == idx;
                assert(prev[i] == arrivals[i]);
                assert(arrivals[arrivals.len() - 1].0 == idx);
            }
        }
        assert(idx >= s1.last_idx);
        let m = s1.pending.insert(idx, r);
        assert(m =~= keys_from(a2, s1.last_idx as int));
        let k = run_end(m, s1.last_idx as int);
        lemma_run_end(m, s1.last_idx as int);
        let (s2, o2) = accept_step(s1, idx, r);
        assert(s2.pending =~= keys_from(a2, k));
        assert forall|j: usize| j < s2.last_idx implies #[trigger] a2.contains_key(j) by {
            if j >= s1.last_idx {
                assert(m.contains_key(j));
            }
        }
        assert forall|j: usize| #[trigger] a2.contains_key(j) implies j < usize::MAX by {
            if j != idx {
                assert(a.contains_key(j));
            }
        }
        lemma_in_order_agree(a, a2, 0, s1.last_idx as int);
        lemma_in_order_agree(m, a2, s1.last_idx as int, k);
        lemma_in_order_split(a2, 0, s1.last_idx as int, k);
        assert(o1 + o2 == in_order(a2, 0, k));
        assert forall|i: int|
            0 <= i < arrivals.len() implies replay(fresh_reassembly(), arrivals.take(i)).0.last_idx
            <= #[trigger] arrivals[i].0 by {
            if i < prev.len() {
                assert(arrivals.take(i) =~= prev.take(i));
                assert(prev[i] == arrivals[i]);
            } else {
                assert(arrivals.take(i) =~= prev);
            }
        }
    }
}

/// Every key that a series of arrivals leaves in the map arrived with one
/// of them.
pub proof fn lemma_arrived_keys<R>(arrivals: Seq<(usize, R)>)
    ensures
        forall|j: usize| #[trigger] arrived(arrivals).contains_key(j) ==> exists|i: int|
            0 <= i < arrivals.len() && arrivals[i].0 == j,
    decreases arrivals.len(),
{
    if arrivals.len() > 0 {
        let prev = arrivals.drop_last();
        lemma_arrived_keys(prev);
        assert forall|j: usize| #[trigger] arrived(arrivals).contains_key(j) implies exists|i: int|
            0 <= i < arrivals.len() && arrivals[i].0 == j by {
            if j == arrivals.last().0 {
                assert(arrivals[arrivals.len() - 1].0 == j);
            } else {
                assert(arrived(prev).contains_key(j));
                let i = choose|i: int| 0 <= i < prev.len() && prev[i].0 == j;
                assert(prev[i] == arrivals[i]);
            }
        }
    }
}

/// The reassembler puts GOPs back in order: whatever the order in which
/// the outputs of GOPs with distinct indices arrive, what goes out on the
/// arrivals followed by what goes out at the end lists every output by
/// increasing GOP index.
pub proof fn lemma_reassembly_restores_gop_order<R>(arrivals: Seq<(usize, R)>)
    requires
        distinct_indices(arrivals),
    ensures
        ({
            let (s, out) = replay(fresh_reassembly(), arrivals);
            out + in_order(s.pending, s.last_idx as int, usize::MAX as int) == in_order(
                arrived(arrivals),
                0,
                usize::MAX as int,
            )
        }),
{
    lemma_replay_invariant(arrivals);
    let (s, out) = replay(fresh_reassembly(), arrivals);
    let a = arrived(arrivals);
    lemma_in_order_split(a, 0, s.last_idx as int, usize::MAX as int);
    lemma_in_order_agree(s.pending, a, s.last_idx as int, usize::MAX as int);
}

/// GOP indices that arrive in order go out at once: when the next index
/// arrives and nothing waits, exactly its output goes out and nothing is
/// left waiting.
pub proof fn lemma_in_order_arrival_passes_through<R>(s: ReassemblyState<R>, r: R)
    requires
        s.pending == Map::<usize, R>::empty(),
        s.last_idx < usize::MAX,
    ensures
        accept_step(s, s.last_idx, r).1 == seq![r],
        accept_step(s, s.last_idx, r).0.last_idx == s.last_idx + 1,
        accept_step(s, s.last_idx, r).0.pending == Map::<usize, R>::empty(),
{
    let m = s.pending.insert(s.last_idx, r);
    assert(run_end(m, s.last_idx + 1) == s.last_idx + 1);
    assert(in_order(m, s.last_idx as int, s.last_idx as int) =~= Seq::<R>::empty());
    assert(m.contains_key(s.last_idx) && m[s.last_idx] == r);
    assert(in_order(m, s.last_idx as int, s.last_idx + 1) == in_order(m, s.last_idx as int, s.last_idx as int) + seq![r]);
    assert(in_order(m, s.last_idx as int, s.last_idx + 1) =~= seq![r]);
    assert(keys_from(m, s.last_idx + 1) =~= Map::<usize, R>::empty());
}

/// The numbers that packet numbering hands out from `start` over a run of
/// reassembler calls: `true` numbers a packet, `false` is an arrival or the
/// end, which keep the count (see [`Reassembler::accept`] and
/// [`Reassembler::finish`]).
pub open spec fn numbers_given(start: int, calls: Seq<bool>) -> Seq<int>
    decreases calls.len(),
{
    if calls.len() == 0 {
        Seq::empty()
    } else {
        let before = numbers_given(start, calls.drop_last());
        if calls.last() {
            before.push(start + before.len())
        } else {
            before
        }
    }
}

/// Over a whole run from a fresh reassembler, the packets that go out are
/// numbered 0, 1, 2, … in the order they go out, whatever arrives between.
pub proof fn lemma_packet_numbers_consecutive(calls: Seq<bool>)
    ensures
        forall|k: int| 0 <= k < numbers_given(0, calls).len() ==> #[trigger] numbers_given(0, calls)[k] == k,
    decreases calls.len(),
{
    if calls.len() > 0 {
        let prev = calls.drop_last();
        lemma_packet_numbers_consecutive(prev);
        let before = numbers_given(0, prev);
        let now = numbers_given(0, calls);
        assert forall|k: int| 0 <= k < now.len() implies #[trigger] now[k] == k by {
            if calls.last() {
                assert(now == before.push(0int + before.len()));
                if k < before.len() {
                    assert(now[k] == before[k]);
                }
            } else {
                assert(now == before);
                assert(now[k] == before[k]);
            }
        }
    }
}

/// One drain step, then draining what is left, is draining: the sub-GOPs
/// that repeated [`GopSplitter::drain_step`] calls and a final
/// [`GopSplitter::into_rest`] hand out are those of
/// [`GopSplitter::finish`].
pub proof fn lemma_drain_step_then_rest<F>(s: SplitterState<F>)
    requires
        drainable(s.lookahead, s.scene),
    ensures
        ({
            let (s2, out) = drain_one(s);
            match out {
                Some(g) => drain_steps(s.lookahead, s.scene) == seq![g] + drain_steps(
                    s2.lookahead,
                    s2.scene,
                ) && drainable(s2.lookahead, s2.scene),
                None => drain_steps(s.lookahead, s.scene) == (if s.lookahead.len() == 0 {
                    Seq::<(Seq<F>, bool)>::empty()
                } else {
                    seq![(s.lookahead, true)]
                }),
            }
        }),
{
    if split_point(s.lookahead.len() as int, opens_gop(s.scene)) is Some {
        lemma_drain_step_decreases(s.lookahead, s.scene);
    }
}

} // verus!
