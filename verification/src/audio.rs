use vstd::prelude::*;

verus! {

/// Samples per 20 ms voice-activity frame at 16 kHz.
pub const SAMPLES_PER_FRAME: usize = 320;

/// Configuration of the streaming recogniser.
#[derive(Debug, Clone)]
pub struct AudioRecognizerConfig {
    /// Length of one audio chunk, in milliseconds.
    pub chunk_time_ms: u64,
    /// The fixed vocabulary handed to the decoder.
    pub grammar: Vec<String>,
    /// How long silence must last, in milliseconds, before an utterance
    /// is considered finished.
    pub vad_silence_duration: u64,
}

impl Default for AudioRecognizerConfig {
    fn default() -> (c: Self)
        ensures
            c.chunk_time_ms == 200,
            c.grammar@.len() == 0,
            c.vad_silence_duration == 500,
    {
        Self { chunk_time_ms: 200, grammar: Vec::new(), vad_silence_duration: 500 }
    }
}

impl AudioRecognizerConfig {
    /// Replaces the decoder vocabulary.
    pub fn set_grammar(&mut self, grammar: Vec<String>)
        ensures
            final(self).grammar == grammar,
            final(self).chunk_time_ms == old(self).chunk_time_ms,
            final(self).vad_silence_duration == old(self).vad_silence_duration,
    {
        self.grammar = grammar;
    }
}

/// One transcript from the decoder: a growing partial, or the single
/// final transcript of an utterance.
#[derive(Debug, Clone, PartialEq, Eq)]
pub struct RecognitionResult {
    pub text: String,
    pub is_partial: bool,
}

/// What can go wrong while processing audio.
#[derive(Debug, Clone, Copy, PartialEq, Eq, Structural)]
pub enum AudioError {
    /// The voice-activity detector rejected a frame.
    DetectSpeech,
    /// The decoder produced no single final transcript.
    FinalResult,
}

impl AudioError {
    /// The description each failure carries.
    pub open spec fn describe_spec(&self) -> Seq<char> {
        match self {
            AudioError::DetectSpeech => "failed to detect speech"@,
            AudioError::FinalResult => "failed to get final result"@,
        }
    }

    /// Human-readable description of the failure.
    pub fn describe(&self) -> (r: &'static str)
        ensures
            r@ == self.describe_spec(),
    {
        match self {
            AudioError::DetectSpeech => "failed to detect speech",
            AudioError::FinalResult => "failed to get final result",
        }
    }
}

/// The voice-activity gate's whole mutable state.
pub struct GateState {
    /// Whether an utterance is in progress.
    pub is_speaking: bool,
    /// When the current run of silence started, in milliseconds, if one
    /// is being timed.
    pub silence_start: Option<u64>,
    /// One-shot flag: an utterance just ended and awaits finalisation.
    pub is_finalized: bool,
}

/// The voice gate after one speech/no-speech observation at time `now`.
/// Speech opens the voice gate and cancels the silence timer.  Silence is
/// ignored while the voice gate is closed; while open it starts the timer, and
/// once the timer has run for at least `dur` it closes the voice gate and
/// sets the one-shot finalize flag.
pub open spec fn gate_update(st: GateState, dur: u64, is_speech: bool, now: u64) -> GateState {
    if is_speech {
        GateState { is_speaking: true, silence_start: None, is_finalized: st.is_finalized }
    } else if !st.is_speaking {
        st
    } else {
        match st.silence_start {
            None => GateState {
                is_speaking: st.is_speaking,
                silence_start: Some(now),
                is_finalized: st.is_finalized,
            },
            Some(s) => if now >= s + dur {
                GateState { is_speaking: false, silence_start: None, is_finalized: true }
            } else {
                st
            },
        }
    }
}

/// One frame inside a chunk: bump the consecutive-frame counters, then
/// apply the hysteresis thresholds (more than three consecutive active
/// frames open the voice gate; more than five consecutive inactive frames feed
/// the silence timer).
pub open spec fn frame_step(
    st: GateState,
    act: int,
    non: int,
    dur: u64,
    now: u64,
    is_active: bool,
) -> (GateState, int, int) {
    let act2 = if is_active {
        act + 1
    } else {
        0
    };
    let non2 = if is_active {
        0
    } else {
        non + 1
    };
    let st1 = if act2 > 3 {
        gate_update(st, dur, true, now)
    } else {
        st
    };
    let st2 = if non2 > 5 {
        gate_update(st1, dur, false, now)
    } else {
        st1
    };
    (st2, act2, non2)
}

/// Folds a chunk's frame classifications through the voice gate, threading the
/// two consecutive-frame counters.
pub open spec fn chunk_fold(
    st: GateState,
    act: int,
    non: int,
    dur: u64,
    now: u64,
    flags: Seq<bool>,
) -> (GateState, int, int)
    decreases flags.len(),
{
    if flags.len() == 0 {
        (st, act, non)
    } else {
        let (st2, a2, n2) = frame_step(st, act, non, dur, now, flags[0]);
        chunk_fold(st2, a2, n2, dur, now, flags.drop_first())
    }
}

/// The voice gate after one whole chunk; the counters start at zero for every
/// chunk.
pub open spec fn gate_after_chunk(st: GateState, dur: u64, now: u64, flags: Seq<bool>) -> GateState {
    chunk_fold(st, 0, 0, dur, now, flags).0
}

/// The active-frame counter after the first `k` frames, starting from
/// `act0`: the length of the current run of active frames.
pub open spec fn act_counter(act0: int, flags: Seq<bool>, k: int) -> int
    decreases k,
{
    if k <= 0 {
        act0
    } else if 0 <= k - 1 < flags.len() && flags[k - 1] {
        act_counter(act0, flags, k - 1) + 1
    } else {
        0
    }
}

/// A chunk whose active-frame counter never exceeds the threshold of
/// three never opens the voice gate.
pub open spec fn no_activation(act0: int, flags: Seq<bool>) -> bool {
    forall|k: int| 1 <= k <= flags.len() ==> act_counter(act0, flags, k) <= 3
}

proof fn lemma_act_counter_shift(act0: int, flags: Seq<bool>, k: int)
    requires
        flags.len() > 0,
        0 <= k <= flags.len() - 1,
    ensures
        act_counter(
            if flags[0] {
                act0 + 1
            } else {
                0
            },
            flags.drop_first(),
            k,
        ) == act_counter(act0, flags, k + 1),
    decreases k,
{
    let a1 = if flags[0] {
        act0 + 1
    } else {
        0
    };
    if k > 0 {
        lemma_act_counter_shift(act0, flags, k - 1);
        assert(flags.drop_first()[k - 1] == flags[k]);
        assert(act_counter(a1, flags.drop_first(), k) == (if flags[k] {
            act_counter(a1, flags.drop_first(), k - 1) + 1
        } else {
            0
        }));
        assert(act_counter(act0, flags, k + 1) == (if flags[k] {
            act_counter(act0, flags, k) + 1
        } else {
            0
        }));
    } else {
        assert(act_counter(a1, flags.drop_first(), 0) == a1);
        assert(act_counter(act0, flags, 0) == act0);
        assert(act_counter(act0, flags, 1) == a1);
    }
}

/// From a closed gate, a chunk that never accumulates more than three
/// consecutive active frames changes nothing: silence on a closed gate
/// is ignored, so the finalize flag cannot be set again.
proof fn lemma_fold_no_fire(st: GateState, act: int, non: int, dur: u64, now: u64, flags: Seq<bool>)
    requires
        !st.is_speaking,
        no_activation(act, flags),
    ensures
        chunk_fold(st, act, non, dur, now, flags).0 == st,
    decreases flags.len(),
{
    if flags.len() > 0 {
        let (st2, a2, n2) = frame_step(st, act, non, dur, now, flags[0]);
        assert(act_counter(act, flags, 0) == act);
        assert(a2 == act_counter(act, flags, 1));
        assert(a2 <= 3);
        assert(st2 == st);
        assert forall|k: int|
            1 <= k <= flags.drop_first().len() implies act_counter(a2, flags.drop_first(), k)
            <= 3 by {
            lemma_act_counter_shift(act, flags, k);
        }
        lemma_fold_no_fire(st, a2, n2, dur, now, flags.drop_first());
    }
}

proof fn lemma_fold_counters_nonneg(
    st: GateState,
    act: int,
    non: int,
    dur: u64,
    now: u64,
    flags: Seq<bool>,
)
    requires
        act >= 0,
        non >= 0,
    ensures
        chunk_fold(st, act, non, dur, now, flags).1 >= 0,
        chunk_fold(st, act, non, dur, now, flags).2 >= 0,
    decreases flags.len(),
{
    if flags.len() > 0 {
        let fs = frame_step(st, act, non, dur, now, flags[0]);
        lemma_fold_counters_nonneg(fs.0, fs.1, fs.2, dur, now, flags.drop_first());
    }
}

proof fn lemma_fold_trailing_actives(
    st: GateState,
    act: int,
    non: int,
    dur: u64,
    now: u64,
    flags: Seq<bool>,
    t: int,
)
    requires
        act >= 0,
        non >= 0,
        0 <= t <= flags.len(),
        forall|i: int| flags.len() - t <= i < flags.len() ==> flags[i],
    ensures
        chunk_fold(st, act, non, dur, now, flags).1 >= t,
        t >= 4 ==> chunk_fold(st, act, non, dur, now, flags).0.is_speaking,
    decreases t,
{
    if t == 0 {
        lemma_fold_counters_nonneg(st, act, non, dur, now, flags);
    } else {
        let q = flags.drop_last();
        assert(flags =~= q.push(flags.last()));
        lemma_fold_trailing_actives(st, act, non, dur, now, q, t - 1);
        lemma_chunk_fold_snoc(st, act, non, dur, now, q, flags.last());
        lemma_fold_counters_nonneg(st, act, non, dur, now, q);
    }
}

/// Any chunk that ends in at least four consecutive active frames opens
/// the voice gate: the active-frame counter passes the threshold of
/// three on the chunk's last frame.
pub proof fn lemma_activation_opens_gate(st: GateState, dur: u64, now: u64, flags: Seq<bool>)
    requires
        flags.len() >= 4,
        forall|i: int| flags.len() - 4 <= i < flags.len() ==> flags[i],
    ensures
        gate_after_chunk(st, dur, now, flags).is_speaking,
{
    lemma_fold_trailing_actives(st, 0, 0, dur, now, flags, 4);
}

/// The first five inactive frames of a chunk leave everything untouched:
/// the inactive-frame counter has not yet passed its threshold of five.
proof fn lemma_fold_five_falses(st: GateState, dur: u64, now: u64, flags: Seq<bool>, k: int)
    requires
        0 <= k <= 5,
        k <= flags.len(),
        forall|i: int| 0 <= i < k ==> !flags[i],
    ensures
        chunk_fold(st, 0, 0, dur, now, flags.take(k)).0 == st,
        chunk_fold(st, 0, 0, dur, now, flags.take(k)).1 == 0,
        chunk_fold(st, 0, 0, dur, now, flags.take(k)).2 == k,
    decreases k,
{
    if k == 0 {
        assert(flags.take(0) =~= Seq::<bool>::empty());
    } else {
        lemma_fold_five_falses(st, dur, now, flags, k - 1);
        lemma_chunk_fold_snoc(st, 0, 0, dur, now, flags.take(k - 1), flags[k - 1]);
        assert(flags.take(k - 1).push(flags[k - 1]) =~= flags.take(k));
    }
}

/// Folding a concatenation is folding the parts one after the other.
proof fn lemma_fold_concat(
    st: GateState,
    act: int,
    non: int,
    dur: u64,
    now: u64,
    xs: Seq<bool>,
    ys: Seq<bool>,
)
    ensures
        ({
            let f = chunk_fold(st, act, non, dur, now, xs);
            let g = chunk_fold(st, act, non, dur, now, xs + ys);
            let h = chunk_fold(f.0, f.1, f.2, dur, now, ys);
            g.0 == h.0 && g.1 == h.1 && g.2 == h.2
        }),
    decreases xs.len(),
{
    if xs.len() == 0 {
        assert(xs + ys =~= ys);
    } else {
        assert((xs + ys)[0] == xs[0]);
        assert((xs + ys).drop_first() =~= xs.drop_first() + ys);
        let fs = frame_step(st, act, non, dur, now, xs[0]);
        lemma_fold_concat(fs.0, fs.1, fs.2, dur, now, xs.drop_first(), ys);
    }
}

proof fn lemma_fold_all_false_steady(
    st: GateState,
    act: int,
    non: int,
    dur: u64,
    now: u64,
    flags: Seq<bool>,
)
    requires
        forall|i: int| 0 <= i < flags.len() ==> !flags[i],
        st.is_speaking,
        st.silence_start matches Some(t0) && !(now >= t0 + dur),
    ensures
        chunk_fold(st, act, non, dur, now, flags).0 == st,
    decreases flags.len(),
{
    if flags.len() > 0 {
        let fs = frame_step(st, act, non, dur, now, flags[0]);
        assert(fs.0 == st);
        assert forall|i: int| 0 <= i < flags.drop_first().len() implies !flags.drop_first()[i] by {
            assert(flags.drop_first()[i] == flags[i + 1]);
        }
        lemma_fold_all_false_steady(st, fs.1, fs.2, dur, now, flags.drop_first());
    }
}

/// While the voice gate is open with no silence being timed, a chunk of
/// at least six inactive frames starts the silence timer at the chunk's
/// time and changes nothing else.  A positive duration is needed: with a
/// zero duration the freshly started timer already fires within the same
/// chunk.
pub proof fn lemma_silence_starts_timer(st: GateState, dur: u64, now: u64, flags: Seq<bool>)
    requires
        dur > 0,
        st.is_speaking,
        st.silence_start is None,
        flags.len() >= 6,
        forall|i: int| 0 <= i < flags.len() ==> !flags[i],
    ensures
        gate_after_chunk(st, dur, now, flags) == (GateState {
            is_speaking: true,
            silence_start: Some(now),
            is_finalized: st.is_finalized,
        }),
{
    lemma_fold_five_falses(st, dur, now, flags, 5);
    lemma_chunk_fold_snoc(st, 0, 0, dur, now, flags.take(5), flags[5]);
    assert(flags.take(5).push(flags[5]) =~= flags.take(6));
    let timed = GateState {
        is_speaking: true,
        silence_start: Some(now),
        is_finalized: st.is_finalized,
    };
    let f6 = chunk_fold(st, 0, 0, dur, now, flags.take(6));
    assert(f6.0 == timed && f6.1 == 0 && f6.2 == 6);
    assert(flags.take(6) + flags.skip(6) =~= flags);
    lemma_fold_concat(st, 0, 0, dur, now, flags.take(6), flags.skip(6));
    assert forall|i: int| 0 <= i < flags.skip(6).len() implies !flags.skip(6)[i] by {
        assert(flags.skip(6)[i] == flags[i + 6]);
    }
    lemma_fold_all_false_steady(timed, 0, 6, dur, now, flags.skip(6));
}

/// Once the silence timer has been running for at least the configured
/// duration, a chunk of at least six inactive frames fires the finalize
/// flag and closes the voice gate — and, the voice gate then being
/// closed, nothing further in the chunk can fire it again.
pub proof fn lemma_long_silence_fires(
    st: GateState,
    dur: u64,
    now: u64,
    t0: u64,
    flags: Seq<bool>,
)
    requires
        st.is_speaking,
        st.silence_start == Some(t0),
        now >= t0 + dur,
        flags.len() >= 6,
        forall|i: int| 0 <= i < flags.len() ==> !flags[i],
    ensures
        gate_after_chunk(st, dur, now, flags) == (GateState {
            is_speaking: false,
            silence_start: None,
            is_finalized: true,
        }),
{
    lemma_fold_five_falses(st, dur, now, flags, 5);
    lemma_chunk_fold_snoc(st, 0, 0, dur, now, flags.take(5), flags[5]);
    assert(flags.take(5).push(flags[5]) =~= flags.take(6));
    let fired = GateState { is_speaking: false, silence_start: None, is_finalized: true };
    let f6 = chunk_fold(st, 0, 0, dur, now, flags.take(6));
    assert(f6.0 == fired && f6.1 == 0 && f6.2 == 6);
    assert(flags.take(6) + flags.skip(6) =~= flags);
    lemma_fold_concat(st, 0, 0, dur, now, flags.take(6), flags.skip(6));
    assert forall|i: int| 0 <= i < flags.skip(6).len() implies !flags.skip(6)[i] by {
        assert(flags.skip(6)[i] == flags[i + 6]);
    }
    assert forall|k: int|
        1 <= k <= flags.skip(6).len() implies act_counter(0, flags.skip(6), k) <= 3 by {
        assert(!flags.skip(6)[k - 1]);
    }
    lemma_fold_no_fire(fired, 0, 6, dur, now, flags.skip(6));
}

/// A stream of chunks, each a sequence of per-frame voice classifications
/// together with the time the chunk was handled.
pub open spec fn gate_run(st: GateState, dur: u64, chunks: Seq<(Seq<bool>, u64)>) -> GateState
    decreases chunks.len(),
{
    if chunks.len() == 0 {
        st
    } else {
        gate_run(gate_after_chunk(st, dur, chunks[0].1, chunks[0].0), dur, chunks.drop_first())
    }
}

/// The step that sets the finalize flag also closes the voice gate: any
/// observation that turns the flag on leaves the voice gate not speaking with
/// the silence timer cleared.
pub proof fn lemma_firing_closes_gate(st: GateState, dur: u64, is_speech: bool, now: u64)
    ensures
        ({
            let st2 = gate_update(st, dur, is_speech, now);
            (st2.is_finalized && !st.is_finalized) ==> (!st2.is_speaking && st2.silence_start
                is None)
        }),
{
}

/// The finalize flag fires at most once per utterance: once the voice gate is
/// closed (as it is right after firing), any further stream of chunks in
/// which no chunk accumulates more than three consecutive active frames
/// leaves the whole gate state unchanged — however long the silence
/// lasts, the flag is not set again until speech reopens the voice gate.
pub proof fn lemma_finalize_fires_once(st: GateState, dur: u64, chunks: Seq<(Seq<bool>, u64)>)
    requires
        !st.is_speaking,
        forall|i: int| 0 <= i < chunks.len() ==> no_activation(0, (#[trigger] chunks[i]).0),
    ensures
        gate_run(st, dur, chunks) == st,
    decreases chunks.len(),
{
    if chunks.len() > 0 {
        lemma_fold_no_fire(st, 0, 0, dur, chunks[0].1, chunks[0].0);
        lemma_finalize_fires_once(st, dur, chunks.drop_first());
    }
}

/// Declares the external per-frame voice detector so its type can stand
/// in signatures; its values stay opaque.
#[verifier::external_type_specification]
#[verifier::external_body]
pub struct ExVad(webrtc_vad::Vad);

/// Relies on `webrtc_vad::Vad::is_voice_segment`: classifies one PCM
/// frame as voice or not, failing on frame lengths the detector does not
/// support.  Nothing can be promised of the verdict itself.
#[verifier::external_body]
fn vad_is_voice(vad: &mut webrtc_vad::Vad, frame: &[i16]) -> (r: Result<bool, ()>)
    requires
        frame@.len() > 0,
{
    vad.is_voice_segment(frame)
}

/// The voice-activity gate itself: owns the speaking state, the silence
/// timer and the one-shot finalize flag, and moves exactly as the spec
/// functions [`gate_update`] and [`gate_after_chunk`] describe.
pub struct VoiceGate {
    /// Whether an utterance is in progress.
    pub is_speaking: bool,
    /// When the current run of silence started, in milliseconds.
    pub silence_start: Option<u64>,
    /// One-shot flag: an utterance just ended and awaits finalisation.
    pub is_finalized: bool,
}

impl VoiceGate {
    /// The voice gate's state as one value.
    pub open spec fn state(&self) -> GateState {
        GateState {
            is_speaking: self.is_speaking,
            silence_start: self.silence_start,
            is_finalized: self.is_finalized,
        }
    }

    /// A closed gate with no silence being timed and the flag clear.
    pub fn new() -> (g: VoiceGate)
        ensures
            !g.is_speaking,
            g.silence_start is None,
            !g.is_finalized,
    {
        VoiceGate { is_speaking: false, silence_start: None, is_finalized: false }
    }

    /// Applies one speech/no-speech observation at time `now_ms`,
    /// exactly as [`gate_update`] describes.
    pub fn update(&mut self, dur: u64, is_speech: bool, now_ms: u64)
        ensures
            final(self).state() == gate_update(old(self).state(), dur, is_speech, now_ms),
    {
        if is_speech {
            self.silence_start = None;
            self.is_speaking = true;
        } else if self.is_speaking {
            match self.silence_start {
                Some(s) => {
                    if now_ms >= s && now_ms - s >= dur {
                        self.is_speaking = false;
                        self.silence_start = None;
                        self.is_finalized = true;
                    }
                },
                None => {
                    self.silence_start = Some(now_ms);
                },
            }
        }
    }

    /// Folds one chunk's frame classifications through the voice gate, the two
    /// consecutive-frame counters starting at zero, exactly as
    /// [`gate_after_chunk`] describes.
    pub fn apply_frames(&mut self, frames: &[bool], dur: u64, now_ms: u64)
        ensures
            final(self).state() == gate_after_chunk(old(self).state(), dur, now_ms, frames@),
    {
        let ghost st0 = self.state();
        let n = frames.len();
        let mut active_frames: usize = 0;
        let mut non_active_frames: usize = 0;
        let mut f: usize = 0;
        while f < n
            invariant
                f <= n,
                n == frames@.len(),
                active_frames <= f,
                non_active_frames <= f,
                st0 == old(self).state(),
                self.state() == chunk_fold(st0, 0, 0, dur, now_ms, frames@.take(f as int)).0,
                active_frames as int == chunk_fold(
                    st0,
                    0,
                    0,
                    dur,
                    now_ms,
                    frames@.take(f as int),
                ).1,
                non_active_frames as int == chunk_fold(
                    st0,
                    0,
                    0,
                    dur,
                    now_ms,
                    frames@.take(f as int),
                ).2,
            decreases n - f,
        {
            let is_active = frames[f];
            let ghost st_before = self.state();
            let ghost act_before = active_frames as int;
            let ghost non_before = non_active_frames as int;
            if is_active {
                active_frames = active_frames + 1;
                non_active_frames = 0;
            } else {
                active_frames = 0;
                non_active_frames = non_active_frames + 1;
            }
            if active_frames > 3 {
                self.update(dur, true, now_ms);
            }
            if non_active_frames > 5 {
                self.update(dur, false, now_ms);
            }
            proof {
                lemma_chunk_fold_snoc(st0, 0, 0, dur, now_ms, frames@.take(f as int), is_active);
                assert(frames@.take(f as int).push(is_active) =~= frames@.take(f + 1));
                let fs = frame_step(st_before, act_before, non_before, dur, now_ms, is_active);
                assert(self.state() == fs.0);
                assert(active_frames as int == fs.1);
                assert(non_active_frames as int == fs.2);
            }
            f = f + 1;
        }
        proof {
            assert(frames@.take(n as int) =~= frames@);
        }
    }
}

/// The gating half of the streaming recogniser.  It owns the
/// voice-activity gate and every decision around the external
/// incremental decoder: whether a chunk is decoded at all, what a
/// partial transcript becomes, when an utterance must be finalised, and
/// what its final transcript becomes.  The decoder itself runs outside
/// the library and hands its transcripts in as plain strings.
pub struct AudioRecognizer {
    /// Timing configuration and vocabulary.
    pub config: AudioRecognizerConfig,
    /// The voice-activity gate guarding the decoder.
    pub gate: VoiceGate,
}

impl AudioRecognizer {
    /// A recogniser with the voice gate closed.
    pub fn new(config: AudioRecognizerConfig) -> (r: Self)
        ensures
            !r.gate.is_speaking,
            r.gate.silence_start is None,
            !r.gate.is_finalized,
            r.config == config,
    {
        AudioRecognizer { config, gate: VoiceGate::new() }
    }

    /// Splits the chunk into exact 20 ms frames (discarding a partial
    /// trailing frame), classifies each frame through the external
    /// detector, and folds the verdicts through the voice gate with the
    /// consecutive-frame counters starting at zero.  Whatever verdicts
    /// the detector returns, the voice gate moves exactly as [`gate_after_chunk`]
    /// describes for that verdict sequence; a detector error stops the
    /// chunk early, the frames classified so far already applied.  A
    /// chunk shorter than one frame makes no detector call and is a
    /// no-op.
    pub fn detect_speech(
        &mut self,
        audio_chunk: &[i16],
        vad: &mut webrtc_vad::Vad,
        now_ms: u64,
    ) -> (r: Result<(), AudioError>)
        ensures
            final(self).config == old(self).config,
            audio_chunk@.len() as int / (SAMPLES_PER_FRAME as int) == 0 ==> (r is Ok
                && final(self).gate.state() == old(self).gate.state()),
            r is Ok ==> exists|flags: Seq<bool>|
                flags.len() == audio_chunk@.len() as int / (SAMPLES_PER_FRAME as int)
                    && final(self).gate.state() == gate_after_chunk(
                    old(self).gate.state(),
                    old(self).config.vad_silence_duration,
                    now_ms,
                    flags,
                ),
            r is Err ==> exists|flags: Seq<bool>|
                flags.len() <= audio_chunk@.len() as int / (SAMPLES_PER_FRAME as int)
                    && final(self).gate.state() == gate_after_chunk(
                    old(self).gate.state(),
                    old(self).config.vad_silence_duration,
                    now_ms,
                    flags,
                ),
    {
        let n_frames = audio_chunk.len() / SAMPLES_PER_FRAME;
        let mut flags: Vec<bool> = Vec::new();
        let mut f: usize = 0;
        let mut failed = false;
        while f < n_frames && !failed
            invariant
                f <= n_frames,
                n_frames == audio_chunk@.len() as int / (SAMPLES_PER_FRAME as int),
                SAMPLES_PER_FRAME * n_frames <= audio_chunk@.len(),
                audio_chunk@.len() <= usize::MAX,
                !failed ==> flags@.len() == f,
                failed ==> flags@.len() <= f,
                failed ==> 1 <= f,
                self == old(self),
            decreases n_frames - f,
        {
            let start = f * SAMPLES_PER_FRAME;
            let frame = &audio_chunk[start..start + SAMPLES_PER_FRAME];
            match vad_is_voice(vad, frame) {
                Ok(b) => {
                    flags.push(b);
                },
                Err(()) => {
                    failed = true;
                },
            }
            f = f + 1;
        }
        let dur = self.config.vad_silence_duration;
        proof {
            if n_frames == 0 {
                assert(flags@ =~= Seq::<bool>::empty());
            }
        }
        self.gate.apply_frames(flags.as_slice(), dur, now_ms);
        proof {
            if n_frames == 0 {
                assert(gate_after_chunk(
                    old(self).gate.state(),
                    dur,
                    now_ms,
                    Seq::<bool>::empty(),
                ) == old(self).gate.state());
            }
        }
        if failed {
            Err(AudioError::DetectSpeech)
        } else {
            Ok(())
        }
    }

    /// Whether the current chunk must be fed to the decoder: only while
    /// the voice gate reports speech.
    pub fn should_decode(&self) -> (b: bool)
        ensures
            b == self.gate.is_speaking,
    {
        self.gate.is_speaking
    }

    /// Wraps the decoder's current partial transcript, produced for every
    /// chunk decoded while the voice gate reports speech; outside speech the
    /// decoder was never fed, so there is nothing to report.
    pub fn process_partial(&self, text: String) -> (r: Option<RecognitionResult>)
        ensures
            self.gate.is_speaking ==> (r matches Some(res) && res.text@ == text@
                && res.is_partial),
            !self.gate.is_speaking ==> r is None,
    {
        if self.gate.is_speaking {
            Some(RecognitionResult { text, is_partial: true })
        } else {
            None
        }
    }

    /// Drains the one-shot finalize flag: reports whether an utterance
    /// just ended, clearing the flag so it is observed at most once.
    pub fn take_finalize_flag(&mut self) -> (b: bool)
        ensures
            b == old(self).gate.is_finalized,
            !final(self).gate.is_finalized,
            final(self).gate.is_speaking == old(self).gate.is_speaking,
            final(self).gate.silence_start == old(self).gate.silence_start,
            final(self).config == old(self).config,
    {
        let b = self.gate.is_finalized;
        self.gate.is_finalized = false;
        b
    }

    /// Turns the decoder's answer to a finalised utterance into the one
    /// final result, closing the voice gate so the next utterance starts
    /// clean.  A decoder that yields no single transcript is an error and
    /// the utterance is abandoned with the voice gate untouched.
    pub fn finalize(&mut self, text: Option<String>) -> (r: Result<RecognitionResult, AudioError>)
        ensures
            final(self).config == old(self).config,
            match text {
                Some(t) => r matches Ok(res) && res.text@ == t@ && !res.is_partial
                    && !final(self).gate.is_speaking && final(self).gate.silence_start is None
                    && !final(self).gate.is_finalized,
                None => r == Err::<RecognitionResult, AudioError>(AudioError::FinalResult)
                    && final(self).gate.state() == old(self).gate.state(),
            },
    {
        match text {
            Some(t) => {
                self.reset();
                Ok(RecognitionResult { text: t, is_partial: false })
            },
            None => Err(AudioError::FinalResult),
        }
    }

    /// Closes the voice gate so the next utterance starts clean; the external
    /// decoder must be reset alongside.
    pub fn reset(&mut self)
        ensures
            final(self).config == old(self).config,
            !final(self).gate.is_speaking,
            final(self).gate.silence_start is None,
            !final(self).gate.is_finalized,
    {
        self.gate.is_speaking = false;
        self.gate.silence_start = None;
        self.gate.is_finalized = false;
    }
}

/// Folding one more frame is one more [`frame_step`].
proof fn lemma_chunk_fold_snoc(
    st: GateState,
    act: int,
    non: int,
    dur: u64,
    now: u64,
    flags: Seq<bool>,
    x: bool,
)
    ensures
        ({
            let f = chunk_fold(st, act, non, dur, now, flags);
            let fs = frame_step(f.0, f.1, f.2, dur, now, x);
            let g = chunk_fold(st, act, non, dur, now, flags.push(x));
            g.0 == fs.0 && g.1 == fs.1 && g.2 == fs.2
        }),
    decreases flags.len(),
{
    let p = flags.push(x);
    if flags.len() == 0 {
        assert(p[0] == x);
        assert(p.drop_first() =~= Seq::<bool>::empty());
        let fs = frame_step(st, act, non, dur, now, x);
        assert(chunk_fold(fs.0, fs.1, fs.2, dur, now, Seq::<bool>::empty()).0 == fs.0);
        assert(chunk_fold(st, act, non, dur, now, p).0 == fs.0);
        assert(chunk_fold(st, act, non, dur, now, p).1 == fs.1);
        assert(chunk_fold(st, act, non, dur, now, p).2 == fs.2);
        assert(chunk_fold(st, act, non, dur, now, flags).0 == st);
    } else {
        assert(p[0] == flags[0]);
        assert(p.drop_first() =~= flags.drop_first().push(x));
        let fs = frame_step(st, act, non, dur, now, flags[0]);
        lemma_chunk_fold_snoc(fs.0, fs.1, fs.2, dur, now, flags.drop_first(), x);
        assert(chunk_fold(st, act, non, dur, now, p).0 == chunk_fold(
            fs.0,
            fs.1,
            fs.2,
            dur,
            now,
            p.drop_first(),
        ).0);
        assert(chunk_fold(st, act, non, dur, now, flags).0 == chunk_fold(
            fs.0,
            fs.1,
            fs.2,
            dur,
            now,
            flags.drop_first(),
        ).0);
    }
}

/// A 16-bit little-endian sample read from two bytes.
pub open spec fn sample_of(lo: u8, hi: u8) -> i16 {
    (((hi as u16) << 8u16) | (lo as u16)) as i16
}

/// Decodes little-endian 16-bit PCM from a byte stream; a trailing odd
/// byte is discarded.
pub fn pcm_from_le_bytes(bytes: &[u8]) -> (pcm: Vec<i16>)
    ensures
        pcm@.len() == bytes@.len() / 2,
        forall|i: int|
            0 <= i < pcm@.len() ==> pcm@[i] == sample_of(bytes@[2 * i], bytes@[2 * i + 1]),
{
    let n = bytes.len() / 2;
    let mut pcm: Vec<i16> = Vec::new();
    let mut i: usize = 0;
    while i < n
        invariant
            i <= n,
            n == bytes@.len() / 2,
            2 * n <= bytes@.len(),
            bytes@.len() <= usize::MAX,
            pcm@.len() == i,
            forall|k: int|
                0 <= k < i ==> pcm@[k] == sample_of(bytes@[2 * k], bytes@[2 * k + 1]),
        decreases n - i,
    {
        let lo = bytes[2 * i];
        let hi = bytes[2 * i + 1];
        let sample = (((hi as u16) << 8u16) | (lo as u16)) as i16;
        pcm.push(sample);
        i = i + 1;
    }
    pcm
}

} // verus!
