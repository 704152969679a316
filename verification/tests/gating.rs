use hellcall::audio::{
    pcm_from_le_bytes, AudioError, AudioRecognizer, AudioRecognizerConfig, VoiceGate,
};
use hellcall::command::Command;
use hellcall::config::{build_grammar, CommandConfig, RecognizerConfig, TriggerConfig};
use hellcall::keypress::{KeyPresser, ValidateError};
use hellcall::keys::{Input, KeyPresserConfig, LocalKey};
use hellcall::speaker::Speaker;
use hellcall::utils::string::{StringOptionUtils, StringUtils};

const DUR: u64 = 500;

#[test]
fn gate_opens_after_four_consecutive_active_frames() {
    let mut g = VoiceGate::new();
    g.apply_frames(&[true, true, true], DUR, 0);
    assert!(!g.is_speaking);
    g.apply_frames(&[true, true, true, true], DUR, 0);
    assert!(g.is_speaking);
    assert!(!g.is_finalized);
}

#[test]
fn gate_counters_reset_each_chunk() {
    let mut g = VoiceGate::new();
    // Two active frames per chunk never reach the threshold, however many
    // chunks arrive.
    for t in 0..10u64 {
        g.apply_frames(&[true, true], DUR, t);
    }
    assert!(!g.is_speaking);
}

#[test]
fn finalize_flag_fires_exactly_once() {
    let mut g = VoiceGate::new();
    g.apply_frames(&[true; 4], DUR, 0);
    assert!(g.is_speaking);
    // Six consecutive inactive frames start the silence timer.
    g.apply_frames(&[false; 6], DUR, 100);
    assert!(g.is_speaking);
    assert!(!g.is_finalized);
    assert_eq!(g.silence_start, Some(100));
    // Silence shorter than the configured duration does not fire.
    g.apply_frames(&[false; 6], DUR, 400);
    assert!(!g.is_finalized);
    g.apply_frames(&[false; 6], DUR, 599);
    assert!(!g.is_finalized);
    // Once the silence has lasted at least the duration, the flag
    // fires and the voice gate closes.
    g.apply_frames(&[false; 6], DUR, 700);
    assert!(g.is_finalized);
    assert!(!g.is_speaking);
    assert_eq!(g.silence_start, None);
    // Drain the one-shot flag; further silence never sets it again.
    g.is_finalized = false;
    g.apply_frames(&[false; 6], DUR, 5000);
    g.apply_frames(&[false; 6], DUR, 50000);
    assert!(!g.is_finalized);
    assert!(!g.is_speaking);
}

#[test]
fn finalize_fires_exactly_at_the_configured_duration() {
    let mut g = VoiceGate::new();
    g.apply_frames(&[true; 4], DUR, 0);
    g.apply_frames(&[false; 6], DUR, 100);
    assert_eq!(g.silence_start, Some(100));
    // Elapsed time equal to the duration already fires.
    g.apply_frames(&[false; 6], DUR, 600);
    assert!(g.is_finalized);
    assert!(!g.is_speaking);
}

#[test]
fn silence_on_closed_gate_is_ignored() {
    let mut g = VoiceGate::new();
    g.apply_frames(&[false; 32], DUR, 0);
    g.apply_frames(&[false; 32], DUR, 10_000);
    assert!(!g.is_speaking);
    assert!(!g.is_finalized);
    assert_eq!(g.silence_start, None);
}

#[test]
fn speech_cancels_running_silence_timer() {
    let mut g = VoiceGate::new();
    g.apply_frames(&[true; 4], DUR, 0);
    g.apply_frames(&[false; 6], DUR, 100);
    assert_eq!(g.silence_start, Some(100));
    g.apply_frames(&[true; 4], DUR, 200);
    assert_eq!(g.silence_start, None);
    assert!(g.is_speaking);
    // The old timer is gone, so later silence must run the full duration
    // again before firing.
    g.apply_frames(&[false; 6], DUR, 300);
    g.apply_frames(&[false; 6], DUR, 700);
    assert!(!g.is_finalized);
    g.apply_frames(&[false; 6], DUR, 900);
    assert!(g.is_finalized);
}

#[test]
fn silent_audio_never_opens_the_gate() {
    let mut ar = AudioRecognizer::new(AudioRecognizerConfig::default());
    let mut vad = webrtc_vad::Vad::new_with_rate_and_mode(
        webrtc_vad::SampleRate::Rate16kHz,
        webrtc_vad::VadMode::Aggressive,
    );
    // 200 ms of digital silence: ten full 20 ms frames.
    let chunk = [0i16; 3200];
    assert!(ar.detect_speech(&chunk, &mut vad, 0).is_ok());
    assert!(!ar.should_decode());
    assert!(!ar.take_finalize_flag());
    // A chunk shorter than one frame is a no-op.
    assert!(ar.detect_speech(&[0i16; 100], &mut vad, 20).is_ok());
    assert!(ar.detect_speech(&[], &mut vad, 40).is_ok());
    assert!(!ar.should_decode());
}

#[test]
fn partial_results_only_while_speaking() {
    let mut ar = AudioRecognizer::new(AudioRecognizerConfig::default());
    assert_eq!(ar.process_partial("hello".to_string()), None);
    ar.gate.is_speaking = true;
    let res = ar.process_partial("hello".to_string()).unwrap();
    assert_eq!(res.text, "hello");
    assert!(res.is_partial);
}

#[test]
fn take_finalize_flag_is_one_shot() {
    let mut ar = AudioRecognizer::new(AudioRecognizerConfig::default());
    ar.gate.is_finalized = true;
    assert!(ar.take_finalize_flag());
    assert!(!ar.take_finalize_flag());
}

#[test]
fn finalize_resets_gate_or_reports_the_failure() {
    let mut ar = AudioRecognizer::new(AudioRecognizerConfig::default());
    ar.gate.is_speaking = true;
    ar.gate.silence_start = Some(7);
    let res = ar.finalize(Some("open door".to_string())).unwrap();
    assert_eq!(res.text, "open door");
    assert!(!res.is_partial);
    assert!(!ar.gate.is_speaking);
    assert_eq!(ar.gate.silence_start, None);
    let mut ar2 = AudioRecognizer::new(AudioRecognizerConfig::default());
    ar2.gate.is_speaking = true;
    assert_eq!(ar2.finalize(None), Err(AudioError::FinalResult));
    assert!(ar2.gate.is_speaking);
}

#[test]
fn pcm_decodes_little_endian_samples() {
    let bytes = [0x34u8, 0x12, 0xff, 0xff, 0x00, 0x80, 0x01];
    let pcm = pcm_from_le_bytes(&bytes);
    // The trailing odd byte is discarded.
    assert_eq!(pcm, vec![0x1234, -1, i16::MIN]);
    assert_eq!(pcm_from_le_bytes(&[]), Vec::<i16>::new());
}

#[test]
fn recognizer_config_defaults() {
    let c = AudioRecognizerConfig::default();
    assert_eq!(c.chunk_time_ms, 200);
    assert_eq!(c.vad_silence_duration, 500);
    assert!(c.grammar.is_empty());
    let mut c2 = c.clone();
    c2.set_grammar(vec!["a b".to_string()]);
    assert_eq!(c2.grammar, vec!["a b".to_string()]);
}

#[test]
fn recognizer_config_conversion() {
    let rc = RecognizerConfig { chunk_time_ms: 150, vad_silence_duration: 750 };
    let ac = rc.to_audio_config();
    assert_eq!(ac.chunk_time_ms, 150);
    assert_eq!(ac.vad_silence_duration, 750);
    assert!(ac.grammar.is_empty());
}

#[test]
fn audio_error_messages() {
    assert_eq!(AudioError::DetectSpeech.describe(), "failed to detect speech");
    assert_eq!(AudioError::FinalResult.describe(), "failed to get final result");
}

#[test]
fn missing_audio_file_is_skipped_without_error() {
    let mut s = Speaker::new();
    let r = s.play_wav("definitely/not/present.wav");
    assert!(r.is_ok());
    assert!(s.queue.is_empty());
    assert_eq!(s.take_next(), None);
}

#[test]
fn present_audio_file_is_queued_in_order() {
    let mut s = Speaker::new();
    assert!(s.play_wav("/").is_ok());
    assert!(s.play_wav("missing.wav").is_ok());
    assert!(s.play_wav("/tmp").is_ok());
    assert_eq!(s.queue.len(), 2);
    assert_eq!(s.take_next(), Some("/".to_string()));
    assert_eq!(s.take_next(), Some("/tmp".to_string()));
    assert_eq!(s.take_next(), None);
}

fn cmd(name: &str, keys: Vec<LocalKey>, audio: Vec<&str>) -> CommandConfig {
    CommandConfig {
        command: name.to_string(),
        grammar: None,
        shortcut: None,
        keys,
        audio_files: audio.into_iter().map(|s| s.to_string()).collect(),
    }
}

fn key_map_pairs() -> Vec<(LocalKey, Input)> {
    vec![
        (LocalKey::UP, Input::Key(1)),
        (LocalKey::DOWN, Input::Key(2)),
        (LocalKey::LEFT, Input::Key(3)),
        (LocalKey::RIGHT, Input::Key(4)),
        (LocalKey::OPEN, Input::Key(5)),
        (LocalKey::RESEND, Input::Key(6)),
        (LocalKey::THROW, Input::Button(0)),
    ]
}

#[test]
fn command_table_rejects_invalid_sequences() {
    let bad = vec![cmd("broken", vec![LocalKey::UP, LocalKey::OPEN], vec![])];
    assert_eq!(Command::new(bad).err(), Some(ValidateError::OpenMustBeFirst));
    let empty = vec![cmd("empty", vec![], vec![])];
    assert_eq!(Command::new(empty).err(), Some(ValidateError::EmptyKeys));
}

#[test]
fn execute_known_command_arms_or_dispatches() {
    let table = Command::new(vec![
        cmd("deploy", vec![LocalKey::OPEN, LocalKey::UP], vec![]),
        cmd("walk", vec![LocalKey::UP, LocalKey::UP], vec![]),
    ])
    .unwrap();
    let mut presser =
        KeyPresser::new(KeyPresserConfig::default(), &key_map_pairs(), Vec::new()).unwrap();
    let mut speaker = Speaker::new();
    // A sequence starting with the open role is dispatched immediately.
    let d = table.execute("deploy", &mut presser, &mut speaker);
    assert_eq!(d, Some(vec![LocalKey::OPEN, LocalKey::UP]));
    // Any other sequence is armed, to fire on the open trigger.
    let d = table.execute("walk", &mut presser, &mut speaker);
    assert_eq!(d, None);
    assert_eq!(presser.on_input(Input::Key(5)), Some(vec![LocalKey::UP, LocalKey::UP]));
    assert!(speaker.queue.is_empty());
}

#[test]
fn execute_unknown_command_is_a_no_op() {
    let table = Command::new(vec![cmd("walk", vec![LocalKey::UP], vec![])]).unwrap();
    let mut presser =
        KeyPresser::new(KeyPresserConfig::default(), &key_map_pairs(), Vec::new()).unwrap();
    let mut speaker = Speaker::new();
    assert_eq!(table.execute("run", &mut presser, &mut speaker), None);
    assert_eq!(presser.on_input(Input::Key(5)), None);
    assert!(speaker.queue.is_empty());
}

#[test]
fn execute_queues_an_existing_audio_cue() {
    let table = Command::new(vec![cmd("walk", vec![LocalKey::UP], vec!["/tmp"])]).unwrap();
    let mut presser =
        KeyPresser::new(KeyPresserConfig::default(), &key_map_pairs(), Vec::new()).unwrap();
    let mut speaker = Speaker::new();
    table.execute("walk", &mut presser, &mut speaker);
    assert_eq!(speaker.queue, vec!["/tmp".to_string()]);
}

#[test]
fn execute_skips_a_missing_audio_cue() {
    let table = Command::new(vec![cmd("walk", vec![LocalKey::UP], vec!["gone.wav"])]).unwrap();
    let mut presser =
        KeyPresser::new(KeyPresserConfig::default(), &key_map_pairs(), Vec::new()).unwrap();
    let mut speaker = Speaker::new();
    table.execute("walk", &mut presser, &mut speaker);
    assert!(speaker.queue.is_empty());
}

#[test]
fn add_between_chars_spaces_characters_apart() {
    assert_eq!("hello".to_string().add_between_chars(" "), "h e l l o");
    assert_eq!("开启补给".to_string().add_between_chars(" "), "开 启 补 给");
    assert_eq!("x".to_string().add_between_chars(" "), "x");
    assert_eq!("".to_string().add_between_chars(" "), "");
    assert_eq!("ab".to_string().add_between_chars("--"), "a--b");
}

#[test]
fn optional_string_emptiness() {
    assert!(None::<String>.is_empty());
    assert!(Some("".to_string()).is_empty());
    assert!(!Some("x".to_string()).is_empty());
}

#[test]
fn grammar_uses_spaced_names_and_custom_entries() {
    let commands = vec![
        cmd("abc", vec![LocalKey::UP], vec![]),
        CommandConfig {
            command: "xyz".to_string(),
            grammar: Some("custom grammar".to_string()),
            shortcut: None,
            keys: vec![LocalKey::UP],
            audio_files: vec![],
        },
        CommandConfig {
            command: "pq".to_string(),
            grammar: Some("".to_string()),
            shortcut: None,
            keys: vec![LocalKey::UP],
            audio_files: vec![],
        },
    ];
    let trigger = TriggerConfig { hit_word: Some("hey".to_string()), hit_word_grammar: None };
    let grammar = build_grammar(&commands, &trigger);
    assert_eq!(grammar, vec!["a b c", "custom grammar", "p q", "h e y"]);
}

#[test]
fn grammar_prefers_trigger_grammar_and_skips_empty_trigger() {
    let commands = vec![cmd("go", vec![LocalKey::UP], vec![])];
    let explicit = TriggerConfig {
        hit_word: Some("hey".to_string()),
        hit_word_grammar: Some("h-e-y".to_string()),
    };
    assert_eq!(build_grammar(&commands, &explicit), vec!["g o", "h-e-y"]);
    let none = TriggerConfig { hit_word: None, hit_word_grammar: None };
    assert_eq!(build_grammar(&commands, &none), vec!["g o"]);
    let empty = TriggerConfig { hit_word: Some("".to_string()), hit_word_grammar: None };
    assert_eq!(build_grammar(&commands, &empty), vec!["g o"]);
}
