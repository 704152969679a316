use hellcall::keypress::{KeyAction, KeyPresser, ValidateError};
use hellcall::keys::{Input, KeyMap, KeyMapError, KeyPresserConfig, LocalKey};

fn test_key_map_pairs() -> Vec<(LocalKey, Input)> {
    vec![
        (LocalKey::UP, Input::Key(1)),
        (LocalKey::DOWN, Input::Key(2)),
        (LocalKey::LEFT, Input::Key(3)),
        (LocalKey::RIGHT, Input::Key(4)),
        (LocalKey::OPEN, Input::Key(5)),
        (LocalKey::RESEND, Input::Key(6)),
        (LocalKey::THROW, Input::Button(0)),
    ]
}

fn test_presser() -> KeyPresser {
    KeyPresser::new(KeyPresserConfig::default(), &test_key_map_pairs(), Vec::new()).unwrap()
}

#[test]
fn validate_open_first_is_accepted() {
    assert!(KeyPresser::has_validity(&[LocalKey::OPEN, LocalKey::UP, LocalKey::RIGHT]).is_ok());
}

#[test]
fn validate_open_in_middle_is_rejected() {
    assert_eq!(
        KeyPresser::has_validity(&[LocalKey::UP, LocalKey::OPEN, LocalKey::RIGHT]),
        Err(ValidateError::OpenMustBeFirst)
    );
}

#[test]
fn validate_throw_last_is_accepted() {
    assert!(KeyPresser::has_validity(&[LocalKey::UP, LocalKey::RIGHT, LocalKey::THROW]).is_ok());
}

#[test]
fn validate_throw_first_is_rejected() {
    assert_eq!(
        KeyPresser::has_validity(&[LocalKey::THROW, LocalKey::UP]),
        Err(ValidateError::ThrowMustBeLast)
    );
}

#[test]
fn validate_resend_is_rejected() {
    assert_eq!(
        KeyPresser::has_validity(&[LocalKey::RESEND]),
        Err(ValidateError::ResendNotAllowed)
    );
}

#[test]
fn validate_empty_is_rejected() {
    assert_eq!(KeyPresser::has_validity(&[]), Err(ValidateError::EmptyKeys));
}

#[test]
fn validate_lone_open_or_throw_is_accepted() {
    // A single role is both the first and the last position, so a lone
    // open or throw satisfies the ordering rules.
    assert!(KeyPresser::has_validity(&[LocalKey::OPEN]).is_ok());
    assert!(KeyPresser::has_validity(&[LocalKey::THROW]).is_ok());
    assert!(KeyPresser::has_validity(&[LocalKey::OPEN, LocalKey::THROW]).is_ok());
    assert!(KeyPresser::has_validity(&[LocalKey::UP]).is_ok());
    // With more than one key the roles must keep to their ends.
    assert_eq!(
        KeyPresser::has_validity(&[LocalKey::UP, LocalKey::OPEN]),
        Err(ValidateError::OpenMustBeFirst)
    );
    assert_eq!(
        KeyPresser::has_validity(&[LocalKey::THROW, LocalKey::THROW]),
        Err(ValidateError::ThrowMustBeLast)
    );
}

#[test]
fn validate_error_messages() {
    assert_eq!(ValidateError::EmptyKeys.describe(), "keys must not be empty");
    assert_eq!(ValidateError::ResendNotAllowed.describe(), "can not use resend key");
    assert_eq!(ValidateError::OpenMustBeFirst.describe(), "open key must be first");
    assert_eq!(ValidateError::ThrowMustBeLast.describe(), "throw key must be last");
}

#[test]
fn key_map_requires_every_role() {
    let mut pairs = test_key_map_pairs();
    pairs.retain(|p| p.0 != LocalKey::THROW);
    assert_eq!(
        KeyMap::from_pairs(&pairs),
        Err(KeyMapError::MissingMapping(LocalKey::THROW))
    );
}

#[test]
fn key_map_first_binding_wins() {
    let mut pairs = test_key_map_pairs();
    pairs.push((LocalKey::UP, Input::Key(99)));
    let map = KeyMap::from_pairs(&pairs).unwrap();
    assert_eq!(map.of(LocalKey::UP), Input::Key(1));
    assert_eq!(map.of(LocalKey::THROW), Input::Button(0));
}

#[test]
fn presser_rejects_incomplete_key_map() {
    let mut pairs = test_key_map_pairs();
    pairs.retain(|p| p.0 != LocalKey::RESEND);
    let r = KeyPresser::new(KeyPresserConfig::default(), &pairs, Vec::new());
    assert!(matches!(r, Err(KeyMapError::MissingMapping(LocalKey::RESEND))));
}

#[test]
fn push_open_sequence_dispatches_immediately() {
    let mut p = test_presser();
    let d = p.push(&[LocalKey::OPEN, LocalKey::UP]);
    assert_eq!(d, Some(vec![LocalKey::OPEN, LocalKey::UP]));
    // Nothing was armed, so the open trigger has nothing to fire.
    assert_eq!(p.on_input(Input::Key(5)), None);
}

#[test]
fn push_arms_and_open_trigger_fires_once() {
    let mut p = test_presser();
    let d = p.push(&[LocalKey::UP, LocalKey::RIGHT]);
    assert_eq!(d, None);
    assert_eq!(p.on_input(Input::Key(5)), Some(vec![LocalKey::UP, LocalKey::RIGHT]));
    // The primary stack was consumed by the first fire.
    assert_eq!(p.on_input(Input::Key(5)), None);
}

#[test]
fn push_empty_sequence_is_ignored() {
    let mut p = test_presser();
    assert_eq!(p.push(&[]), None);
    assert_eq!(p.on_input(Input::Key(5)), None);
}

#[test]
fn resend_then_open_repeats_the_dispatch() {
    let mut p = test_presser();
    p.push(&[LocalKey::DOWN, LocalKey::LEFT]);
    let first = p.on_input(Input::Key(5)).unwrap();
    assert_eq!(p.on_input(Input::Key(5)), None);
    // Re-arm from the spare stack, then fire again.
    assert_eq!(p.on_input(Input::Key(6)), None);
    let second = p.on_input(Input::Key(5)).unwrap();
    assert_eq!(first, second);
    let plan_first = p.dispatch_plan(&first);
    let plan_second = p.dispatch_plan(&second);
    assert_eq!(plan_first, plan_second);
}

#[test]
fn shortcut_input_dispatches_directly() {
    let shortcut = vec![(Input::Button(7), vec![LocalKey::UP, LocalKey::UP])];
    let mut p =
        KeyPresser::new(KeyPresserConfig::default(), &test_key_map_pairs(), shortcut).unwrap();
    assert_eq!(p.on_input(Input::Button(7)), Some(vec![LocalKey::UP, LocalKey::UP]));
    assert_eq!(p.on_input(Input::Button(8)), None);
}

#[test]
fn open_sequence_emission_order() {
    let p = test_presser();
    let plan = p.dispatch_plan(&[LocalKey::OPEN, LocalKey::LEFT, LocalKey::RIGHT]);
    let open = Input::Key(5);
    let left = Input::Key(3);
    let right = Input::Key(4);
    assert_eq!(
        plan,
        vec![
            KeyAction::Press(open),
            KeyAction::Wait(400),
            KeyAction::Press(left),
            KeyAction::Wait(50),
            KeyAction::Release(left),
            KeyAction::Wait(20),
            KeyAction::Press(right),
            KeyAction::Wait(50),
            KeyAction::Release(right),
            KeyAction::Wait(20),
            KeyAction::Release(open),
        ]
    );
}

#[test]
fn plain_sequence_emission_order() {
    // A sequence that does not start with the open role skips the open
    // step entirely: no opening press and no opening wait.
    let p = test_presser();
    let plan = p.dispatch_plan(&[LocalKey::UP]);
    let up = Input::Key(1);
    assert_eq!(
        plan,
        vec![
            KeyAction::Press(up),
            KeyAction::Wait(50),
            KeyAction::Release(up),
            KeyAction::Wait(20),
        ]
    );
}

#[test]
fn queued_sequences_do_not_interleave() {
    let p = test_presser();
    let s1 = vec![LocalKey::OPEN, LocalKey::UP];
    let s2 = vec![LocalKey::LEFT, LocalKey::RIGHT];
    let queue = vec![s1.clone(), s2.clone()];
    // The worker drains the queue one sequence at a time.
    let mut emitted: Vec<KeyAction> = Vec::new();
    for seq in &queue {
        emitted.extend(p.dispatch_plan(seq));
    }
    let plan1 = p.dispatch_plan(&s1);
    let plan2 = p.dispatch_plan(&s2);
    assert_eq!(emitted[..plan1.len()], plan1[..]);
    assert_eq!(emitted[plan1.len()..], plan2[..]);
    assert_eq!(emitted.len(), plan1.len() + plan2.len());
}

#[test]
fn default_timing_configuration() {
    let c = KeyPresserConfig::default();
    assert_eq!(c.wait_open_time, 400);
    assert_eq!(c.key_release_interval, 50);
    assert_eq!(c.diff_key_interval, 20);
}
