use keyboard_drums::bank::BankCell;
use keyboard_drums::config::{ResolvedBinding, ResolvedCyclingKeys};
use keyboard_drums::input::{
    after_fetch_error, build_key_map, build_suppressed_keys, collect_event, flush_batch,
    forward_batch, handle_event, key_action, EventOutcome, FetchFailure, InputEvent, KeyAction,
    KeyMap, KitState, SuppressedKeys, KEY, SYNCHRONIZATION,
};
use keyboard_drums::ring::create_trigger_channel;
use keyboard_drums::samples::{KitInfo, KitLibrary, SampleBank, SampleData};
use std::collections::HashMap;
use std::sync::Arc;

const RELATIVE: u16 = 0x02;
const MISC: u16 = 0x04;
const KEY_A: u16 = 30;
const KEY_S: u16 = 31;

fn level(x: f32) -> u32 {
    x.to_bits()
}

fn make_dummy_cycling_keys() -> ResolvedCyclingKeys {
    ResolvedCyclingKeys { next_kit: None, prev_kit: None, next_variant: None, prev_variant: None }
}

fn dummy_bank(kit: &str, variant: &str) -> SampleBank {
    SampleBank {
        samples: vec![Arc::new(SampleData {
            data: vec![level(0.0)],
            channels: 1,
            sample_rate: 48000,
        })],
        sample_gains: vec![level(1.0)],
        kit_name: kit.to_string(),
        variant_name: variant.to_string(),
    }
}

fn library_of(kits: &[(&str, &[&str])]) -> KitLibrary {
    KitLibrary {
        samples_dir: "/tmp".to_string(),
        kits: kits
            .iter()
            .map(|(name, variants)| KitInfo {
                name: name.to_string(),
                variants: variants.iter().map(|v| v.to_string()).collect(),
            })
            .collect(),
        sample_names: vec!["kick.wav".to_string()],
        sample_gains: vec![level(1.0)],
    }
}

fn make_dummy_kit_state() -> KitState {
    KitState::new(library_of(&[("test", &["v1"])]), BankCell::new(dummy_bank("test", "v1")))
}

#[test]
fn test_handle_event_key_down_match() {
    let (mut prod, mut cons) = create_trigger_channel();
    let cycling = make_dummy_cycling_keys();
    let mut kit_state = make_dummy_kit_state();

    let mut key_map = KeyMap::new();
    key_map.insert(30, (0, level(0.8)));

    let event = InputEvent::new(KEY, 30, 1);
    let outcome = handle_event(&event, &key_map, &mut prod, &cycling, &mut kit_state);
    assert_eq!(outcome, EventOutcome::Triggered { sent: true });

    let mut buf = Vec::new();
    cons.drain(&mut buf);
    assert_eq!(buf.len(), 1);
    assert_eq!(buf[0].sample_id, 0);
    assert!((f32::from_bits(buf[0].velocity) - 0.8).abs() < f32::EPSILON);
}

#[test]
fn test_handle_event_key_up_ignored() {
    let (mut prod, mut cons) = create_trigger_channel();
    let cycling = make_dummy_cycling_keys();
    let mut kit_state = make_dummy_kit_state();

    let mut key_map = KeyMap::new();
    key_map.insert(30, (0, level(1.0)));

    let event = InputEvent::new(KEY, 30, 0);
    let outcome = handle_event(&event, &key_map, &mut prod, &cycling, &mut kit_state);
    assert_eq!(outcome, EventOutcome::Ignored);

    let mut buf = Vec::new();
    cons.drain(&mut buf);
    assert!(buf.is_empty());
}

#[test]
fn test_handle_event_key_repeat_ignored() {
    let (mut prod, mut cons) = create_trigger_channel();
    let cycling = make_dummy_cycling_keys();
    let mut kit_state = make_dummy_kit_state();

    let mut key_map = KeyMap::new();
    key_map.insert(30, (0, level(1.0)));

    let event = InputEvent::new(KEY, 30, 2);
    handle_event(&event, &key_map, &mut prod, &cycling, &mut kit_state);

    let mut buf = Vec::new();
    cons.drain(&mut buf);
    assert!(buf.is_empty());
}

#[test]
fn test_handle_event_unbound_key() {
    let (mut prod, mut cons) = create_trigger_channel();
    let cycling = make_dummy_cycling_keys();
    let mut kit_state = make_dummy_kit_state();

    let mut key_map = KeyMap::new();
    key_map.insert(30, (0, level(1.0)));

    let event = InputEvent::new(KEY, 48, 1);
    handle_event(&event, &key_map, &mut prod, &cycling, &mut kit_state);

    let mut buf = Vec::new();
    cons.drain(&mut buf);
    assert!(buf.is_empty());
}

#[test]
fn test_handle_event_non_key_event() {
    let (mut prod, mut cons) = create_trigger_channel();
    let cycling = make_dummy_cycling_keys();
    let mut kit_state = make_dummy_kit_state();

    let mut key_map = KeyMap::new();
    key_map.insert(30, (0, level(1.0)));

    let event = InputEvent::new(RELATIVE, 0, 1);
    handle_event(&event, &key_map, &mut prod, &cycling, &mut kit_state);

    let mut buf = Vec::new();
    cons.drain(&mut buf);
    assert!(buf.is_empty());
}

#[test]
fn test_build_key_map() {
    let mut config_map = HashMap::new();
    config_map.insert(
        KEY_A,
        ResolvedBinding { key_code: KEY_A, sample_index: 0, gain: level(0.9) },
    );
    config_map.insert(
        KEY_S,
        ResolvedBinding { key_code: KEY_S, sample_index: 1, gain: level(0.7) },
    );

    let key_map = build_key_map(&config_map);
    assert_eq!(key_map.len(), 2);

    let (idx, gain) = key_map[&KEY_A];
    assert_eq!(idx, 0);
    assert!((f32::from_bits(gain) - 0.9).abs() < f32::EPSILON);

    let (idx, gain) = key_map[&KEY_S];
    assert_eq!(idx, 1);
    assert!((f32::from_bits(gain) - 0.7).abs() < f32::EPSILON);
}

#[test]
fn test_cycling_key_does_not_trigger_sample() {
    let (mut prod, mut cons) = create_trigger_channel();
    let mut kit_state = make_dummy_kit_state();

    let cycling = ResolvedCyclingKeys {
        next_kit: Some(106),
        prev_kit: None,
        next_variant: None,
        prev_variant: None,
    };

    let mut key_map = KeyMap::new();
    key_map.insert(106, (0, level(1.0)));

    let event = InputEvent::new(KEY, 106, 1);
    let outcome = handle_event(&event, &key_map, &mut prod, &cycling, &mut kit_state);
    assert_eq!(outcome, EventOutcome::Cycled { reload: true });

    let mut buf = Vec::new();
    cons.drain(&mut buf);
    assert!(buf.is_empty());
}

#[test]
fn test_build_suppressed_keys_includes_bindings_and_cycling() {
    let mut key_map = KeyMap::new();
    key_map.insert(30, (0, level(1.0)));
    key_map.insert(31, (1, level(0.9)));

    let cycling = ResolvedCyclingKeys {
        next_kit: Some(106),
        prev_kit: Some(105),
        next_variant: Some(103),
        prev_variant: None,
    };

    let suppressed = build_suppressed_keys(&key_map, &cycling);

    assert!(suppressed.contains(&30));
    assert!(suppressed.contains(&31));

    assert!(suppressed.contains(&106));
    assert!(suppressed.contains(&105));
    assert!(suppressed.contains(&103));

    assert_eq!(suppressed.len(), 5);
}

#[test]
fn test_build_suppressed_keys_empty_cycling() {
    let mut key_map = KeyMap::new();
    key_map.insert(30, (0, level(1.0)));

    let cycling = make_dummy_cycling_keys();

    let suppressed = build_suppressed_keys(&key_map, &cycling);

    assert_eq!(suppressed.len(), 1);
    assert!(suppressed.contains(&30));
}

#[test]
fn key_down_on_a_bound_key_sends_exactly_one_trigger_for_its_sample() {
    let (mut prod, mut cons) = create_trigger_channel();
    let cycling = make_dummy_cycling_keys();
    let mut kit_state = make_dummy_kit_state();
    let mut key_map = KeyMap::new();
    key_map.insert(30, (7, level(0.6)));
    key_map.insert(31, (3, level(0.4)));

    handle_event(&InputEvent::new(KEY, 30, 1), &key_map, &mut prod, &cycling, &mut kit_state);
    handle_event(&InputEvent::new(KEY, 30, 0), &key_map, &mut prod, &cycling, &mut kit_state);

    let mut buf = Vec::new();
    cons.drain(&mut buf);
    assert_eq!(buf.len(), 1);
    assert_eq!(buf[0].sample_id, 7);
    assert_eq!(buf[0].velocity, level(0.6));
}

#[test]
fn the_sample_id_is_the_sample_index() {
    let cycling = make_dummy_cycling_keys();
    let mut key_map = KeyMap::new();
    key_map.insert(30, (0, level(1.0)));
    key_map.insert(31, (200, level(0.5)));
    key_map.insert(32, (255, level(0.25)));
    for (code, index, gain) in [(30u16, 0u8, 1.0f32), (31, 200, 0.5), (32, 255, 0.25)] {
        match key_action(&InputEvent::new(KEY, code, 1), &key_map, &cycling) {
            KeyAction::Play(trigger) => {
                assert_eq!(trigger.sample_id, index);
                assert_eq!(trigger.velocity, level(gain));
            }
            other => panic!("unexpected action {:?}", other),
        }
    }
}

#[test]
fn a_sample_index_that_is_no_sample_id_sends_nothing() {
    let (mut prod, mut cons) = create_trigger_channel();
    let cycling = make_dummy_cycling_keys();
    let mut kit_state = make_dummy_kit_state();
    let mut key_map = KeyMap::new();
    key_map.insert(30, (256, level(1.0)));
    key_map.insert(31, (258, level(1.0)));
    for code in [30u16, 31] {
        let event = InputEvent::new(KEY, code, 1);
        assert!(matches!(key_action(&event, &key_map, &cycling), KeyAction::Nothing));
        let outcome = handle_event(&event, &key_map, &mut prod, &cycling, &mut kit_state);
        assert_eq!(outcome, EventOutcome::Ignored);
    }
    let mut buf = Vec::new();
    cons.drain(&mut buf);
    assert!(buf.is_empty());
}

#[test]
fn a_full_channel_drops_the_trigger_and_says_so() {
    let (mut prod, _cons) = create_trigger_channel();
    let cycling = make_dummy_cycling_keys();
    let mut kit_state = make_dummy_kit_state();
    let mut key_map = KeyMap::new();
    key_map.insert(30, (0, level(1.0)));
    let event = InputEvent::new(KEY, 30, 1);
    for _ in 0..128 {
        let outcome = handle_event(&event, &key_map, &mut prod, &cycling, &mut kit_state);
        assert_eq!(outcome, EventOutcome::Triggered { sent: true });
    }
    let outcome = handle_event(&event, &key_map, &mut prod, &cycling, &mut kit_state);
    assert_eq!(outcome, EventOutcome::Triggered { sent: false });
}

fn four_way_cycling() -> ResolvedCyclingKeys {
    ResolvedCyclingKeys {
        next_kit: Some(106),
        prev_kit: Some(105),
        next_variant: Some(103),
        prev_variant: Some(108),
    }
}

fn three_kit_state() -> KitState {
    KitState::new(
        library_of(&[("a", &["v1", "v2", "v3"]), ("b", &["v1"]), ("c", &["v1", "v2"])]),
        BankCell::new(dummy_bank("a", "v1")),
    )
}

#[test]
fn key_down_on_the_next_kit_key_changes_the_bank_and_sends_no_trigger() {
    let (mut prod, mut cons) = create_trigger_channel();
    let cycling = four_way_cycling();
    let key_map = KeyMap::new();
    let mut kit_state = three_kit_state();
    assert_eq!(kit_state.current_bank().kit_name, "a");

    let outcome =
        handle_event(&InputEvent::new(KEY, 106, 1), &key_map, &mut prod, &cycling, &mut kit_state);
    assert_eq!(outcome, EventOutcome::Cycled { reload: true });
    assert_eq!((kit_state.kit_index(), kit_state.variant_index()), (1, 0));

    let kit = &kit_state.library().kits[kit_state.kit_index()];
    let loaded = dummy_bank(&kit.name, &kit.variants[kit_state.variant_index()]);
    kit_state.install(Some(loaded));
    assert_eq!(kit_state.current_bank().kit_name, "b");

    let mut buf = Vec::new();
    cons.drain(&mut buf);
    assert!(buf.is_empty());
}

#[test]
fn a_failed_load_keeps_the_previous_bank() {
    let mut kit_state = three_kit_state();
    let before = kit_state.current_bank();
    assert!(kit_state.cycle_kit(true));
    kit_state.install(None);
    assert!(Arc::ptr_eq(&before, &kit_state.current_bank()));
    assert_eq!(kit_state.kit_index(), 1);
}

#[test]
fn cycling_wraps_around_and_a_new_kit_starts_at_its_first_variant() {
    let mut kit_state = three_kit_state();

    assert!(kit_state.cycle_variant(false));
    assert_eq!((kit_state.kit_index(), kit_state.variant_index()), (0, 2));
    assert!(kit_state.cycle_variant(true));
    assert_eq!((kit_state.kit_index(), kit_state.variant_index()), (0, 0));
    assert!(kit_state.cycle_variant(true));
    assert_eq!((kit_state.kit_index(), kit_state.variant_index()), (0, 1));

    assert!(kit_state.cycle_kit(false));
    assert_eq!((kit_state.kit_index(), kit_state.variant_index()), (2, 0));
    assert!(kit_state.cycle_kit(true));
    assert_eq!((kit_state.kit_index(), kit_state.variant_index()), (0, 0));
}

#[test]
fn cycling_forward_then_backward_by_the_same_count_returns() {
    let mut kit_state = three_kit_state();
    kit_state.cycle_variant(true);
    for steps in 0..8 {
        let start = (kit_state.kit_index(), kit_state.variant_index());
        for _ in 0..steps {
            kit_state.cycle_variant(true);
        }
        for _ in 0..steps {
            kit_state.cycle_variant(false);
        }
        assert_eq!((kit_state.kit_index(), kit_state.variant_index()), start);
    }
    let mut kit_state = three_kit_state();
    for steps in 0..8 {
        for _ in 0..steps {
            kit_state.cycle_kit(false);
        }
        for _ in 0..steps {
            kit_state.cycle_kit(true);
        }
        assert_eq!((kit_state.kit_index(), kit_state.variant_index()), (0, 0));
    }
}

#[test]
fn an_empty_library_has_nothing_to_cycle() {
    let (mut prod, _cons) = create_trigger_channel();
    let mut kit_state = KitState::new(library_of(&[]), BankCell::new(dummy_bank("x", "y")));
    let outcome = handle_event(
        &InputEvent::new(KEY, 103, 1),
        &KeyMap::new(),
        &mut prod,
        &four_way_cycling(),
        &mut kit_state,
    );
    assert_eq!(outcome, EventOutcome::Cycled { reload: false });
    assert!(!kit_state.cycle_kit(true));
    assert!(!kit_state.cycle_kit(false));
    assert!(!kit_state.cycle_variant(true));
    assert_eq!((kit_state.kit_index(), kit_state.variant_index()), (0, 0));
}

fn suppressed(codes: &[u16]) -> SuppressedKeys {
    codes.iter().copied().collect()
}

#[test]
fn a_batch_with_only_suppressed_keys_is_dropped_with_its_companions() {
    let keys = suppressed(&[30, 106]);
    let batch = vec![InputEvent::new(MISC, 4, 30), InputEvent::new(KEY, 30, 1)];
    assert!(forward_batch(&batch, &keys).is_empty());

    let batch = vec![
        InputEvent::new(MISC, 4, 30),
        InputEvent::new(KEY, 30, 0),
        InputEvent::new(MISC, 4, 106),
        InputEvent::new(KEY, 106, 2),
    ];
    assert!(forward_batch(&batch, &keys).is_empty());
}

#[test]
fn a_batch_keeps_its_other_events_when_a_key_event_survives() {
    let keys = suppressed(&[30]);
    let batch = vec![
        InputEvent::new(MISC, 4, 30),
        InputEvent::new(KEY, 30, 1),
        InputEvent::new(MISC, 4, 48),
        InputEvent::new(KEY, 48, 1),
    ];
    assert_eq!(
        forward_batch(&batch, &keys),
        vec![
            InputEvent::new(MISC, 4, 30),
            InputEvent::new(MISC, 4, 48),
            InputEvent::new(KEY, 48, 1),
        ]
    );
}

#[test]
fn a_batch_without_key_events_passes_as_it_is() {
    let keys = suppressed(&[30]);
    let batch = vec![InputEvent::new(RELATIVE, 0, 5), InputEvent::new(RELATIVE, 1, -3)];
    assert_eq!(forward_batch(&batch, &keys), batch);
    assert!(forward_batch(&Vec::new(), &keys).is_empty());
    let same_code = vec![InputEvent::new(RELATIVE, 30, 1)];
    assert_eq!(forward_batch(&same_code, &keys), same_code);
}

#[test]
fn events_gather_until_the_synchronization_marker() {
    let keys = suppressed(&[30]);
    let mut batch = Vec::new();
    let stream = [
        InputEvent::new(MISC, 4, 30),
        InputEvent::new(KEY, 30, 1),
        InputEvent::new(SYNCHRONIZATION, 0, 0),
        InputEvent::new(MISC, 4, 48),
        InputEvent::new(KEY, 48, 1),
        InputEvent::new(SYNCHRONIZATION, 0, 0),
        InputEvent::new(RELATIVE, 0, 1),
    ];
    let mut emitted = Vec::new();
    for event in stream.iter() {
        let forward = collect_event(&mut batch, event, &keys);
        if !forward.is_empty() {
            emitted.push(forward);
        }
    }
    assert_eq!(batch, vec![InputEvent::new(RELATIVE, 0, 1)]);
    let tail = flush_batch(&mut batch, &keys);
    assert!(batch.is_empty());
    assert_eq!(
        emitted,
        vec![vec![InputEvent::new(MISC, 4, 48), InputEvent::new(KEY, 48, 1)]]
    );
    assert_eq!(tail, vec![InputEvent::new(RELATIVE, 0, 1)]);
}

#[test]
fn a_failed_fetch_stops_retries_or_fails() {
    assert_eq!(after_fetch_error(true, true), FetchFailure::Stop);
    assert_eq!(after_fetch_error(true, false), FetchFailure::Stop);
    assert_eq!(after_fetch_error(false, true), FetchFailure::Retry);
    assert_eq!(after_fetch_error(false, false), FetchFailure::Fail);
}
