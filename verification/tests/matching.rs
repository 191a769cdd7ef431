//! Session matching and device resolution: the claim set, AllOthers
//! routing, name folding, and the switcher's fuzzy device lookup.

use rvci::config::{ChannelSpec, Config, SerialConfig};
use rvci::devices::{extract_clean_name, resolve_device};
use rvci::engine::Engine;

fn cfg_with(dials: Vec<ChannelSpec>) -> Config {
    Config {
        serial: SerialConfig { port: b"COM3".to_vec(), baud: 9600, timeout_ms: 50 },
        value_max: 1_000_000,
        helper_path: Vec::new(),
        work_device_1: b"None".to_vec(),
        work_device_2: b"None".to_vec(),
        dials,
    }
}

#[test]
fn process_channel_hits_its_sessions_case_blind() {
    let cfg = cfg_with(vec![ChannelSpec::Process(b"Chrome.exe".to_vec())]);
    let mut e = Engine::new(cfg);
    e.record_name(5, b"CHROME.EXE");
    e.record_name(7, b"game.exe");
    assert_eq!(e.session_targets(0, &vec![5, 7]), vec![5]);
}

#[test]
fn all_others_excludes_claimed_names() {
    let cfg = cfg_with(vec![
        ChannelSpec::Process(b"Chrome.exe".to_vec()),
        ChannelSpec::AllOthers,
    ]);
    let mut e = Engine::new(cfg);
    e.record_name(5, b"chrome.exe");
    e.record_name(7, b"game.exe");
    e.record_name(9, b"music.exe");
    // the claimed process is shielded from the catch-all channel
    assert_eq!(e.session_targets(1, &vec![5, 7, 9]), vec![7, 9]);
    assert_eq!(e.session_targets(0, &vec![5, 7, 9]), vec![5]);
}

#[test]
fn claim_set_ignores_channel_order() {
    // same channels, the catch-all first: the claim set is the same
    let cfg = cfg_with(vec![
        ChannelSpec::AllOthers,
        ChannelSpec::Process(b"Chrome.exe".to_vec()),
    ]);
    let mut e = Engine::new(cfg);
    e.record_name(5, b"chrome.exe");
    e.record_name(7, b"game.exe");
    assert_eq!(e.session_targets(0, &vec![5, 7]), vec![7]);
}

#[test]
fn idle_process_is_never_hit() {
    let cfg = cfg_with(vec![ChannelSpec::AllOthers]);
    let mut e = Engine::new(cfg);
    e.record_name(7, b"game.exe");
    assert_eq!(e.session_targets(0, &vec![0, 7]), vec![7]);
}

#[test]
fn unresolved_sessions_fall_to_all_others() {
    let cfg = cfg_with(vec![
        ChannelSpec::Process(b"Chrome.exe".to_vec()),
        ChannelSpec::AllOthers,
    ]);
    let e = Engine::new(cfg);
    // nothing recorded: the unresolved name is empty, claimed by nobody
    assert_eq!(e.session_targets(1, &vec![5]), vec![5]);
    assert_eq!(e.session_targets(0, &vec![5]), Vec::<u32>::new());
}

#[test]
fn empty_process_target_hits_nothing() {
    let cfg = cfg_with(vec![ChannelSpec::Process(Vec::new()), ChannelSpec::AllOthers]);
    let mut e = Engine::new(cfg);
    e.record_name(7, b"game.exe");
    assert_eq!(e.session_targets(0, &vec![7]), Vec::<u32>::new());
    // and claims nothing either
    assert_eq!(e.session_targets(1, &vec![7]), vec![7]);
}

#[test]
fn missing_names_lists_unknown_pids_once_recorded_not_again() {
    let cfg = cfg_with(vec![ChannelSpec::AllOthers]);
    let mut e = Engine::new(cfg);
    assert_eq!(e.missing_names(&vec![0, 5, 7]), vec![5, 7]);
    e.record_name(5, b"chrome.exe");
    assert_eq!(e.missing_names(&vec![0, 5, 7]), vec![7]);
}

#[test]
fn device_switch_resolves_first_fuzzy_match() {
    let devices = vec![
        (b"Speakers (Realtek)".to_vec(), b"id1".to_vec()),
        (b"Headset".to_vec(), b"id2".to_vec()),
    ];
    assert_eq!(resolve_device(b"Speakers", &devices), Some(b"id1".to_vec()));
    assert_eq!(resolve_device(b"speakers", &devices), Some(b"id1".to_vec()));
    assert_eq!(resolve_device(b"HEADSET", &devices), Some(b"id2".to_vec()));
    assert_eq!(resolve_device(b"Monitor", &devices), None);
}

#[test]
fn device_switch_none_or_empty_is_noop() {
    let devices = vec![(b"None of these".to_vec(), b"id1".to_vec())];
    assert_eq!(resolve_device(b"None", &devices), None);
    assert_eq!(resolve_device(b"", &devices), None);
}

#[test]
fn first_listed_match_wins_ties() {
    let devices = vec![
        (b"Headphones (USB)".to_vec(), b"id1".to_vec()),
        (b"Headphones (jack)".to_vec(), b"id2".to_vec()),
    ];
    assert_eq!(resolve_device(b"Headphones", &devices), Some(b"id1".to_vec()));
}

#[test]
fn clean_name_takes_trimmed_parenthesized_part() {
    assert_eq!(extract_clean_name(b"Speakers (Realtek Audio)"), b"Realtek Audio".to_vec());
    assert_eq!(extract_clean_name(b"Speakers ( padded )"), b"padded".to_vec());
    assert_eq!(extract_clean_name(b"None"), b"None".to_vec());
    assert_eq!(extract_clean_name(b"Plain"), b"Plain".to_vec());
    assert_eq!(extract_clean_name(b")("), b")(".to_vec());
    // the first opening and the last closing parenthesis bound the cut
    assert_eq!(extract_clean_name(b"A (B (C) D) E"), b"B (C) D".to_vec());
}
