//! Routing-engine tests: frame acceptance, rate limiting, the debounce
//! gate, button signals, and the reload policy.

use rvci::config::{ChannelSpec, Config, SerialConfig};
use rvci::engine::{ChannelCmd, Engine, LineOutcome};

fn cfg_with(dials: Vec<ChannelSpec>, value_max: u64) -> Config {
    Config {
        serial: SerialConfig { port: b"COM3".to_vec(), baud: 9600, timeout_ms: 50 },
        value_max,
        helper_path: Vec::new(),
        work_device_1: b"Speakers".to_vec(),
        work_device_2: b"Headset".to_vec(),
        dials,
    }
}

fn system_engine() -> Engine {
    let cfg = cfg_with(vec![ChannelSpec::System], 1_000_000);
    assert!(cfg.check_wf());
    Engine::new(cfg)
}

#[test]
fn blank_lines_do_nothing() {
    let mut e = system_engine();
    assert!(matches!(e.handle_line(b"\r\n", 0), LineOutcome::Ignored));
    assert!(matches!(e.handle_line(b"", 0), LineOutcome::Ignored));
}

#[test]
fn wrong_field_count_discards_whole_frame() {
    let cfg = cfg_with(vec![ChannelSpec::System, ChannelSpec::System], 1_000_000);
    let mut e = Engine::new(cfg);
    // three fields against two channels: dropped, no state change
    assert!(matches!(e.handle_line(b"1|2|3\n", 0), LineOutcome::Ignored));
    assert_eq!(e.channels[0].smoother.last_value, 0);
    assert_eq!(e.channels[1].smoother.last_value, 0);
    assert!(e.channels[0].last_applied.is_none());
    // the dropped frame consumed nothing: a good frame right after passes
    match e.handle_line(b"0.5|0.5\n", 1) {
        LineOutcome::Frame(cmds) => assert_eq!(cmds.len(), 2),
        _ => panic!("good frame was not accepted"),
    }
}

#[test]
fn accepted_frame_applies_normalized_values() {
    let mut e = system_engine();
    match e.handle_line(b"0.5\n", 0) {
        LineOutcome::Frame(cmds) => {
            assert_eq!(cmds.len(), 1);
            assert_eq!(cmds[0].index, 0);
            match cmds[0].cmd {
                ChannelCmd::Master(v) => assert_eq!(v, 500_000),
                _ => panic!("system channel must set master volume"),
            }
        },
        _ => panic!("frame was not accepted"),
    }
    assert_eq!(e.channels[0].smoother.last_value, 500_000);
    assert_eq!(e.channels[0].last_applied, Some(500_000));
}

#[test]
fn unparsable_field_skips_only_its_channel() {
    let cfg = cfg_with(vec![ChannelSpec::System, ChannelSpec::System], 1_000_000);
    let mut e = Engine::new(cfg);
    match e.handle_line(b"x|0.5\n", 0) {
        LineOutcome::Frame(cmds) => {
            assert_eq!(cmds.len(), 1);
            assert_eq!(cmds[0].index, 1);
        },
        _ => panic!("frame was not accepted"),
    }
    assert_eq!(e.channels[0].smoother.last_value, 0);
    assert!(e.channels[0].last_applied.is_none());
    assert_eq!(e.channels[1].last_applied, Some(500_000));
}

#[test]
fn debounce_suppresses_second_call() {
    let mut e = system_engine();
    // first frame applies 0.5
    match e.handle_line(b"0.5\n", 0) {
        LineOutcome::Frame(cmds) => assert_eq!(cmds.len(), 1),
        _ => panic!("first frame was not accepted"),
    }
    // 0.501 smooths to 0.50035, within the 0.005 epsilon: frame accepted,
    // but it makes no audio call — one call in all, not two
    match e.handle_line(b"0.501\n", 100) {
        LineOutcome::Frame(cmds) => assert_eq!(cmds.len(), 0),
        _ => panic!("second frame was not accepted"),
    }
    assert_eq!(e.channels[0].last_applied, Some(500_000));
    assert_eq!(e.channels[0].smoother.last_value, 500_350);
}

#[test]
fn rate_limit_drops_close_frames() {
    let mut e = system_engine();
    assert!(matches!(e.handle_line(b"0.5\n", 0), LineOutcome::Frame(_)));
    // 10 ms later: dropped before parsing, state untouched
    assert!(matches!(e.handle_line(b"0.9\n", 10), LineOutcome::Ignored));
    assert_eq!(e.channels[0].smoother.last_value, 500_000);
    // 30 ms after the accepted frame: accepted
    assert!(matches!(e.handle_line(b"0.9\n", 30), LineOutcome::Frame(_)));
    assert_eq!(e.channels[0].smoother.last_value, 900_000);
}

#[test]
fn rate_limit_counts_from_last_accepted_frame() {
    let mut e = system_engine();
    assert!(matches!(e.handle_line(b"0.5\n", 0), LineOutcome::Frame(_)));
    // dropped frames do not reset the interval
    assert!(matches!(e.handle_line(b"0.6\n", 20), LineOutcome::Ignored));
    assert!(matches!(e.handle_line(b"0.7\n", 25), LineOutcome::Frame(_)));
}

#[test]
fn buttons_bypass_rate_limit_and_smoothing() {
    let mut e = system_engine();
    assert!(matches!(e.handle_line(b"0.5\n", 0), LineOutcome::Frame(_)));
    // right after an accepted frame, the button still goes through
    match e.handle_line(b"WORKS 1\r\n", 5) {
        LineOutcome::Switch(t) => assert_eq!(t, b"Speakers".to_vec()),
        _ => panic!("button 1 was not routed"),
    }
    match e.handle_line(b"WORKS 2\n", 6) {
        LineOutcome::Switch(t) => assert_eq!(t, b"Headset".to_vec()),
        _ => panic!("button 2 was not routed"),
    }
    // the button did not touch channel state or the limiter
    assert_eq!(e.channels[0].smoother.last_value, 500_000);
    assert!(matches!(e.handle_line(b"0.9\n", 10), LineOutcome::Ignored));
}

#[test]
fn reload_same_link_keeps_positional_state() {
    let cfg = cfg_with(vec![ChannelSpec::System, ChannelSpec::System], 1_000_000);
    let mut e = Engine::new(cfg);
    assert!(matches!(e.handle_line(b"0.5|0.9\n", 0), LineOutcome::Frame(_)));
    // only the dials change: grown by one channel, same port and baud
    let cfg2 = cfg_with(
        vec![ChannelSpec::System, ChannelSpec::AllOthers, ChannelSpec::System],
        1_000_000,
    );
    e.reload(cfg2);
    assert_eq!(e.channels.len(), 3);
    assert_eq!(e.channels[0].smoother.last_value, 500_000);
    assert_eq!(e.channels[0].last_applied, Some(500_000));
    assert_eq!(e.channels[1].smoother.last_value, 900_000);
    // the grown position starts fresh
    assert_eq!(e.channels[2].smoother.last_value, 0);
    assert!(e.channels[2].last_applied.is_none());
}

#[test]
fn reload_changed_link_resets_all_state() {
    let cfg = cfg_with(vec![ChannelSpec::System], 1_000_000);
    let mut e = Engine::new(cfg);
    assert!(matches!(e.handle_line(b"0.5\n", 0), LineOutcome::Frame(_)));
    let mut cfg2 = cfg_with(vec![ChannelSpec::System], 1_000_000);
    cfg2.serial.port = b"COM4".to_vec();
    e.reload(cfg2);
    assert_eq!(e.channels.len(), 1);
    assert_eq!(e.channels[0].smoother.last_value, 0);
    assert!(e.channels[0].last_applied.is_none());
}

#[test]
fn reload_changed_baud_resets_all_state() {
    let cfg = cfg_with(vec![ChannelSpec::System], 1_000_000);
    let mut e = Engine::new(cfg);
    assert!(matches!(e.handle_line(b"0.5\n", 0), LineOutcome::Frame(_)));
    let mut cfg2 = cfg_with(vec![ChannelSpec::System], 1_000_000);
    cfg2.serial.baud = 115_200;
    e.reload(cfg2);
    assert_eq!(e.channels[0].smoother.last_value, 0);
    assert!(e.channels[0].last_applied.is_none());
}

#[test]
fn cache_amnesty_clears_after_fixed_frames() {
    let mut e = system_engine();
    e.record_name(5, b"Chrome.exe");
    assert_eq!(e.missing_names(&vec![5]), Vec::<u32>::new());
    // 200 accepted frames keep the row; the 201st clears it
    let mut t: u64 = 0;
    for _ in 0..200 {
        t += 25;
        assert!(matches!(e.handle_line(b"0.5\n", t), LineOutcome::Frame(_)));
    }
    assert_eq!(e.missing_names(&vec![5]), Vec::<u32>::new());
    t += 25;
    assert!(matches!(e.handle_line(b"0.5\n", t), LineOutcome::Frame(_)));
    assert_eq!(e.missing_names(&vec![5]), vec![5]);
}

#[test]
fn default_config_matches_documented_values() {
    let c = Config::default();
    assert!(c.check_wf());
    assert_eq!(c.serial.port, b"COM3".to_vec());
    assert_eq!(c.serial.baud, 9600);
    assert_eq!(c.serial.timeout_ms, 50);
    assert_eq!(c.value_max, 1_024_000_000);
    assert_eq!(c.work_device_1, b"None".to_vec());
    assert_eq!(c.work_device_2, b"None".to_vec());
    assert_eq!(c.dials.len(), 0);
    assert_eq!(c.helper_path.len(), 0);
}
