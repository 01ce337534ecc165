use dht_market::bootstrap::{
    bootstrap_plan, bootstrap_start, bootstrap_step, BootstrapEvent, BootstrapOutcome,
};
use dht_market::bootstrap::validate_port;
use dht_market::data::ConfigError;
use dht_market::get_current_time;

#[test]
fn plan_requires_peer_ids() {
    let ids = vec![Some("QmPeerA".to_string()), None];
    assert_eq!(bootstrap_plan(&ids), Err(ConfigError::InvalidBootstrap));
    let ids = vec![Some("QmPeerA".to_string()), Some("QmPeerB".to_string())];
    let planned = bootstrap_plan(&ids).unwrap();
    assert_eq!(planned, vec!["QmPeerA".to_string(), "QmPeerB".to_string()]);
}

#[test]
fn empty_bootstrap_starts_fresh_network() {
    let (st, outcome) = bootstrap_start(0);
    assert!(matches!(outcome, BootstrapOutcome::Succeeded));
    assert_eq!(st.remaining, 0);
}

#[test]
fn one_success_is_enough() {
    let (st, outcome) = bootstrap_start(3);
    assert!(matches!(outcome, BootstrapOutcome::KeepWaiting));
    let (st, outcome) = bootstrap_step(st, &BootstrapEvent::DialResult { ok: false });
    assert!(matches!(outcome, BootstrapOutcome::KeepWaiting));
    let (st, outcome) = bootstrap_step(st, &BootstrapEvent::DialResult { ok: true });
    assert!(matches!(outcome, BootstrapOutcome::KeepWaiting));
    let (_, outcome) = bootstrap_step(st, &BootstrapEvent::DialResult { ok: false });
    assert!(matches!(outcome, BootstrapOutcome::Succeeded));
}

#[test]
fn all_failures_fail_bootstrap() {
    let (st, _) = bootstrap_start(2);
    let (st, outcome) = bootstrap_step(st, &BootstrapEvent::DialResult { ok: false });
    assert!(matches!(outcome, BootstrapOutcome::KeepWaiting));
    let (_, outcome) = bootstrap_step(st, &BootstrapEvent::DialResult { ok: false });
    assert!(matches!(outcome, BootstrapOutcome::Failed));
}

#[test]
fn timeout_judges_what_was_seen() {
    let (st, _) = bootstrap_start(5);
    let (st, _) = bootstrap_step(st, &BootstrapEvent::DialResult { ok: true });
    let (_, outcome) = bootstrap_step(st, &BootstrapEvent::TimedOut);
    assert!(matches!(outcome, BootstrapOutcome::Succeeded));

    let (st, _) = bootstrap_start(5);
    let (_, outcome) = bootstrap_step(st, &BootstrapEvent::TimedOut);
    assert!(matches!(outcome, BootstrapOutcome::Failed));
}

#[test]
fn closed_channel_fails() {
    let (st, _) = bootstrap_start(2);
    let (_, outcome) = bootstrap_step(st, &BootstrapEvent::ChannelClosed);
    assert!(matches!(outcome, BootstrapOutcome::Failed));
}

#[test]
fn port_validation() {
    assert_eq!(validate_port(1023), Err(ConfigError::InvalidPort));
    assert!(validate_port(1024).is_ok());
    assert!(validate_port(50051).is_ok());
}

#[test]
fn clock_reads_epoch_seconds() {
    let t = get_current_time();
    // A sanity bound: the library was written well after 2023.
    assert!(t > 1_700_000_000);
    let t2 = get_current_time();
    assert!(t2 >= t);
}
