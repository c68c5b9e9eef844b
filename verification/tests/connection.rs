use rusteams::app::app_state::ConnectionState;
use rusteams::app::connection::{backoff_delay, transition, ConnectionEvent};
use rusteams::time::Duration;

#[test]
fn happy_path_and_recovery() {
    assert_eq!(transition(ConnectionState::Connected, ConnectionEvent::SoftFailure), ConnectionState::Degraded);
    assert_eq!(transition(ConnectionState::Degraded, ConnectionEvent::Success), ConnectionState::Connected);
    assert_eq!(transition(ConnectionState::Connected, ConnectionEvent::HardFailure), ConnectionState::Disconnected);
    assert_eq!(transition(ConnectionState::Disconnected, ConnectionEvent::ReconnectAttempt), ConnectionState::Reconnecting);
    assert_eq!(transition(ConnectionState::Reconnecting, ConnectionEvent::SyncComplete), ConnectionState::Syncing);
    assert_eq!(transition(ConnectionState::Syncing, ConnectionEvent::Success), ConnectionState::Connected);
}

#[test]
fn sync_failure_returns_to_reconnecting() {
    assert_eq!(transition(ConnectionState::Syncing, ConnectionEvent::HardFailure), ConnectionState::Reconnecting);
}

#[test]
fn backoff_grows_exponentially_and_caps() {
    let base = Duration::from_secs(1);
    let cap = Duration::from_secs(60);
    assert_eq!(backoff_delay(0, base, cap, 0), Duration::from_secs(1));
    assert_eq!(backoff_delay(3, base, cap, 0), Duration::from_secs(8));
    assert_eq!(backoff_delay(20, base, cap, 0), Duration::from_secs(60));
}

#[test]
fn jitter_is_bounded() {
    let d = backoff_delay(1, Duration::from_secs(2), Duration::from_secs(60), 5_000);
    assert_eq!(d, Duration::from_secs(4) + Duration::from_secs(1));
}

#[test]
fn unlisted_pairs_keep_the_state() {
    assert_eq!(transition(ConnectionState::Connected, ConnectionEvent::Success), ConnectionState::Connected);
    assert_eq!(transition(ConnectionState::Disconnected, ConnectionEvent::HardFailure), ConnectionState::Disconnected);
    assert_eq!(transition(ConnectionState::Reconnecting, ConnectionEvent::GiveUp), ConnectionState::Disconnected);
    assert_eq!(transition(ConnectionState::Syncing, ConnectionEvent::SoftFailure), ConnectionState::Degraded);
}

#[test]
fn every_state_recovers_along_its_path() {
    let mut s = ConnectionState::Disconnected;
    for e in [ConnectionEvent::ReconnectAttempt, ConnectionEvent::SyncComplete, ConnectionEvent::Success] {
        s = transition(s, e);
    }
    assert_eq!(s, ConnectionState::Connected);
}

#[test]
fn hard_failure_never_lands_on_connected() {
    for s in [ConnectionState::Connected, ConnectionState::Degraded, ConnectionState::Disconnected, ConnectionState::Reconnecting, ConnectionState::Syncing] {
        let n = transition(s, ConnectionEvent::HardFailure);
        assert_ne!(n, ConnectionState::Connected);
        assert_ne!(n, ConnectionState::Degraded);
    }
}

#[test]
fn backoff_saturates_and_caps_at_huge_values() {
    let d = backoff_delay(u32::MAX, Duration::from_secs(u64::MAX), Duration::from_secs(60), 0);
    assert_eq!(d, Duration::from_secs(60));
    let exact = backoff_delay(10, Duration::from_millis(3), Duration::from_secs(3600), 250);
    assert_eq!(exact, Duration::from_millis(3 * 1024 + 250));
}

#[test]
fn backoff_is_monotone_in_attempts() {
    let base = Duration::from_millis(100);
    let cap = Duration::from_secs(30);
    let mut last = Duration::zero();
    for a in 0..15 {
        let d = backoff_delay(a, base, cap, 0);
        assert!(d.nanos >= last.nanos);
        assert!(d.nanos <= cap.nanos + 1_000_000_000);
        last = d;
    }
}

#[test]
fn backoff_doubles_past_ten_attempts_until_the_cap() {
    let base = Duration::from_secs(1);
    let cap = Duration::from_secs(3600);
    assert_eq!(backoff_delay(11, base, cap, 0), Duration::from_secs(2048));
    assert_eq!(backoff_delay(12, base, cap, 0), Duration::from_secs(3600));
    assert_eq!(backoff_delay(40, Duration::zero(), cap, 0), Duration::zero());
    assert_eq!(backoff_delay(11, base, cap, 1_500), Duration::from_millis(2_048_000 + 1_000));
}
