use std::time::{Duration, Instant};

use yamux_low_mem::session::rtt::{Rtt, RttEvent};
use yamux_low_mem::session::KeepAliveConfig;

const MILLI: u128 = 1_000_000;

/// Waits without giving up the thread.
fn wait(time: Duration) {
    let start = Instant::now();
    while start.elapsed() < time {}
}

#[test]
fn test_rtt_ping_pong() {
    let mut rtt = Rtt::new(KeepAliveConfig {
        interval: 100 * MILLI,
        timeout: 1000 * MILLI,
    });

    // First ping
    let event = rtt.next_ping();
    assert!(matches!(event, Some(RttEvent::KeepAlive(nonce)) if nonce == 1));

    // Simulate receiving pong
    let pong_handled = rtt.handle_pong(1);
    assert!(pong_handled);

    // Wait for interval to pass
    wait(Duration::from_millis(150));
    let event = rtt.next_ping();
    assert!(matches!(event, Some(RttEvent::KeepAlive(nonce)) if nonce == 2));
}

#[test]
fn test_rtt_timeout() {
    let mut rtt = Rtt::new(KeepAliveConfig {
        interval: 100 * MILLI,
        timeout: 200 * MILLI,
    });

    // First ping
    let event = rtt.next_ping();
    assert!(matches!(event, Some(RttEvent::KeepAlive(nonce)) if nonce == 1));

    // Wait for timeout to pass
    wait(Duration::from_millis(250));
    let event = rtt.next_ping();
    assert!(matches!(event, Some(RttEvent::Close)));
}

#[test]
fn default_config_is_ten_and_thirty_seconds() {
    let cfg = KeepAliveConfig::default();
    assert_eq!(cfg.interval, 10_000 * MILLI);
    assert_eq!(cfg.timeout, 30_000 * MILLI);
}

#[test]
fn other_nonces_answer_nothing() {
    let mut rtt = Rtt::new(KeepAliveConfig { interval: 10, timeout: 100 });
    assert!(!rtt.handle_pong_at(1, 0));
    assert_eq!(rtt.next_ping_at(0), Some(RttEvent::KeepAlive(1)));
    assert!(!rtt.handle_pong_at(2, 1));
    assert!(!rtt.handle_pong_at(0, 1));
    assert!(rtt.handle_pong_at(1, 5));
    assert!(!rtt.handle_pong_at(1, 6));
}

#[test]
fn next_ping_waits_for_the_interval() {
    let mut rtt = Rtt::new(KeepAliveConfig { interval: 10, timeout: 100 });
    assert_eq!(rtt.next_ping_at(0), Some(RttEvent::KeepAlive(1)));
    assert!(rtt.handle_pong_at(1, 5));
    assert_eq!(rtt.next_ping_at(14), None);
    assert_eq!(rtt.next_ping_at(15), Some(RttEvent::KeepAlive(2)));
    assert!(rtt.has_nonce());
}

#[test]
fn gives_up_when_the_timeout_is_over() {
    let mut rtt = Rtt::new(KeepAliveConfig { interval: 10, timeout: 100 });
    assert_eq!(rtt.next_ping_at(7), Some(RttEvent::KeepAlive(1)));
    assert_eq!(rtt.next_ping_at(106), None);
    assert_eq!(rtt.next_ping_at(107), Some(RttEvent::Close));
}

#[test]
fn clock_moves_with_time() {
    let rtt = Rtt::new(KeepAliveConfig::default());
    let before = rtt.now();
    wait(Duration::from_millis(20));
    let after = rtt.now();
    assert!(after - before >= 20_000_000);
}
