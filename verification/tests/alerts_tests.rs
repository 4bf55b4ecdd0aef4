use jackynet::alerts::{
    check_condition, condition_met_at, is_expired, parse_duration_seconds, parse_hms_seconds,
    pick_iface, resolve_date_target, ActiveAlert, AlertsState,
};
use jackynet::clock::Instant;
use jackynet::config::{Alert, AlertKind, AppConfig};
use jackynet::iface_stats::IfaceSession;

fn session(name: &str, up: bool, started_ms: i64, rx: u64, tx: u64) -> IfaceSession {
    IfaceSession {
        name: name.to_string(),
        is_up: up,
        started_at: String::new(),
        started_unix_ms: started_ms,
        total_rx_bytes: rx,
        total_tx_bytes: tx,
    }
}

fn alert(id: &str, notify: &str, kind: AlertKind, paused: bool) -> Alert {
    Alert {
        id: id.to_string(),
        name: format!("name-{}", id),
        color: "#ff0000".to_string(),
        notify_duration: notify.to_string(),
        kind,
        paused,
    }
}

fn consumption(bytes: u64, direction: &str) -> AlertKind {
    AlertKind::Consumption { bytes, direction: direction.to_string() }
}

fn at(secs: i64) -> Instant {
    Instant { secs, nanos: 0 }
}

fn ids(active: &[ActiveAlert]) -> Vec<String> {
    active.iter().map(|a| a.id.clone()).collect()
}

#[test]
fn hms_text_counts_seconds() {
    assert_eq!(parse_hms_seconds("01:02:03"), 3723);
    assert_eq!(parse_hms_seconds("00:00:10"), 10);
    assert_eq!(parse_hms_seconds("90"), 90);
    assert_eq!(parse_hms_seconds("1:x:5"), 3605);
    assert_eq!(parse_hms_seconds(""), 0);
    assert_eq!(parse_hms_seconds("18446744073709551615:1"), u64::MAX);
}

#[test]
fn notify_words_name_durations() {
    assert_eq!(parse_duration_seconds("10s"), 10);
    assert_eq!(parse_duration_seconds("1min"), 60);
    assert_eq!(parse_duration_seconds("5min"), 300);
    assert_eq!(parse_duration_seconds("whatever"), 60);
}

#[test]
fn expiry_counts_whole_seconds() {
    let t = Instant { secs: 100, nanos: 500_000_000 };
    assert!(!is_expired("10s", t, Instant { secs: 110, nanos: 499_999_999 }));
    assert!(is_expired("10s", t, Instant { secs: 110, nanos: 500_000_000 }));
    assert!(!is_expired("continue", t, at(1_000_000)));
    assert!(!is_expired("1min", t, at(50)));
}

#[test]
fn consumption_directions() {
    let s = session("eth0", true, 1, 700, 400);
    let now = at(10);
    assert!(condition_met_at(&consumption(700, "download"), Some(&s), now, None));
    assert!(!condition_met_at(&consumption(701, "download"), Some(&s), now, None));
    assert!(condition_met_at(&consumption(400, "upload"), Some(&s), now, None));
    assert!(condition_met_at(&consumption(1100, "combined"), Some(&s), now, None));
    assert!(!condition_met_at(&consumption(1101, "both"), Some(&s), now, None));
    assert!(!condition_met_at(&consumption(0, "download"), None, now, None));
}

#[test]
fn chronometer_counts_from_interface_start() {
    let kind = AlertKind::Chronometer { hms: "00:01:00".to_string() };
    let s = session("eth0", true, 1_000_000, 0, 0);
    assert!(!condition_met_at(&kind, Some(&s), Instant { secs: 1_059, nanos: 999_000_000 }, None));
    assert!(condition_met_at(&kind, Some(&s), at(1_060), None));
    let unstarted = session("eth0", true, 0, 0, 0);
    assert!(!condition_met_at(&kind, Some(&unstarted), at(1_000_000), None));
}

#[test]
fn date_alerts_compare_with_the_target() {
    let kind = AlertKind::Date { iso: "2024-01-01T00:00:00Z".to_string() };
    let target = resolve_date_target("2024-01-01T00:00:00Z");
    assert_eq!(target, Some(at(1_704_067_200)));
    assert!(condition_met_at(&kind, None, at(1_704_067_200), target));
    assert!(!condition_met_at(&kind, None, at(1_704_067_199), target));
    assert!(!condition_met_at(&kind, None, at(1_704_067_200), None));
}

#[test]
fn date_targets_from_text() {
    assert_eq!(resolve_date_target("2024-01-01T01:00:00+01:00"), Some(at(1_704_067_200)));
    assert!(resolve_date_target("2024-06-01T12:30").is_some());
    assert_eq!(resolve_date_target("not a date"), None);
}

#[test]
fn date_alert_in_the_past_holds_now() {
    let kind = AlertKind::Date { iso: "2000-01-01T00:00:00Z".to_string() };
    assert!(check_condition(&kind, None));
    let future = AlertKind::Date { iso: "9999-01-01T00:00:00Z".to_string() };
    assert!(!check_condition(&future, None));
}

#[test]
fn picks_chosen_interface_when_up() {
    let ifaces = vec![
        session("lo0", false, 1, 0, 0),
        session("eth0", true, 1, 0, 0),
        session("wlan0", true, 1, 0, 0),
    ];
    let mut cfg = AppConfig::default();
    assert_eq!(pick_iface(&cfg, &ifaces), Some(1));
    cfg.alert_iface = Some("wlan0".to_string());
    assert_eq!(pick_iface(&cfg, &ifaces), Some(2));
    cfg.alert_iface = Some("lo0".to_string());
    assert_eq!(pick_iface(&cfg, &ifaces), Some(1));
    let down = vec![session("eth0", false, 1, 0, 0)];
    assert_eq!(pick_iface(&cfg, &down), None);
}

#[test]
fn alert_fires_on_rising_edge_and_runs_its_course() {
    let alerts = vec![alert("a", "10s", consumption(1, "download"), false)];
    let mut st = AlertsState::new();
    let (active, done) = st.evaluate_with(&alerts, &vec![false], at(100));
    assert!(active.is_empty() && done.is_empty());
    let (active, done) = st.evaluate_with(&alerts, &vec![true], at(101));
    assert_eq!(ids(&active), vec!["a"]);
    assert_eq!(active[0].name, "name-a");
    assert!(done.is_empty());
    let (active, done) = st.evaluate_with(&alerts, &vec![false], at(110));
    assert_eq!(ids(&active), vec!["a"]);
    assert!(done.is_empty());
    let (active, done) = st.evaluate_with(&alerts, &vec![true], at(111));
    assert!(active.is_empty());
    assert_eq!(done, vec!["a".to_string()]);
    let (active, _) = st.evaluate_with(&alerts, &vec![true], at(112));
    assert_eq!(ids(&active), vec!["a"]);
}

#[test]
fn continue_alert_stays_until_dismissed() {
    let alerts = vec![alert("c", "continue", consumption(1, "upload"), false)];
    let mut st = AlertsState::new();
    st.evaluate_with(&alerts, &vec![true], at(0));
    let (active, _) = st.evaluate_with(&alerts, &vec![false], at(1_000_000));
    assert_eq!(ids(&active), vec!["c"]);
    st.dismiss("c");
    let (active, done) = st.evaluate_with(&alerts, &vec![true], at(1_000_001));
    assert!(active.is_empty());
    assert_eq!(done, vec!["c".to_string()]);
}

#[test]
fn paused_alert_is_silent_and_starts_afresh() {
    let mut alerts = vec![alert("p", "1min", consumption(1, "upload"), false)];
    let mut st = AlertsState::new();
    st.evaluate_with(&alerts, &vec![true], at(0));
    alerts[0].paused = true;
    let (active, done) = st.evaluate_with(&alerts, &vec![true], at(10));
    assert!(active.is_empty() && done.is_empty());
    alerts[0].paused = false;
    let (active, done) = st.evaluate_with(&alerts, &vec![true], at(100));
    assert_eq!(ids(&active), vec!["p"]);
    assert!(done.is_empty());
}

#[test]
fn reset_forgets_an_alert() {
    let alerts = vec![alert("r", "10s", consumption(1, "upload"), false)];
    let mut st = AlertsState::new();
    st.evaluate_with(&alerts, &vec![true], at(0));
    st.reset("r");
    let (active, _) = st.evaluate_with(&alerts, &vec![true], at(50));
    assert_eq!(ids(&active), vec!["r"]);
}

#[test]
fn evaluate_reads_the_config_and_interfaces() {
    let mut cfg = AppConfig::default();
    cfg.alerts.push(alert("big", "continue", consumption(10, "download"), false));
    cfg.alerts.push(alert("small", "continue", consumption(1, "download"), false));
    let ifaces = vec![session("eth0", true, 1, 5, 0)];
    let mut st = AlertsState::new();
    let (active, done) = st.evaluate(&cfg, &ifaces);
    assert_eq!(ids(&active), vec!["small"]);
    assert!(done.is_empty());
}

#[test]
fn reset_continue_alert_waits_for_its_condition() {
    let alerts = vec![alert("k", "continue", consumption(1, "upload"), false)];
    let mut st = AlertsState::new();
    let (active, _) = st.evaluate_with(&alerts, &vec![true], at(0));
    assert_eq!(ids(&active), vec!["k"]);
    st.reset("k");
    let (active, done) = st.evaluate_with(&alerts, &vec![false], at(5));
    assert!(active.is_empty() && done.is_empty());
}

#[test]
fn expiry_counts_from_the_first_firing() {
    let alerts = vec![alert("e", "5min", consumption(1, "upload"), false)];
    let mut st = AlertsState::new();
    st.evaluate_with(&alerts, &vec![true], at(1000));
    let (active, done) = st.evaluate_with(&alerts, &vec![true], at(1299));
    assert_eq!(ids(&active), vec!["e"]);
    assert!(done.is_empty());
    let (active, done) = st.evaluate_with(&alerts, &vec![true], at(1300));
    assert!(active.is_empty());
    assert_eq!(done, vec!["e".to_string()]);
}

#[test]
fn dismissed_alert_finishes_next_time() {
    let alerts = vec![alert("d", "5min", consumption(1, "upload"), false)];
    let mut st = AlertsState::new();
    let (active, _) = st.evaluate_with(&alerts, &vec![true], at(0));
    assert_eq!(ids(&active), vec!["d"]);
    st.dismiss("d");
    let (active, done) = st.evaluate_with(&alerts, &vec![false], at(1));
    assert!(active.is_empty());
    assert_eq!(done, vec!["d".to_string()]);
}

#[test]
fn local_date_target_is_within_a_day() {
    let t = resolve_date_target("2030-01-01T00:00").expect("a local time");
    assert!((t.secs - 1_893_456_000).abs() < 86_400);
    assert_eq!(resolve_date_target("2030-01-01T00:00:00Z"), Some(Instant { secs: 1_893_456_000, nanos: 0 }));
}
