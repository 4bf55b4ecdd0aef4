use jackynet::iface_stats::{is_virtual_iface, read_u64, snapshot_from, IfaceSnapshot, SessionState};

fn snap(name: &str, up: bool, rx: u64, tx: u64) -> IfaceSnapshot {
    IfaceSnapshot { name: name.to_string(), is_up: up, is_virtual: is_virtual_iface(name), rx_bytes: rx, tx_bytes: tx }
}

#[test]
fn virtual_interfaces() {
    for n in ["lo", "docker0", "br-1234", "virbr0", "veth99", "dummy0", "bonding_masters"] {
        assert!(is_virtual_iface(n), "{}", n);
    }
    for n in ["eth0", "wlan0", "enxa65ac2b88521", "lo0", "bonding"] {
        assert!(!is_virtual_iface(n), "{}", n);
    }
}

#[test]
fn counter_files_are_read() {
    assert_eq!(read_u64(&Some("12345\n".to_string())), Some(12345));
    assert_eq!(read_u64(&Some("abc".to_string())), None);
    assert_eq!(read_u64(&None), None);
}

#[test]
fn snapshot_from_kernel_files() {
    let s = snapshot_from(
        "wlan0".to_string(),
        &Some("up\n".to_string()),
        &Some("1\n".to_string()),
        &Some("100\n".to_string()),
        &None,
    );
    assert!(s.is_up && !s.is_virtual);
    assert_eq!((s.rx_bytes, s.tx_bytes), (100, 0));
    let down = snapshot_from("eth0".to_string(), &Some("up".to_string()), &Some("0".to_string()), &None, &None);
    assert!(!down.is_up);
    let dormant = snapshot_from("eth0".to_string(), &Some("dormant".to_string()), &Some("1".to_string()), &None, &None);
    assert!(!dormant.is_up);
}

#[test]
fn totals_count_from_first_sight() {
    let mut st = SessionState::new();
    let r = st.tick(&[snap("eth0", true, 1000, 500), snap("lo", true, 7, 7)]);
    assert_eq!(r.len(), 1);
    assert_eq!(r[0].name, "eth0");
    assert_eq!((r[0].total_rx_bytes, r[0].total_tx_bytes), (0, 0));
    assert!(r[0].started_unix_ms > 0);
    assert!(!r[0].started_at.is_empty());
    let started = r[0].started_unix_ms;
    let r = st.tick(&[snap("eth0", false, 1500, 800)]);
    assert_eq!((r[0].total_rx_bytes, r[0].total_tx_bytes), (500, 300));
    assert!(!r[0].is_up);
    assert_eq!(r[0].started_unix_ms, started);
}

#[test]
fn counter_rollback_rebaselines() {
    let mut st = SessionState::new();
    st.tick(&[snap("eth0", true, 1000, 1000)]);
    let r = st.tick(&[snap("eth0", true, 200, 1200)]);
    assert_eq!((r[0].total_rx_bytes, r[0].total_tx_bytes), (0, 200));
    let r = st.tick(&[snap("eth0", true, 250, 1200)]);
    assert_eq!(r[0].total_rx_bytes, 50);
}

#[test]
fn reset_zeroes_totals() {
    let mut st = SessionState::new();
    st.tick(&[snap("eth0", true, 0, 0), snap("wlan0", true, 0, 0)]);
    st.tick(&[snap("eth0", true, 900, 90), snap("wlan0", true, 10, 10)]);
    st.reset("eth0", &[snap("eth0", true, 1000, 100)]);
    let r = st.current();
    assert_eq!(r.len(), 2);
    assert_eq!((r[0].total_rx_bytes, r[0].total_tx_bytes), (0, 0));
    assert_eq!((r[1].total_rx_bytes, r[1].total_tx_bytes), (10, 10));
    let r = st.tick(&[snap("eth0", true, 1100, 100)]);
    assert_eq!(r[0].total_rx_bytes, 100);
    st.reset("wlan0", &[]);
    let r = st.current();
    assert_eq!((r[1].total_rx_bytes, r[1].total_tx_bytes), (0, 0));
    st.reset("unknown", &[]);
    assert_eq!(st.current().len(), 2);
}

#[test]
fn virtual_names_are_never_reported() {
    let mut st = SessionState::new();
    let lo = IfaceSnapshot { name: "lo".to_string(), is_up: true, is_virtual: false, rx_bytes: 5, tx_bytes: 5 };
    let r = st.tick(&[lo, snap("eth0", true, 1, 1), snap("eth0", true, 3, 2)]);
    assert_eq!(r.len(), 1);
    assert_eq!(r[0].name, "eth0");
    assert_eq!((r[0].total_rx_bytes, r[0].total_tx_bytes), (2, 1));
}

#[test]
fn reports_repeat_the_same_start() {
    let mut st = SessionState::new();
    let first = st.tick(&[snap("eth0", true, 10, 10)]);
    let again = st.current();
    assert_eq!(first[0].started_at, again[0].started_at);
    assert_eq!(first[0].started_unix_ms, again[0].started_unix_ms);
    let later = st.tick(&[snap("eth0", true, 20, 30)]);
    assert_eq!(later[0].started_at, first[0].started_at);
    assert_eq!((later[0].total_rx_bytes, later[0].total_tx_bytes), (10, 20));
}
