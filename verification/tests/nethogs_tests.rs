use jackynet::nethogs::{
    cmdline_text, exe_path, is_generic_program, nethogs_command, parse_line, resolve_identity,
    should_flush, uid_to_user, user_label, Frame, NethogsState, StreamEvent, StreamSupervisor,
};

#[test]
fn parses_a_trace_line() {
    let p = parse_line("/usr/lib/firefox/firefox/4242/1000\t0.123\t4.5").unwrap();
    assert_eq!(p.program, "/usr/lib/firefox/firefox");
    assert_eq!((p.pid, p.uid), (4242, 1000));
    assert_eq!(p.tx_text, "0.123");
    assert_eq!(p.rx_text, "4.5");
}

#[test]
fn program_with_spaces_is_joined() {
    let p = parse_line("  My App/bin/app/77/0   1   2  ").unwrap();
    assert_eq!(p.program, "My App/bin/app");
    assert_eq!((p.pid, p.uid), (77, 0));
}

#[test]
fn status_and_malformed_lines_are_skipped() {
    assert!(parse_line("").is_none());
    assert!(parse_line("Refreshing:").is_none());
    assert!(parse_line("nethogs version 0.8.7").is_none());
    assert!(parse_line("prog/1/2 0.5").is_none());
    assert!(parse_line("prog/1 0.5 0.5").is_none());
    assert!(parse_line("prog/x/2 0.5 0.5").is_none());
    assert!(parse_line("prog/1/99999999999 0.5 0.5").is_none());
}

#[test]
fn generic_programs() {
    for p in ["", "?", "unknown", "/proc/self/exe", "/tmp/.mount_Slack123/slack"] {
        assert!(is_generic_program(p), "{:?}", p);
    }
    assert!(!is_generic_program("/usr/bin/curl"));
}

#[test]
fn identity_falls_back_in_order() {
    assert_eq!(resolve_identity("/usr/bin/curl", &Some("/x".to_string()), "curl x"), "/usr/bin/curl");
    assert_eq!(resolve_identity("/proc/self/exe", &Some("/usr/share/code/code".to_string()), "code ."), "/usr/share/code/code");
    assert_eq!(resolve_identity("/proc/self/exe", &None, "/opt/slack/slack --x"), "/opt/slack/slack");
    assert_eq!(resolve_identity("?", &Some("unknown".to_string()), "   "), "?");
}

#[test]
fn exe_target_cleanup() {
    assert_eq!(exe_path(10, &Some("/usr/bin/foo (deleted)".to_string())).as_deref(), Some("/usr/bin/foo"));
    assert_eq!(exe_path(10, &Some("/usr/bin/foo".to_string())).as_deref(), Some("/usr/bin/foo"));
    assert_eq!(exe_path(10, &Some(" (deleted)".to_string())), None);
    assert_eq!(exe_path(0, &Some("/bin/sh".to_string())), None);
    assert_eq!(exe_path(10, &None), None);
}

#[test]
fn cmdline_from_proc_bytes() {
    assert_eq!(cmdline_text(5, &Some(b"/usr/bin/python3\0-m\0http.server\0".to_vec())).as_deref(), Some("/usr/bin/python3 -m http.server"));
    assert_eq!(cmdline_text(5, &Some(vec![0xff, b'a'])).as_deref(), Some("\u{fffd}a"));
    assert_eq!(cmdline_text(-1, &Some(b"x".to_vec())), None);
    assert_eq!(cmdline_text(5, &None), None);
}

#[test]
fn passwd_lookup() {
    let passwd = "root:x:0:0:root:/root:/bin/bash\r\nbob:x:1000:1000::/home/bob:/bin/sh\nbad\nalice:x:1000:1000::/:/bin/sh\n";
    assert_eq!(uid_to_user(1000, passwd).as_deref(), Some("bob"));
    assert_eq!(uid_to_user(0, passwd).as_deref(), Some("root"));
    assert_eq!(uid_to_user(42, passwd), None);
    assert_eq!(user_label(42, &Some(passwd.to_string())), "42");
    assert_eq!(user_label(-3, &None), "-3");
    assert_eq!(user_label(0, &Some(passwd.to_string())), "root");
}

#[test]
fn frame_keeps_one_row_per_process() {
    let mut f: Frame<u32> = Frame::new();
    f.upsert(1, "a".to_string(), 10);
    f.upsert(2, "a".to_string(), 20);
    f.upsert(1, "b".to_string(), 30);
    f.upsert(1, "a".to_string(), 11);
    assert_eq!(f.len(), 3);
    assert_eq!(f.take_rows(), vec![11, 20, 30]);
    assert_eq!(f.len(), 0);
}

#[test]
fn session_totals() {
    let mut st = NethogsState::new();
    let s = st.session_stats();
    assert_eq!((s.started_at.as_str(), s.started_unix_ms), ("", 0));
    assert!(st.begin_stream());
    assert!(!st.begin_stream());
    st.add_totals(100, 5);
    st.add_totals(u64::MAX, 1);
    let s = st.session_stats();
    assert_eq!((s.total_rx_bytes, s.total_tx_bytes), (u64::MAX, 6));
    assert!(s.started_unix_ms > 0);
    assert!(!s.started_at.is_empty());
}

#[test]
fn stream_supervision() {
    assert!(!should_flush(899));
    assert!(should_flush(900));
    let mut sup = StreamSupervisor::new();
    assert!(sup.use_pkexec);
    assert_eq!(sup.on_event(StreamEvent::SpawnFailed), 5000);
    assert_eq!(sup.on_event(StreamEvent::NoOutput), 2000);
    assert!(sup.use_pkexec);
    assert_eq!(sup.on_event(StreamEvent::Exited), 3000);
    assert!(!sup.use_pkexec);
    let (p, a) = nethogs_command(true);
    assert_eq!(p, "pkexec");
    assert_eq!(a, vec!["nethogs", "-t", "-d", "1"]);
    let (p, a) = nethogs_command(false);
    assert_eq!(p, "nethogs");
    assert_eq!(a, vec!["-t", "-d", "1"]);
}
