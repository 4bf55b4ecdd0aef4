use jackynet::config::{
    default_hotkey, legacy_dir_names, migration_step, Alert, AlertKind, AppConfig, ConfigError,
    ConfigStore, MigrationStep,
};

fn alert(id: &str) -> Alert {
    Alert {
        id: id.to_string(),
        name: "n".to_string(),
        color: "#00ff00".to_string(),
        notify_duration: "10s".to_string(),
        kind: AlertKind::Date { iso: "2030-01-01T00:00".to_string() },
        paused: false,
    }
}

fn store() -> ConfigStore {
    ConfigStore::load("/tmp/config.json".to_string(), None)
}

#[test]
fn defaults_apply_without_a_file() {
    let s = store();
    assert_eq!(s.data.hotkey, "CmdOrCtrl+Shift+N");
    assert_eq!(default_hotkey(), "CmdOrCtrl+Shift+N");
    assert!(!s.data.autostart && !s.data.pip_enabled);
    assert!(s.data.alerts.is_empty());
    assert_eq!(s.data.alert_iface, None);
    assert_eq!(s.data.interface_aliases.len(), 0);
}

#[test]
fn loaded_settings_are_kept() {
    let mut cfg = AppConfig::default();
    cfg.pip_enabled = true;
    let s = ConfigStore::load("p".to_string(), Some(cfg));
    assert!(s.get().pip_enabled);
    assert_eq!(s.path, "p");
}

#[test]
fn alias_is_read_back_and_blank_removes_it() {
    let mut s = store();
    assert_eq!(s.set_alias("interface", "enxa65ac2b88521".to_string(), "Mobile Data".to_string()), Ok(()));
    let key = "enxa65ac2b88521".to_string();
    assert_eq!(s.data.interface_aliases.get(&key).map(|v| v.as_str()), Some("Mobile Data"));
    assert_eq!(s.set_alias("interface", key.clone(), "Phone".to_string()), Ok(()));
    assert_eq!(s.data.interface_aliases.get(&key).map(|v| v.as_str()), Some("Phone"));
    assert_eq!(s.data.interface_aliases.len(), 1);
    assert_eq!(s.set_alias("interface", key.clone(), "   ".to_string()), Ok(()));
    assert_eq!(s.data.interface_aliases.get(&key), None);
}

#[test]
fn process_aliases_are_separate() {
    let mut s = store();
    assert_eq!(s.set_alias("process", "/usr/bin/slack".to_string(), "Slack".to_string()), Ok(()));
    assert_eq!(s.data.process_aliases.len(), 1);
    assert_eq!(s.data.interface_aliases.len(), 0);
}

#[test]
fn unknown_alias_kind_is_refused() {
    let mut s = store();
    let r = s.set_alias("window", "k".to_string(), "v".to_string());
    assert_eq!(r, Err(ConfigError::UnknownAliasKind));
    assert_eq!(ConfigError::UnknownAliasKind.message(), "unknown alias kind");
    assert_eq!(s.data.process_aliases.len() + s.data.interface_aliases.len(), 0);
}

#[test]
fn at_most_ten_alerts() {
    let mut s = store();
    for i in 0..10 {
        assert_eq!(s.add_alert(alert(&format!("a{}", i))), Ok(()));
    }
    assert_eq!(s.add_alert(alert("a10")), Err(ConfigError::TooManyAlerts));
    assert_eq!(s.data.alerts.len(), 10);
    assert_eq!(ConfigError::TooManyAlerts.message(), "maximum of 10 alerts reached");
}

#[test]
fn duplicate_alert_id_is_refused() {
    let mut s = store();
    assert_eq!(s.add_alert(alert("x")), Ok(()));
    assert_eq!(s.add_alert(alert("x")), Err(ConfigError::DuplicateAlertId));
    assert_eq!(s.data.alerts.len(), 1);
    assert_eq!(ConfigError::DuplicateAlertId.message(), "alert id already exists");
}

#[test]
fn remove_alert_drops_only_that_id() {
    let mut s = store();
    s.add_alert(alert("a")).unwrap();
    s.add_alert(alert("b")).unwrap();
    s.add_alert(alert("c")).unwrap();
    s.remove_alert("b");
    let ids: Vec<&str> = s.data.alerts.iter().map(|a| a.id.as_str()).collect();
    assert_eq!(ids, vec!["a", "c"]);
    s.remove_alert("zzz");
    assert_eq!(s.data.alerts.len(), 2);
}

#[test]
fn toggle_twice_restores_pause_state() {
    let mut s = store();
    s.add_alert(alert("a")).unwrap();
    assert!(s.toggle_alert_pause("a"));
    assert!(s.data.alerts[0].paused);
    assert!(!s.toggle_alert_pause("a"));
    assert!(!s.data.alerts[0].paused);
    assert!(!s.toggle_alert_pause("missing"));
}

#[test]
fn set_paused_reports_changes() {
    let mut s = store();
    s.add_alert(alert("a")).unwrap();
    assert!(s.set_alert_paused("a", true));
    assert!(!s.set_alert_paused("a", true));
    assert!(s.data.alerts[0].paused);
    assert!(!s.set_alert_paused("nope", false));
}

#[test]
fn pip_and_alert_interface_settings() {
    let mut s = store();
    s.set_pip(true);
    assert!(s.data.pip_enabled);
    s.set_alert_iface(Some("wlan0".to_string()));
    assert_eq!(s.data.alert_iface.as_deref(), Some("wlan0"));
    s.set_alert_iface(None);
    assert_eq!(s.data.alert_iface, None);
}

#[test]
fn save_replaces_settings() {
    let mut s = store();
    let mut cfg = AppConfig::default();
    cfg.hotkey = "Alt+K".to_string();
    s.save(cfg);
    assert_eq!(s.get().hotkey, "Alt+K");
}

#[test]
fn migration_decisions() {
    assert_eq!(migration_step(true, true, true, true), MigrationStep::Done);
    assert_eq!(migration_step(false, false, true, true), MigrationStep::Skip);
    assert_eq!(migration_step(false, true, true, true), MigrationStep::MoveFile);
    assert_eq!(migration_step(false, true, true, false), MigrationStep::Skip);
    assert_eq!(migration_step(false, true, false, false), MigrationStep::MoveDir);
    let names = legacy_dir_names();
    assert_eq!(names, vec!["tauri-x25".to_string(), "taurix25".to_string()]);
    assert_eq!(jackynet::config::config_dir_name(), "jackynet");
    assert_eq!(jackynet::config::config_file_name(), "config.json");
}

#[test]
fn remove_undoes_add() {
    let mut s = store();
    s.add_alert(alert("a")).unwrap();
    s.add_alert(alert("b")).unwrap();
    let before: Vec<(String, bool)> = s.get().alerts.iter().map(|a| (a.id.clone(), a.paused)).collect();
    s.add_alert(alert("c")).unwrap();
    s.remove_alert("c");
    let after: Vec<(String, bool)> = s.get().alerts.iter().map(|a| (a.id.clone(), a.paused)).collect();
    assert_eq!(before, after);
    assert_eq!(s.get().hotkey, "CmdOrCtrl+Shift+N");
}

#[test]
fn finished_alerts_are_paused() {
    let mut s = store();
    s.add_alert(alert("a")).unwrap();
    s.add_alert(alert("b")).unwrap();
    s.add_alert(alert("c")).unwrap();
    assert!(s.pause_finished(&vec!["c".to_string(), "x".to_string(), "a".to_string()]));
    let paused: Vec<bool> = s.get().alerts.iter().map(|a| a.paused).collect();
    assert_eq!(paused, vec![true, false, true]);
    assert!(!s.pause_finished(&vec!["a".to_string()]));
    assert!(!s.pause_finished(&vec![]));
}
