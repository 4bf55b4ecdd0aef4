//! The settings of the monitor and the operations that change them.

use vstd::prelude::*;
use crate::keyed::KeyedVec;
use crate::text::{trim, to_chars, trim_chars};

verus! {

/// What makes an alert fire.
pub enum AlertKind {
    /// The chosen interface has been up for `hms` ("HH:MM:SS").
    Chronometer { hms: String },
    /// The clock has reached the date and time `iso`.
    Date { iso: String },
    /// The chosen interface has moved `bytes` bytes in `direction`
    /// ("download", "upload" or, for any other word, both together).
    Consumption { bytes: u64, direction: String },
}

/// An alert that the user set up.
pub struct Alert {
    pub id: String,
    pub name: String,
    pub color: String,
    /// "10s", "1min", "5min" or "continue".
    pub notify_duration: String,
    pub kind: AlertKind,
    pub paused: bool,
}


/// All settings of the monitor.
pub struct AppConfig {
    /// Friendly names of network interfaces, by interface name.
    pub interface_aliases: KeyedVec<String>,
    /// Friendly names of programs, by the identity of the program.
    pub process_aliases: KeyedVec<String>,
    /// The key combination that shows or hides the main window.
    pub hotkey: String,
    pub autostart: bool,
    pub pip_enabled: bool,
    pub alerts: Vec<Alert>,
    /// The interface that the alerts watch, if the user chose one.
    pub alert_iface: Option<String>,
}


/// What the settings hold, as values.
pub struct ConfigView {
    pub interface_aliases: Map<Seq<char>, String>,
    pub process_aliases: Map<Seq<char>, String>,
    pub hotkey: Seq<char>,
    pub autostart: bool,
    pub pip_enabled: bool,
    pub alerts: Seq<Alert>,
    pub alert_iface: Option<Seq<char>>,
}

impl View for AppConfig {
    type V = ConfigView;

    open spec fn view(&self) -> ConfigView {
        ConfigView {
            interface_aliases: self.interface_aliases@,
            process_aliases: self.process_aliases@,
            hotkey: self.hotkey@,
            autostart: self.autostart,
            pip_enabled: self.pip_enabled,
            alerts: self.alerts@,
            alert_iface: match self.alert_iface {
                Some(s) => Some(s@),
                None => None,
            },
        }
    }
}

/// The key combination that toggles the main window unless the user set one.
pub open spec fn default_hotkey_text() -> Seq<char> {
    "CmdOrCtrl+Shift+N"@
}

/// The key combination that toggles the main window unless the user set one.
pub fn default_hotkey() -> (r: String)
    ensures
        r@ == default_hotkey_text(),
{
    String::from_str("CmdOrCtrl+Shift+N")
}

/// The settings before the user changed any: no aliases, the default key
/// combination, no autostart, no overlay, no alerts, no chosen interface.
pub open spec fn default_view() -> ConfigView {
    ConfigView {
        interface_aliases: Map::empty(),
        process_aliases: Map::empty(),
        hotkey: default_hotkey_text(),
        autostart: false,
        pip_enabled: false,
        alerts: Seq::empty(),
        alert_iface: None,
    }
}

impl Default for AppConfig {
    fn default() -> (r: Self)
        ensures
            r@ == default_view(),
    {
        AppConfig {
            interface_aliases: KeyedVec::new(),
            process_aliases: KeyedVec::new(),
            hotkey: default_hotkey(),
            autostart: false,
            pip_enabled: false,
            alerts: Vec::new(),
            alert_iface: None,
        }
    }
}

/// A copy of an alert.
pub fn copy_alert(a: &Alert) -> (r: Alert)
    ensures
        r == *a,
{
    let kind = match &a.kind {
        AlertKind::Chronometer { hms } => AlertKind::Chronometer { hms: hms.clone() },
        AlertKind::Date { iso } => AlertKind::Date { iso: iso.clone() },
        AlertKind::Consumption { bytes, direction } => AlertKind::Consumption {
            bytes: *bytes,
            direction: direction.clone(),
        },
    };
    Alert {
        id: a.id.clone(),
        name: a.name.clone(),
        color: a.color.clone(),
        notify_duration: a.notify_duration.clone(),
        kind,
        paused: a.paused,
    }
}

/// A copy of the settings.
pub fn copy_config(c: &AppConfig) -> (r: AppConfig)
    ensures
        r@ == c@,
{
    let mut alerts: Vec<Alert> = Vec::new();
    for i in 0..c.alerts.len()
        invariant
            alerts@ == c.alerts@.take(i as int),
    {
        alerts.push(copy_alert(&c.alerts[i]));
        assert(c.alerts@.take(i + 1) == c.alerts@.take(i as int).push(c.alerts@[i as int]));
    }
    assert(c.alerts@.take(c.alerts@.len() as int) == c.alerts@);
    AppConfig {
        interface_aliases: c.interface_aliases.duplicate(),
        process_aliases: c.process_aliases.duplicate(),
        hotkey: c.hotkey.clone(),
        autostart: c.autostart,
        pip_enabled: c.pip_enabled,
        alerts,
        alert_iface: match &c.alert_iface {
            Some(s) => Some(s.clone()),
            None => None,
        },
    }
}

/// Why a change of the settings was refused.
#[derive(Debug, PartialEq, Eq, Structural)]
pub enum ConfigError {
    /// An alias was set for something that is neither "interface" nor "process".
    UnknownAliasKind,
    /// Ten alerts exist already.
    TooManyAlerts,
    /// An alert with that id exists already.
    DuplicateAlertId,
}

impl ConfigError {
    /// The message for the user.
    pub fn message(&self) -> (r: String)
        ensures
            r@ == match self {
                ConfigError::UnknownAliasKind => "unknown alias kind"@,
                ConfigError::TooManyAlerts => "maximum of 10 alerts reached"@,
                ConfigError::DuplicateAlertId => "alert id already exists"@,
            },
    {
        match self {
            ConfigError::UnknownAliasKind => String::from_str("unknown alias kind"),
            ConfigError::TooManyAlerts => String::from_str("maximum of 10 alerts reached"),
            ConfigError::DuplicateAlertId => String::from_str("alert id already exists"),
        }
    }
}

/// The most alerts there can be.
pub const MAX_ALERTS: usize = 10;

/// The settings after an alias is set: for "interface" or "process", the
/// name becomes the alias of `key`, or, when it is blank, `key` loses its
/// alias; any other kind is refused.
pub open spec fn with_alias(v: ConfigView, kind: Seq<char>, key: String, name: String) -> Result<
    ConfigView,
    ConfigError,
> {
    let change = |m: Map<Seq<char>, String>|
        if trim(name@).len() == 0 {
            m.remove(key@)
        } else {
            m.insert(key@, name)
        };
    if kind == "interface"@ {
        Ok(ConfigView { interface_aliases: change(v.interface_aliases), ..v })
    } else if kind == "process"@ {
        Ok(ConfigView { process_aliases: change(v.process_aliases), ..v })
    } else {
        Err(ConfigError::UnknownAliasKind)
    }
}

/// Some alert carries the id `id`.
pub open spec fn has_alert(alerts: Seq<Alert>, id: Seq<char>) -> bool {
    exists|i: int| 0 <= i < alerts.len() && #[trigger] alerts[i].id@ == id
}

/// The settings after an alert is added: refused when ten exist or its id
/// is taken; else it comes last.
pub open spec fn with_alert_added(v: ConfigView, alert: Alert) -> Result<ConfigView, ConfigError> {
    if v.alerts.len() >= 10 {
        Err(ConfigError::TooManyAlerts)
    } else if has_alert(v.alerts, alert.id@) {
        Err(ConfigError::DuplicateAlertId)
    } else {
        Ok(ConfigView { alerts: v.alerts.push(alert), ..v })
    }
}

/// The test that keeps an alert whose id is not `id`.
pub open spec fn id_other_than(id: Seq<char>) -> spec_fn(Alert) -> bool {
    |a: Alert| a.id@ != id
}

/// The settings without the alerts that carry the id `id`.
pub open spec fn without_alert(v: ConfigView, id: Seq<char>) -> ConfigView {
    ConfigView { alerts: v.alerts.filter(id_other_than(id)), ..v }
}

/// The position of the first alert with id `id`, or -1.
pub open spec fn first_alert(alerts: Seq<Alert>, id: Seq<char>) -> int
    decreases alerts.len(),
{
    if alerts.len() == 0 {
        -1
    } else {
        let f = first_alert(alerts.drop_last(), id);
        if f >= 0 {
            f
        } else if alerts.last().id@ == id {
            alerts.len() - 1
        } else {
            -1
        }
    }
}

/// The settings after the first alert with id `id` is paused or resumed
/// (flipped), and its new state (false when there is no such alert).
pub open spec fn toggled(v: ConfigView, id: Seq<char>) -> (ConfigView, bool) {
    let j = first_alert(v.alerts, id);
    if j >= 0 {
        let a = v.alerts[j];
        (
            ConfigView { alerts: v.alerts.update(j, Alert { paused: !a.paused, ..a }), ..v },
            !a.paused,
        )
    } else {
        (v, false)
    }
}

/// The settings after the first alert with id `id` is set to `paused`, and
/// whether that changed anything.
pub open spec fn paused_set(v: ConfigView, id: Seq<char>, paused: bool) -> (ConfigView, bool) {
    let j = first_alert(v.alerts, id);
    if j >= 0 && v.alerts[j].paused != paused {
        let a = v.alerts[j];
        (ConfigView { alerts: v.alerts.update(j, Alert { paused: paused, ..a }), ..v }, true)
    } else {
        (v, false)
    }
}

/// The settings after the first alert with each id of `ids`, in turn, is
/// paused, and whether that changed anything.
pub open spec fn paused_all(v: ConfigView, ids: Seq<String>) -> (ConfigView, bool)
    decreases ids.len(),
{
    if ids.len() == 0 {
        (v, false)
    } else {
        let prev = paused_all(v, ids.drop_last());
        let st = paused_set(prev.0, ids.last()@, true);
        (st.0, prev.1 || st.1)
    }
}

proof fn lemma_first_alert(alerts: Seq<Alert>, id: Seq<char>)
    ensures
        -1 <= first_alert(alerts, id) < alerts.len(),
        first_alert(alerts, id) >= 0 ==> alerts[first_alert(alerts, id)].id@ == id,
        first_alert(alerts, id) == -1 ==> !has_alert(alerts, id),
    decreases alerts.len(),
{
    if alerts.len() > 0 {
        lemma_first_alert(alerts.drop_last(), id);
        if first_alert(alerts, id) == -1 {
            assert forall|i: int| 0 <= i < alerts.len() implies #[trigger] alerts[i].id@ != id by {
                if i < alerts.len() - 1 {
                    assert(alerts[i] == alerts.drop_last()[i]);
                    assert(!has_alert(alerts.drop_last(), id));
                    if alerts[i].id@ == id {
                        assert(alerts.drop_last()[i].id@ == id);
                    }
                }
            }
        }
    }
}

proof fn lemma_first_alert_extends(alerts: Seq<Alert>, id: Seq<char>, k: int)
    requires
        0 <= k <= alerts.len(),
        first_alert(alerts.take(k), id) >= 0,
    ensures
        first_alert(alerts, id) == first_alert(alerts.take(k), id),
    decreases alerts.len() - k,
{
    if k < alerts.len() {
        assert(alerts.drop_last().take(k) == alerts.take(k));
        lemma_first_alert_extends(alerts.drop_last(), id, k);
    } else {
        assert(alerts.take(k) == alerts);
    }
}

/// The position of the first alert with id `id`.
fn find_alert(alerts: &Vec<Alert>, id: &str) -> (r: Option<usize>)
    ensures
        match r {
            Some(j) => j < alerts@.len() && first_alert(alerts@, id@) == j,
            None => first_alert(alerts@, id@) == -1,
        },
{
    let key = String::from_str(id);
    let n = alerts.len();
    let mut i: usize = 0;
    assert(alerts@.take(0) == Seq::<Alert>::empty());
    while i < n && alerts[i].id != key
        invariant
            i <= n == alerts@.len(),
            key@ == id@,
            first_alert(alerts@.take(i as int), id@) == -1,
        decreases n - i,
    {
        assert(alerts@.take(i + 1).drop_last() == alerts@.take(i as int));
        i += 1;
    }
    if i < n {
        assert(alerts@.take(i + 1).drop_last() == alerts@.take(i as int));
        proof {
            lemma_first_alert_extends(alerts@, id@, i + 1);
        }
        Some(i)
    } else {
        assert(alerts@.take(n as int) == alerts@);
        None
    }
}

/// The settings of the monitor and where they are kept.
pub struct ConfigStore {
    /// The file that holds the settings.
    pub path: String,
    /// The settings in effect.
    pub data: AppConfig,
}

impl ConfigStore {
    /// The store for `path`, with the settings read from it (`None` when
    /// the file could not be read or parsed: then the defaults apply).
    pub fn load(path: String, parsed: Option<AppConfig>) -> (r: Self)
        ensures
            r.path == path,
            r.data@ == match parsed {
                Some(c) => c@,
                None => default_view(),
            },
    {
        let data = match parsed {
            Some(c) => c,
            None => AppConfig::default(),
        };
        ConfigStore { path, data }
    }

    /// A copy of the settings in effect.
    pub fn get(&self) -> (r: AppConfig)
        ensures
            r@ == self.data@,
    {
        copy_config(&self.data)
    }

    /// Replaces the settings.
    pub fn save(&mut self, new_cfg: AppConfig)
        ensures
            final(self).data@ == new_cfg@,
            final(self).path == old(self).path,
    {
        self.data = new_cfg;
    }

    /// Sets (or, for a blank name, removes) the alias of an interface or a
    /// program; refuses any other kind and then changes nothing.
    pub fn set_alias(&mut self, kind: &str, key: String, name: String) -> (r: Result<(), ConfigError>)
        ensures
            final(self).path == old(self).path,
            match with_alias(old(self).data@, kind@, key, name) {
                Ok(v) => r is Ok && final(self).data@ == v,
                Err(e) => r == Err::<(), ConfigError>(e) && final(self).data@ == old(self).data@,
            },
    {
        let blank = trim_chars(&to_chars(name.as_str())).len() == 0;
        if crate::text::eq_str(kind, "interface") {
            if blank {
                self.data.interface_aliases.remove(&key);
            } else {
                self.data.interface_aliases.insert(key, name);
            }
            Ok(())
        } else if crate::text::eq_str(kind, "process") {
            if blank {
                self.data.process_aliases.remove(&key);
            } else {
                self.data.process_aliases.insert(key, name);
            }
            Ok(())
        } else {
            Err(ConfigError::UnknownAliasKind)
        }
    }

    /// Shows or hides the overlay window from now on.
    pub fn set_pip(&mut self, enabled: bool)
        ensures
            final(self).path == old(self).path,
            final(self).data@ == (ConfigView { pip_enabled: enabled, ..old(self).data@ }),
    {
        self.data.pip_enabled = enabled;
    }

    /// Adds an alert; refuses an eleventh alert and a taken id, and then
    /// changes nothing.
    pub fn add_alert(&mut self, alert: Alert) -> (r: Result<(), ConfigError>)
        ensures
            final(self).path == old(self).path,
            match with_alert_added(old(self).data@, alert) {
                Ok(v) => r is Ok && final(self).data@ == v,
                Err(e) => r == Err::<(), ConfigError>(e) && final(self).data@ == old(self).data@,
            },
    {
        if self.data.alerts.len() >= MAX_ALERTS {
            return Err(ConfigError::TooManyAlerts);
        }
        match find_alert(&self.data.alerts, alert.id.as_str()) {
            Some(_) => {
                proof {
                    lemma_first_alert(self.data.alerts@, alert.id@);
                }
                Err(ConfigError::DuplicateAlertId)
            },
            None => {
                proof {
                    lemma_first_alert(self.data.alerts@, alert.id@);
                }
                self.data.alerts.push(alert);
                Ok(())
            },
        }
    }

    /// Removes every alert with the id `id`.
    pub fn remove_alert(&mut self, id: &str)
        ensures
            final(self).path == old(self).path,
            final(self).data@ == without_alert(old(self).data@, id@),
    {
        broadcast use Seq::lemma_filter_push;

        let key = String::from_str(id);
        let mut kept: Vec<Alert> = Vec::new();
        let ghost all = self.data.alerts@;
        proof {
            reveal_with_fuel(Seq::filter, 1);
        }
        assert(all.take(0) == Seq::<Alert>::empty());
        for i in 0..self.data.alerts.len()
            invariant
                all == self.data.alerts@,
                key@ == id@,
                kept@ == all.take(i as int).filter(id_other_than(id@)),
        {
            assert(all.take(i + 1) == all.take(i as int).push(all[i as int]));
            proof {
                all.take(i as int).lemma_filter_push(all[i as int], id_other_than(id@));
            }
            if self.data.alerts[i].id != key {
                kept.push(copy_alert(&self.data.alerts[i]));
            }
        }
        assert(all.take(all.len() as int) == all);
        self.data.alerts = kept;
    }

    /// Pauses or resumes the first alert with id `id`; returns its new
    /// state (false when there is no such alert).
    pub fn toggle_alert_pause(&mut self, id: &str) -> (r: bool)
        ensures
            final(self).path == old(self).path,
            (final(self).data@, r) == toggled(old(self).data@, id@),
    {
        match find_alert(&self.data.alerts, id) {
            Some(j) => {
                let mut a = copy_alert(&self.data.alerts[j]);
                a.paused = !a.paused;
                let state = a.paused;
                self.data.alerts.set(j, a);
                state
            },
            None => false,
        }
    }

    /// Sets the first alert with id `id` to `paused`; returns whether that
    /// changed anything (the settings need saving only then).
    pub fn set_alert_paused(&mut self, id: &str, paused: bool) -> (changed: bool)
        ensures
            final(self).path == old(self).path,
            (final(self).data@, changed) == paused_set(old(self).data@, id@, paused),
    {
        match find_alert(&self.data.alerts, id) {
            Some(j) => {
                if self.data.alerts[j].paused != paused {
                    let mut a = copy_alert(&self.data.alerts[j]);
                    a.paused = paused;
                    self.data.alerts.set(j, a);
                    true
                } else {
                    false
                }
            },
            None => false,
        }
    }

    /// Pauses the alerts that an evaluation reported as finished, so that
    /// they do not fire again until the user resumes them; returns whether
    /// that changed anything (the settings need saving only then).
    pub fn pause_finished(&mut self, ids: &Vec<String>) -> (changed: bool)
        ensures
            final(self).path == old(self).path,
            (final(self).data@, changed) == paused_all(old(self).data@, ids@),
    {
        let ghost v0 = self.data@;
        let ghost p0 = self.path;
        let mut changed = false;
        assert(ids@.take(0) == Seq::<String>::empty());
        for k in 0..ids.len()
            invariant
                self.path == p0,
                (self.data@, changed) == paused_all(v0, ids@.take(k as int)),
        {
            assert(ids@.take(k + 1).drop_last() == ids@.take(k as int));
            assert(ids@.take(k + 1).last() == ids@[k as int]);
            let c = self.set_alert_paused(ids[k].as_str(), true);
            changed = changed || c;
        }
        assert(ids@.take(ids@.len() as int) == ids@);
        changed
    }

    /// Chooses the interface that alerts watch (or none).
    pub fn set_alert_iface(&mut self, iface: Option<String>)
        ensures
            final(self).path == old(self).path,
            final(self).data@ == (ConfigView {
                alert_iface: match iface {
                    Some(s) => Some(s@),
                    None => None,
                },
                ..old(self).data@
            }),
    {
        self.data.alert_iface = iface;
    }
}


/// No two alerts share an id.
pub open spec fn alert_ids_distinct(alerts: Seq<Alert>) -> bool {
    forall|i: int, j: int|
        0 <= i < alerts.len() && 0 <= j < alerts.len() && i != j ==> #[trigger] alerts[i].id@
            != #[trigger] alerts[j].id@
}

/// A name set as an alias is what the alias then reads; a blank name
/// removes the alias; the other aliases and settings stay as they were.
pub proof fn law_alias_read_after_write(v: ConfigView, kind: Seq<char>, key: String, name: String)
    requires
        kind == "interface"@ || kind == "process"@,
    ensures
        with_alias(v, kind, key, name) is Ok,
        ({
            let w = with_alias(v, kind, key, name)->Ok_0;
            let m = if kind == "interface"@ {
                w.interface_aliases
            } else {
                w.process_aliases
            };
            let m0 = if kind == "interface"@ {
                v.interface_aliases
            } else {
                v.process_aliases
            };
            &&& trim(name@).len() > 0 ==> m.contains_key(key@) && m[key@] == name
            &&& trim(name@).len() == 0 ==> !m.contains_key(key@)
            &&& forall|k: Seq<char>|
                k != key@ ==> (#[trigger] m.contains_key(k) == m0.contains_key(k) && (
                m0.contains_key(k) ==> m[k] == m0[k]))
            &&& w.alerts == v.alerts && w.hotkey == v.hotkey && w.pip_enabled == v.pip_enabled
        }),
{
    reveal_strlit("interface");
    reveal_strlit("process");
}

/// An alias of another kind than "interface" or "process" is refused.
pub proof fn law_unknown_alias_kind_refused(v: ConfigView, kind: Seq<char>, key: String, name: String)
    requires
        kind != "interface"@,
        kind != "process"@,
    ensures
        with_alias(v, kind, key, name) == Err::<ConfigView, ConfigError>(ConfigError::UnknownAliasKind),
{
}

/// Adding alerts never takes their number past ten: an addition is refused
/// exactly when ten exist already, and otherwise adds one.
pub proof fn law_at_most_ten_alerts(v: ConfigView, alert: Alert)
    requires
        v.alerts.len() <= 10,
    ensures
        (with_alert_added(v, alert) == Err::<ConfigView, ConfigError>(ConfigError::TooManyAlerts))
            == (v.alerts.len() == 10),
        with_alert_added(v, alert) matches Ok(w) ==> w.alerts.len() == v.alerts.len() + 1
            && w.alerts.len() <= 10,
{
}

/// Adding alerts keeps their ids distinct.
pub proof fn law_alert_ids_stay_distinct(v: ConfigView, alert: Alert)
    requires
        alert_ids_distinct(v.alerts),
    ensures
        with_alert_added(v, alert) matches Ok(w) ==> alert_ids_distinct(w.alerts),
{
    if with_alert_added(v, alert) is Ok {
        let w = with_alert_added(v, alert)->Ok_0;
        assert forall|i: int, j: int|
            0 <= i < w.alerts.len() && 0 <= j < w.alerts.len() && i != j implies #[trigger] w.alerts[i].id@
            != #[trigger] w.alerts[j].id@ by {
            if i < v.alerts.len() && j < v.alerts.len() {
                assert(w.alerts[i] == v.alerts[i] && w.alerts[j] == v.alerts[j]);
            } else if i < v.alerts.len() {
                assert(w.alerts[i] == v.alerts[i]);
                assert(!has_alert(v.alerts, alert.id@));
                if v.alerts[i].id@ == alert.id@ {
                    assert(has_alert(v.alerts, alert.id@));
                }
            } else {
                assert(w.alerts[j] == v.alerts[j]);
                if v.alerts[j].id@ == alert.id@ {
                    assert(has_alert(v.alerts, alert.id@));
                }
            }
        }
    }
}

/// Pausing and resuming an alert twice leaves the settings as they were.
pub proof fn law_toggle_twice_restores(v: ConfigView, id: Seq<char>)
    ensures
        toggled(toggled(v, id).0, id).0 == v,
        toggled(toggled(v, id).0, id).1 == (first_alert(v.alerts, id) >= 0 && v.alerts[first_alert(
            v.alerts,
            id,
        )].paused),
{
    lemma_first_alert(v.alerts, id);
    let j = first_alert(v.alerts, id);
    if j >= 0 {
        let w = toggled(v, id).0;
        assert(first_alert(w.alerts, id) == j) by {
            lemma_first_alert_same_ids(v.alerts, w.alerts, id);
        }
        let a = v.alerts[j];
        assert(w.alerts[j] == Alert { paused: !a.paused, ..a });
        assert(w.alerts.update(j, Alert { paused: a.paused, ..a }) == v.alerts);
    }
}

proof fn lemma_first_alert_same_ids(a: Seq<Alert>, b: Seq<Alert>, id: Seq<char>)
    requires
        a.len() == b.len(),
        forall|i: int| 0 <= i < a.len() ==> #[trigger] a[i].id@ == b[i].id@,
    ensures
        first_alert(a, id) == first_alert(b, id),
    decreases a.len(),
{
    if a.len() > 0 {
        assert forall|i: int| 0 <= i < a.drop_last().len() implies #[trigger] a.drop_last()[i].id@
            == b.drop_last()[i].id@ by {
            assert(a.drop_last()[i] == a[i] && b.drop_last()[i] == b[i]);
        }
        lemma_first_alert_same_ids(a.drop_last(), b.drop_last(), id);
    }
}

/// Setting an alert's pause state twice to the same value changes nothing
/// the second time, and reports so.
pub proof fn law_set_paused_idempotent(v: ConfigView, id: Seq<char>, paused: bool)
    ensures
        paused_set(paused_set(v, id, paused).0, id, paused) == (paused_set(v, id, paused).0, false),
{
    lemma_first_alert(v.alerts, id);
    let j = first_alert(v.alerts, id);
    if j >= 0 && v.alerts[j].paused != paused {
        let w = paused_set(v, id, paused).0;
        lemma_first_alert_same_ids(v.alerts, w.alerts, id);
    }
}

/// After an alert is removed no alert carries its id, and the other
/// alerts keep their order.
pub proof fn law_removed_alert_is_gone(v: ConfigView, id: Seq<char>)
    ensures
        !has_alert(without_alert(v, id).alerts, id),
        without_alert(v, id).alerts == v.alerts.filter(id_other_than(id)),
{
    broadcast use vstd::seq_lib::group_filter_ensures;

    let f = v.alerts.filter(id_other_than(id));
    if has_alert(f, id) {
        let i = choose|i: int| 0 <= i < f.len() && #[trigger] f[i].id@ == id;
        assert(id_other_than(id)(f[i]));
    }
}


proof fn lemma_filter_keeps_ids_distinct(alerts: Seq<Alert>, id: Seq<char>)
    requires
        alert_ids_distinct(alerts),
    ensures
        alert_ids_distinct(alerts.filter(id_other_than(id))),
    decreases alerts.len(),
{
    broadcast use Seq::lemma_filter_push;

    if alerts.len() == 0 {
        reveal_with_fuel(Seq::filter, 1);
    } else {
        let init = alerts.drop_last();
        let x = alerts.last();
        assert(init.push(x) == alerts);
        assert forall|a: int, b: int|
            0 <= a < init.len() && 0 <= b < init.len() && a != b implies #[trigger] init[a].id@
            != #[trigger] init[b].id@ by {
            assert(init[a] == alerts[a] && init[b] == alerts[b]);
        }
        lemma_filter_keeps_ids_distinct(init, id);
        let fi = init.filter(id_other_than(id));
        let f = alerts.filter(id_other_than(id));
        if id_other_than(id)(x) {
            assert(f == fi.push(x));
            assert forall|a: int, b: int|
                0 <= a < f.len() && 0 <= b < f.len() && a != b implies #[trigger] f[a].id@
                != #[trigger] f[b].id@ by {
                if a < fi.len() && b < fi.len() {
                    assert(f[a] == fi[a] && f[b] == fi[b]);
                } else if a < fi.len() {
                    assert(f[a] == fi[a] && f[b] == x);
                    assert(fi.contains(fi[a]));
                    init.lemma_filter_contains_rev(id_other_than(id), fi[a]);
                    let w = choose|w: int| 0 <= w < init.len() && init[w] == fi[a];
                    assert(alerts[w] == fi[a] && alerts[alerts.len() - 1] == x);
                } else {
                    assert(f[b] == fi[b] && f[a] == x);
                    assert(fi.contains(fi[b]));
                    init.lemma_filter_contains_rev(id_other_than(id), fi[b]);
                    let w = choose|w: int| 0 <= w < init.len() && init[w] == fi[b];
                    assert(alerts[w] == fi[b] && alerts[alerts.len() - 1] == x);
                }
            }
        } else {
            assert(f == fi);
        }
    }
}

proof fn lemma_filter_keeps_all(alerts: Seq<Alert>, id: Seq<char>)
    requires
        !has_alert(alerts, id),
    ensures
        alerts.filter(id_other_than(id)) == alerts,
    decreases alerts.len(),
{
    broadcast use Seq::lemma_filter_push;

    if alerts.len() == 0 {
        reveal_with_fuel(Seq::filter, 1);
        assert(alerts.filter(id_other_than(id)) =~= alerts);
    } else {
        let init = alerts.drop_last();
        assert(init.push(alerts.last()) == alerts);
        if has_alert(init, id) {
            let w = choose|w: int| 0 <= w < init.len() && #[trigger] init[w].id@ == id;
            assert(alerts[w] == init[w]);
        }
        lemma_filter_keeps_all(init, id);
        assert(alerts[alerts.len() - 1].id@ != id);
    }
}

/// Every change of the settings but a wholesale save keeps the alerts
/// valid: at most ten of them, no id twice.
pub proof fn law_changes_keep_alerts_valid(
    v: ConfigView,
    kind: Seq<char>,
    key: String,
    name: String,
    alert: Alert,
    id: Seq<char>,
    paused: bool,
)
    requires
        v.alerts.len() <= 10,
        alert_ids_distinct(v.alerts),
    ensures
        with_alias(v, kind, key, name) matches Ok(w) ==> w.alerts == v.alerts,
        with_alert_added(v, alert) matches Ok(w) ==> w.alerts.len() <= 10 && alert_ids_distinct(
            w.alerts,
        ),
        without_alert(v, id).alerts.len() <= 10,
        alert_ids_distinct(without_alert(v, id).alerts),
        toggled(v, id).0.alerts.len() <= 10,
        alert_ids_distinct(toggled(v, id).0.alerts),
        paused_set(v, id, paused).0.alerts.len() <= 10,
        alert_ids_distinct(paused_set(v, id, paused).0.alerts),
{
    broadcast use vstd::seq_lib::group_filter_ensures;

    law_alert_ids_stay_distinct(v, alert);
    lemma_filter_keeps_ids_distinct(v.alerts, id);
    lemma_first_alert(v.alerts, id);
    let j = first_alert(v.alerts, id);
    if j >= 0 {
        let t = toggled(v, id).0.alerts;
        assert forall|a: int, b: int|
            0 <= a < t.len() && 0 <= b < t.len() && a != b implies #[trigger] t[a].id@
            != #[trigger] t[b].id@ by {
            assert(t[a].id == v.alerts[a].id && t[b].id == v.alerts[b].id);
        }
        let q = paused_set(v, id, paused).0.alerts;
        assert forall|a: int, b: int|
            0 <= a < q.len() && 0 <= b < q.len() && a != b implies #[trigger] q[a].id@
            != #[trigger] q[b].id@ by {
            assert(q[a].id == v.alerts[a].id && q[b].id == v.alerts[b].id);
        }
    }
}

/// Removing an alert that was just added gives back the settings from
/// before the addition.
pub proof fn law_remove_undoes_add(v: ConfigView, alert: Alert)
    requires
        with_alert_added(v, alert) is Ok,
    ensures
        without_alert(with_alert_added(v, alert)->Ok_0, alert.id@) == v,
{
    broadcast use Seq::lemma_filter_push;

    lemma_filter_keeps_all(v.alerts, alert.id@);
    assert(v.alerts.push(alert).filter(id_other_than(alert.id@)) == v.alerts);
}

/// Pausing finished alerts pauses the first alert with each of the ids,
/// leaves every alert paused that was, and changes no id or place.
pub proof fn law_finished_alerts_get_paused(v: ConfigView, ids: Seq<String>)
    ensures
        ({
            let r = paused_all(v, ids).0;
            &&& r.alerts.len() == v.alerts.len()
            &&& forall|a: int| 0 <= a < v.alerts.len() ==> #[trigger] r.alerts[a].id == v.alerts[a].id
            &&& forall|a: int| 0 <= a < v.alerts.len() && v.alerts[a].paused ==> #[trigger] r.alerts[a].paused
            &&& forall|k: int|
                0 <= k < ids.len() && first_alert(v.alerts, #[trigger] ids[k]@) >= 0 ==> r.alerts[first_alert(
                    v.alerts,
                    ids[k]@,
                )].paused
            &&& r.hotkey == v.hotkey && r.interface_aliases == v.interface_aliases
                && r.process_aliases == v.process_aliases
        }),
    decreases ids.len(),
{
    if ids.len() > 0 {
        let pre = ids.drop_last();
        law_finished_alerts_get_paused(v, pre);
        let q = paused_all(v, pre).0;
        let r = paused_all(v, ids).0;
        let id = ids.last()@;
        lemma_first_alert(q.alerts, id);
        let j = first_alert(q.alerts, id);
        assert forall|a: int| 0 <= a < q.alerts.len() implies #[trigger] q.alerts[a].id@ == v.alerts[a].id@ by {
            assert(q.alerts[a].id == v.alerts[a].id);
        }
        lemma_first_alert_same_ids(q.alerts, v.alerts, id);
        assert forall|k: int|
            0 <= k < ids.len() && first_alert(v.alerts, #[trigger] ids[k]@) >= 0 implies r.alerts[first_alert(
                v.alerts,
                ids[k]@,
            )].paused by {
            let f = first_alert(v.alerts, ids[k]@);
            lemma_first_alert(v.alerts, ids[k]@);
            if k < ids.len() - 1 {
                assert(pre[k] == ids[k]);
                assert(q.alerts[first_alert(v.alerts, pre[k]@)].paused);
                assert(q.alerts[f].paused);
                if !(j >= 0 && q.alerts[j].paused != true) {
                    assert(r == q);
                } else if f != j {
                    assert(r.alerts[f] == q.alerts[f]);
                }
            } else {
                assert(f == j);
            }
        }
    }
}

/// The directory, under the user's configuration directory, that holds
/// the settings.
pub fn config_dir_name() -> (r: String)
    ensures
        r@ == "jackynet"@,
{
    String::from_str("jackynet")
}

/// The name of the settings file.
pub fn config_file_name() -> (r: String)
    ensures
        r@ == "config.json"@,
{
    String::from_str("config.json")
}

/// The directories that held the settings before, the most recent first.
pub fn legacy_dir_names() -> (r: Vec<String>)
    ensures
        r@.len() == 2,
        r@[0]@ == "tauri-x25"@,
        r@[1]@ == "taurix25"@,
{
    let mut r: Vec<String> = Vec::new();
    r.push(String::from_str("tauri-x25"));
    r.push(String::from_str("taurix25"));
    r
}

/// What to do with one former settings directory.
#[derive(Clone, Copy, Debug, PartialEq, Eq, Structural)]
pub enum MigrationStep {
    /// The settings file is in place: look no further.
    Done,
    /// Nothing to take from this directory: try the next one.
    Skip,
    /// Move the former settings file into the existing settings directory.
    MoveFile,
    /// Rename the former directory to the settings directory.
    MoveDir,
}

/// The migration of the settings from a former directory: nothing once the
/// settings file exists; nothing from a former directory that does not
/// exist; when the settings directory exists, only the former settings
/// file moves, if there is one; else the whole former directory is renamed.
pub fn migration_step(
    config_exists: bool,
    legacy_dir_exists: bool,
    config_dir_exists: bool,
    legacy_file_exists: bool,
) -> (r: MigrationStep)
    ensures
        config_exists ==> r == MigrationStep::Done,
        !config_exists && !legacy_dir_exists ==> r == MigrationStep::Skip,
        !config_exists && legacy_dir_exists && config_dir_exists ==> r == (if legacy_file_exists {
            MigrationStep::MoveFile
        } else {
            MigrationStep::Skip
        }),
        !config_exists && legacy_dir_exists && !config_dir_exists ==> r == MigrationStep::MoveDir,
{
    if config_exists {
        MigrationStep::Done
    } else if !legacy_dir_exists {
        MigrationStep::Skip
    } else if config_dir_exists {
        if legacy_file_exists {
            MigrationStep::MoveFile
        } else {
            MigrationStep::Skip
        }
    } else {
        MigrationStep::MoveDir
    }
}

} // verus!
