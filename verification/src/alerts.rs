//! When the user's alerts fire, how long they stay on, and what the
//! monitor remembers of each between two evaluations.

use vstd::prelude::*;
use crate::clock::{Instant, at_or_after, is_at_or_after, is_clock_instant, millis_of, unix_millis, nanos_between, clock_now, parse_rfc3339, rfc3339_instant, parse_naive, naive_stamp, local_instant};
use crate::config::{Alert, AlertKind, AppConfig};
use crate::iface_stats::IfaceSession;
use crate::keyed::KeyedVec;
use crate::text::{to_chars, split_on, split_char, views, parse_u64_chars, parse_u64_spec, eq_str};

verus! {

broadcast use vstd::string::group_string_axioms;

/// `a + b`, or `u64::MAX` when that overflows.
pub open spec fn sat_add(a: int, b: int) -> u64 {
    if a + b > u64::MAX {
        u64::MAX
    } else {
        (a + b) as u64
    }
}

/// `a * b`, or `u64::MAX` when that overflows.
pub open spec fn sat_mul(a: int, b: int) -> u64 {
    if a * b > u64::MAX {
        u64::MAX
    } else {
        (a * b) as u64
    }
}

/// The seconds that the pieces of an "HH:MM:SS" text stand for: each
/// piece is a base-60 digit, a piece that is no number counts as 0, and
/// the total stops at `u64::MAX`.
pub open spec fn hms_total(parts: Seq<Seq<char>>) -> u64
    decreases parts.len(),
{
    if parts.len() == 0 {
        0
    } else {
        let head = hms_total(parts.drop_last());
        let digit: int = match parse_u64_spec(parts.last()) {
            Some(v) => v as int,
            None => 0,
        };
        sat_add(sat_mul(head as int, 60) as int, digit)
    }
}

/// The seconds that an "HH:MM:SS" text stands for.
pub open spec fn hms_seconds(hms: Seq<char>) -> u64 {
    hms_total(split_char(hms, ':'))
}

/// The seconds written as "HH:MM:SS" (pieces split at ':'; any number of them).
pub fn parse_hms_seconds(hms: &str) -> (r: u64)
    ensures
        r == hms_seconds(hms@),
{
    let v = to_chars(hms);
    let parts = split_on(&v, ':');
    let mut total: u64 = 0;
    assert(views(parts@).take(0) == Seq::<Seq<char>>::empty());
    for i in 0..parts.len()
        invariant
            total == hms_total(views(parts@).take(i as int)),
    {
        assert(views(parts@).take(i + 1).drop_last() == views(parts@).take(i as int));
        assert(views(parts@).take(i + 1).last() == parts@[i as int]@);
        let digit: u64 = match parse_u64_chars(&parts[i]) {
            Some(d) => d,
            None => 0,
        };
        let scaled: u64 = match total.checked_mul(60) {
            Some(x) => x,
            None => u64::MAX,
        };
        total = scaled.saturating_add(digit);
    }
    assert(views(parts@).take(parts@.len() as int) == views(parts@));
    total
}

/// The seconds an alert stays on for a notify-duration word; an unknown
/// word means one minute.
pub open spec fn duration_secs(s: Seq<char>) -> u64 {
    if s == "10s"@ {
        10
    } else if s == "1min"@ {
        60
    } else if s == "5min"@ {
        300
    } else {
        60
    }
}

/// The seconds an alert stays on for a notify-duration word.
pub fn parse_duration_seconds(s: &str) -> (r: u64)
    ensures
        r == duration_secs(s@),
{
    if eq_str(s, "10s") {
        10
    } else if eq_str(s, "1min") {
        60
    } else if eq_str(s, "5min") {
        300
    } else {
        60
    }
}


/// Whole seconds in a span of nanoseconds, rounded toward zero, as
/// `TimeDelta::num_seconds` counts them.
pub open spec fn whole_seconds(nanos: int) -> int {
    if nanos >= 0 {
        nanos / 1_000_000_000
    } else {
        -((-nanos) / 1_000_000_000)
    }
}

/// An alert triggered at `triggered` has run its course at `now`: never
/// for "continue", else once the whole seconds since `triggered` reach the
/// duration that its word names.
pub open spec fn expired(notify: Seq<char>, triggered: Instant, now: Instant) -> bool {
    if notify == "continue"@ {
        false
    } else {
        whole_seconds(nanos_between(triggered, now)) >= duration_secs(notify)
    }
}

/// Whether an alert triggered at `triggered` has run its course at `now`.
pub fn is_expired(notify: &str, triggered: Instant, now: Instant) -> (r: bool)
    ensures
        r == expired(notify@, triggered, now),
{
    if eq_str(notify, "continue") {
        return false;
    }
    let secs = parse_duration_seconds(notify);
    let diff: i128 = (now.secs as i128 - triggered.secs as i128) * 1_000_000_000 + (now.nanos as i128
        - triggered.nanos as i128);
    let limit: i128 = secs as i128 * 1_000_000_000;
    proof {
        let d = nanos_between(triggered, now);
        assert(diff == d);
        assert(secs >= 10);
        if d >= 0 {
            assert((d / 1_000_000_000 >= secs) == (d >= secs * 1_000_000_000)) by (nonlinear_arith)
                requires
                    d >= 0,
                    secs >= 1,
            ;
        } else {
            assert(-((-d) / 1_000_000_000) <= 0) by (nonlinear_arith)
                requires
                    d < 0,
            ;
        }
    }
    diff >= limit
}

/// The bytes an interface moved in a direction: "download", "upload", or
/// both together (stopping at `u64::MAX`) for any other word.
pub open spec fn consumed(iface: IfaceSession, direction: Seq<char>) -> u64 {
    if direction == "download"@ {
        iface.total_rx_bytes
    } else if direction == "upload"@ {
        iface.total_tx_bytes
    } else {
        sat_add(iface.total_rx_bytes as int, iface.total_tx_bytes as int)
    }
}

/// The format of a date and time without seconds or offset.
pub open spec fn minute_format() -> Seq<char> {
    "%Y-%m-%dT%H:%M"@
}

/// Whether an alert's condition holds at `now`, with `iface` the interface
/// that alerts watch and `date_target` the instant that a date alert names.
pub open spec fn condition_met(
    kind: AlertKind,
    iface: Option<IfaceSession>,
    now: Instant,
    date_target: Option<Instant>,
) -> bool {
    match kind {
        AlertKind::Chronometer { hms } => match iface {
            None => false,
            Some(i) => i.started_unix_ms != 0 && (millis_of(now) as i64).wrapping_sub(
                i.started_unix_ms,
            ) >= (hms_seconds(hms@) as i64).wrapping_mul(1000),
        },
        AlertKind::Date { iso } => match date_target {
            Some(t) => at_or_after(now, t),
            None => false,
        },
        AlertKind::Consumption { bytes, direction } => match iface {
            None => false,
            Some(i) => consumed(i, direction@) >= bytes,
        },
    }
}

/// What holds of the instant that a date alert's text names: an RFC 3339
/// text names its own instant; a text that is neither RFC 3339 nor
/// "YYYY-MM-DDTHH:MM" names none; a local wall-clock time names, if any,
/// an instant that the machine's time zone decides, within a day of that
/// time read as UTC.
pub open spec fn date_target_of(iso: Seq<char>, target: Option<Instant>) -> bool {
    match rfc3339_instant(iso) {
        Some(t) => target == Some(t),
        None => match naive_stamp(iso, minute_format()) {
            None => target is None,
            Some(n) => target matches Some(t) ==> n.secs - 86400 < t.secs < n.secs + 86400,
        },
    }
}

/// The instant that a date alert's text names: an RFC 3339 date and time,
/// or else "YYYY-MM-DDTHH:MM" read in the machine's time zone.
pub fn resolve_date_target(iso: &str) -> (r: Option<Instant>)
    ensures
        date_target_of(iso@, r),
{
    match parse_rfc3339(iso) {
        Some(t) => Some(t),
        None => match parse_naive(iso, "%Y-%m-%dT%H:%M") {
            Some(n) => local_instant(n),
            None => None,
        },
    }
}

/// The session that an optional reference points to.
pub open spec fn session_of(iface: Option<&IfaceSession>) -> Option<IfaceSession> {
    match iface {
        Some(i) => Some(*i),
        None => None,
    }
}

/// Whether an alert's condition holds at `now` with a date alert's target
/// already resolved.
pub fn condition_met_at(
    kind: &AlertKind,
    iface: Option<&IfaceSession>,
    now: Instant,
    date_target: Option<Instant>,
) -> (r: bool)
    requires
        is_clock_instant(now),
    ensures
        r == condition_met(
            *kind,
            session_of(iface),
            now,
            date_target,
        ),
{
    match kind {
        AlertKind::Chronometer { hms } => match iface {
            None => false,
            Some(i) => {
                let target_secs = parse_hms_seconds(hms.as_str());
                if i.started_unix_ms == 0 {
                    return false;
                }
                let elapsed = unix_millis(now).wrapping_sub(i.started_unix_ms);
                elapsed >= (target_secs as i64).wrapping_mul(1000)
            },
        },
        AlertKind::Date { iso: _ } => match date_target {
            Some(t) => is_at_or_after(now, t),
            None => false,
        },
        AlertKind::Consumption { bytes, direction } => match iface {
            None => false,
            Some(i) => {
                let current = if eq_str(direction.as_str(), "download") {
                    i.total_rx_bytes
                } else if eq_str(direction.as_str(), "upload") {
                    i.total_tx_bytes
                } else {
                    i.total_rx_bytes.saturating_add(i.total_tx_bytes)
                };
                current >= *bytes
            },
        },
    }
}

/// Whether an alert's condition holds now. The clock is read, and a date
/// alert's text resolved, inside; the result is `condition_met` for a
/// clock instant and a target that `date_target_of` allows.
pub fn check_condition(kind: &AlertKind, iface: Option<&IfaceSession>) -> (r: bool)
    ensures
        exists|now: Instant, target: Option<Instant>|
            {
                &&& is_clock_instant(now)
                &&& (kind matches AlertKind::Date { iso } ==> date_target_of(iso@, target))
                &&& r == #[trigger] condition_met(*kind, session_of(iface), now, target)
            },
{
    let target = match kind {
        AlertKind::Date { iso } => resolve_date_target(iso.as_str()),
        _ => None,
    };
    let now = clock_now();
    condition_met_at(kind, iface, now, target)
}


/// The position of the first interface that is up, or -1.
pub open spec fn first_up(s: Seq<IfaceSession>) -> int
    decreases s.len(),
{
    if s.len() == 0 {
        -1
    } else {
        let f = first_up(s.drop_last());
        if f >= 0 {
            f
        } else if s.last().is_up {
            s.len() - 1
        } else {
            -1
        }
    }
}

/// The position of the first interface that is up and named `name`, or -1.
pub open spec fn first_up_named(s: Seq<IfaceSession>, name: Seq<char>) -> int
    decreases s.len(),
{
    if s.len() == 0 {
        -1
    } else {
        let f = first_up_named(s.drop_last(), name);
        if f >= 0 {
            f
        } else if s.last().is_up && s.last().name@ == name {
            s.len() - 1
        } else {
            -1
        }
    }
}

/// The interface that alerts watch: none when no interface is up; else
/// the first one up with the chosen name, if the user chose one and it is
/// up; else the first one up.
pub open spec fn picked_iface(s: Seq<IfaceSession>, want: Option<String>) -> Option<int> {
    if first_up(s) < 0 {
        None
    } else {
        match want {
            Some(n) => if first_up_named(s, n@) >= 0 {
                Some(first_up_named(s, n@))
            } else {
                Some(first_up(s))
            },
            None => Some(first_up(s)),
        }
    }
}

/// The position of the interface that alerts watch.
pub fn pick_iface(config: &AppConfig, interfaces: &[IfaceSession]) -> (r: Option<usize>)
    ensures
        match r {
            Some(k) => picked_iface(interfaces@, config.alert_iface) == Some(k as int),
            None => picked_iface(interfaces@, config.alert_iface) is None,
        },
        r matches Some(k) ==> k < interfaces@.len(),
{
    let n = interfaces.len();
    let mut i: usize = 0;
    assert(interfaces@.take(0) == Seq::<IfaceSession>::empty());
    while i < n && !interfaces[i].is_up
        invariant
            i <= n == interfaces@.len(),
            first_up(interfaces@.take(i as int)) == -1,
        decreases n - i,
    {
        assert(interfaces@.take(i + 1).drop_last() == interfaces@.take(i as int));
        i += 1;
    }
    let first = i;
    if first == n {
        assert(interfaces@.take(n as int) == interfaces@);
        return None;
    }
    assert(interfaces@.take(first + 1).drop_last() == interfaces@.take(first as int));
    assert(first_up(interfaces@.take(first + 1)) == first);
    proof {
        lemma_first_up_extends(interfaces@, first as int + 1);
    }
    match &config.alert_iface {
        Some(name) => {
            let mut j: usize = 0;
            while j < n
                invariant
                    j <= n == interfaces@.len(),
                    first_up_named(interfaces@.take(j as int), name@) == -1,
                    first_up(interfaces@) == first as int,
                    config.alert_iface == Some(*name),
                decreases n - j,
            {
                assert(interfaces@.take(j + 1).drop_last() == interfaces@.take(j as int));
                if interfaces[j].is_up && interfaces[j].name == *name {
                    assert(first_up_named(interfaces@.take(j + 1), name@) == j);
                    proof {
                        lemma_first_up_named_extends(interfaces@, name@, j as int + 1);
                    }
                    return Some(j);
                }
                j += 1;
            }
            assert(interfaces@.take(n as int) == interfaces@);
            Some(first)
        },
        None => Some(first),
    }
}

proof fn lemma_first_up_extends(s: Seq<IfaceSession>, k: int)
    requires
        0 <= k <= s.len(),
        first_up(s.take(k)) >= 0,
    ensures
        first_up(s) == first_up(s.take(k)),
    decreases s.len() - k,
{
    if k < s.len() {
        assert(s.drop_last().take(k) == s.take(k));
        lemma_first_up_extends(s.drop_last(), k);
    } else {
        assert(s.take(k) == s);
    }
}

proof fn lemma_first_up_named_extends(s: Seq<IfaceSession>, name: Seq<char>, k: int)
    requires
        0 <= k <= s.len(),
        first_up_named(s.take(k), name) >= 0,
    ensures
        first_up_named(s, name) == first_up_named(s.take(k), name),
    decreases s.len() - k,
{
    if k < s.len() {
        assert(s.drop_last().take(k) == s.take(k));
        lemma_first_up_named_extends(s.drop_last(), name, k);
    } else {
        assert(s.take(k) == s);
    }
}


/// What the monitor remembers of one alert between evaluations.
#[derive(Clone, Copy)]
pub struct AlertRuntime {
    /// When the alert last fired, if it has fired since it was armed.
    pub triggered_at: Option<Instant>,
    /// The user dismissed it.
    pub dismissed: bool,
}

/// An alert to show now.
pub struct ActiveAlert {
    pub id: String,
    pub name: String,
    pub color: String,
}

/// The memory of an alert that nothing happened to yet.
pub open spec fn fresh_runtime() -> AlertRuntime {
    AlertRuntime { triggered_at: None, dismissed: false }
}

/// The memory kept under `id`, or a fresh one.
pub open spec fn runtime_or_fresh(rt: Map<Seq<char>, AlertRuntime>, id: Seq<char>) -> AlertRuntime {
    if rt.contains_key(id) {
        rt[id]
    } else {
        fresh_runtime()
    }
}

/// `s` with `o` appended when there is one.
pub open spec fn push_some<T>(s: Seq<T>, o: Option<T>) -> Seq<T> {
    match o {
        Some(x) => s.push(x),
        None => s,
    }
}

/// One alert in an evaluation at `now`, `cond` telling whether its
/// condition holds: the new memory, the alert to show if it is on, and its
/// id if it has just finished. A paused alert is forgotten. Otherwise it
/// fires on a rising edge only (when it has not fired since it was armed);
/// once fired it is shown until it is dismissed or has run its course.
pub open spec fn alert_step(
    rt: Map<Seq<char>, AlertRuntime>,
    alert: Alert,
    cond: bool,
    now: Instant,
) -> (Map<Seq<char>, AlertRuntime>, Option<ActiveAlert>, Option<String>) {
    let id = alert.id@;
    if alert.paused {
        (rt.remove(id), None, None)
    } else {
        let e0 = runtime_or_fresh(rt, id);
        let e = if e0.triggered_at is None && cond {
            AlertRuntime { triggered_at: Some(now), dismissed: false }
        } else {
            e0
        };
        let rt1 = rt.insert(id, e);
        match e.triggered_at {
            None => (rt1, None, None),
            Some(t) => if e.dismissed || expired(alert.notify_duration@, t, now) {
                (rt1, None, Some(alert.id))
            } else {
                (rt1, Some(ActiveAlert { id: alert.id, name: alert.name, color: alert.color }), None)
            },
        }
    }
}

/// The alerts taken in order, `conds[i]` telling whether the condition
/// of `alerts[i]` holds.
pub open spec fn eval_pass(
    rt: Map<Seq<char>, AlertRuntime>,
    alerts: Seq<Alert>,
    conds: Seq<bool>,
    now: Instant,
) -> (Map<Seq<char>, AlertRuntime>, Seq<ActiveAlert>, Seq<String>)
    decreases alerts.len(),
{
    if alerts.len() == 0 {
        (rt, Seq::<ActiveAlert>::empty(), Seq::<String>::empty())
    } else {
        let prev = eval_pass(rt, alerts.drop_last(), conds.take(alerts.len() - 1), now);
        let step = alert_step(prev.0, alerts.last(), conds[alerts.len() - 1], now);
        (step.0, push_some(prev.1, step.1), push_some(prev.2, step.2))
    }
}

/// `rt` without the entries under the given ids.
pub open spec fn without_ids(rt: Map<Seq<char>, AlertRuntime>, ids: Seq<String>) -> Map<
    Seq<char>,
    AlertRuntime,
>
    decreases ids.len(),
{
    if ids.len() == 0 {
        rt
    } else {
        without_ids(rt, ids.drop_last()).remove(ids.last()@)
    }
}

/// A whole evaluation: the new memory (the alerts that just finished are
/// forgotten, so that they start afresh when armed again), the alerts to
/// show, and the ids of the alerts that just finished.
pub open spec fn evaluation(
    rt: Map<Seq<char>, AlertRuntime>,
    alerts: Seq<Alert>,
    conds: Seq<bool>,
    now: Instant,
) -> (Map<Seq<char>, AlertRuntime>, Seq<ActiveAlert>, Seq<String>) {
    let pass = eval_pass(rt, alerts, conds, now);
    (without_ids(pass.0, pass.2), pass.1, pass.2)
}

/// The memory of the alerts, by alert id. It is not saved.
pub struct AlertsState {
    runtime: KeyedVec<AlertRuntime>,
}

impl View for AlertsState {
    type V = Map<Seq<char>, AlertRuntime>;

    closed spec fn view(&self) -> Map<Seq<char>, AlertRuntime> {
        self.runtime@
    }
}

impl AlertsState {
    /// No alert remembered.
    pub fn new() -> (r: Self)
        ensures
            r@ == Map::<Seq<char>, AlertRuntime>::empty(),
    {
        AlertsState { runtime: KeyedVec::new() }
    }

    /// Marks an alert as dismissed: if it has fired, the next evaluation
    /// reports it as finished and forgets it (the caller then pauses it, see
    /// `ConfigStore::pause_finished`).
    pub fn dismiss(&mut self, id: &str)
        ensures
            final(self)@ == old(self)@.insert(
                id@,
                AlertRuntime {
                    triggered_at: runtime_or_fresh(old(self)@, id@).triggered_at,
                    dismissed: true,
                },
            ),
    {
        let key = String::from_str(id);
        let e0 = match self.runtime.get(&key) {
            Some(e) => *e,
            None => AlertRuntime { triggered_at: None, dismissed: false },
        };
        self.runtime.insert(key, AlertRuntime { triggered_at: e0.triggered_at, dismissed: true });
    }

    /// Forgets an alert, so that it is evaluated afresh.
    pub fn reset(&mut self, id: &str)
        ensures
            final(self)@ == old(self)@.remove(id@),
    {
        let key = String::from_str(id);
        self.runtime.remove(&key);
    }

    /// Evaluates the alerts at `now`, `conds[i]` telling whether the
    /// condition of `alerts[i]` holds; returns the alerts to show and the
    /// ids of those that just finished.
    pub fn evaluate_with(&mut self, alerts: &Vec<Alert>, conds: &Vec<bool>, now: Instant) -> (r: (
        Vec<ActiveAlert>,
        Vec<String>,
    ))
        requires
            conds@.len() == alerts@.len(),
        ensures
            (final(self)@, r.0@, r.1@) == evaluation(old(self)@, alerts@, conds@, now),
    {
        let mut active: Vec<ActiveAlert> = Vec::new();
        let mut completed: Vec<String> = Vec::new();
        let ghost rt0 = self@;
        assert(alerts@.take(0) == Seq::<Alert>::empty());
        for i in 0..alerts.len()
            invariant
                conds@.len() == alerts@.len(),
                (self@, active@, completed@) == eval_pass(
                    rt0,
                    alerts@.take(i as int),
                    conds@.take(i as int),
                    now,
                ),
        {
            let ghost prev = (self@, active@, completed@);
            assert(alerts@.take(i + 1).drop_last() == alerts@.take(i as int));
            assert(conds@.take(i + 1).take(i as int) == conds@.take(i as int));
            assert(alerts@.take(i + 1).last() == alerts@[i as int]);
            let alert = &alerts[i];
            if alert.paused {
                self.runtime.remove(&alert.id);
            } else {
                let e0 = match self.runtime.get(&alert.id) {
                    Some(e) => *e,
                    None => AlertRuntime { triggered_at: None, dismissed: false },
                };
                let e = if e0.triggered_at.is_none() && conds[i] {
                    AlertRuntime { triggered_at: Some(now), dismissed: false }
                } else {
                    e0
                };
                self.runtime.insert(alert.id.clone(), e);
                match e.triggered_at {
                    Some(t) => {
                        if e.dismissed || is_expired(alert.notify_duration.as_str(), t, now) {
                            completed.push(alert.id.clone());
                        } else {
                            active.push(
                                ActiveAlert {
                                    id: alert.id.clone(),
                                    name: alert.name.clone(),
                                    color: alert.color.clone(),
                                },
                            );
                        }
                    },
                    None => {},
                }
            }
        }
        assert(alerts@.take(alerts@.len() as int) == alerts@);
        assert(conds@.take(conds@.len() as int) == conds@);
        let ghost pass_rt = self@;
        assert(completed@.take(0) == Seq::<String>::empty());
        for j in 0..completed.len()
            invariant
                self@ == without_ids(pass_rt, completed@.take(j as int)),
        {
            assert(completed@.take(j + 1).drop_last() == completed@.take(j as int));
            self.runtime.remove(&completed[j]);
        }
        assert(completed@.take(completed@.len() as int) == completed@);
        (active, completed)
    }

    /// Evaluates the alerts of `config` against the interfaces now: reads
    /// the clock, picks the interface that alerts watch and tests the
    /// condition of each alert that is not paused. The outcome is
    /// `evaluation` at a clock instant, with each tested condition one that
    /// `condition_met` gives for some clock instant.
    pub fn evaluate(&mut self, config: &AppConfig, interfaces: &[IfaceSession]) -> (r: (
        Vec<ActiveAlert>,
        Vec<String>,
    ))
        ensures
            exists|now: Instant, conds: Seq<bool>|
                {
                    &&& is_clock_instant(now)
                    &&& conds.len() == config.alerts@.len()
                    &&& forall|i: int|
                        0 <= i < conds.len() && !config.alerts@[i].paused ==> condition_possible(
                            config.alerts@[i].kind,
                            watched_session(config, interfaces@),
                            #[trigger] conds[i],
                        )
                    &&& (final(self)@, r.0@, r.1@) == #[trigger] evaluation(
                        old(self)@,
                        config.alerts@,
                        conds,
                        now,
                    )
                },
    {
        let now = clock_now();
        let picked = pick_iface(config, interfaces);
        let iface: Option<&IfaceSession> = match picked {
            Some(k) => Some(&interfaces[k]),
            None => None,
        };
        assert(session_of(iface) == watched_session(config, interfaces@));
        let mut conds: Vec<bool> = Vec::new();
        for i in 0..config.alerts.len()
            invariant
                conds@.len() == i,
                session_of(iface) == watched_session(config, interfaces@),
                forall|k: int|
                    0 <= k < i && !config.alerts@[k].paused ==> condition_possible(
                        config.alerts@[k].kind,
                        watched_session(config, interfaces@),
                        #[trigger] conds@[k],
                    ),
        {
            if config.alerts[i].paused {
                conds.push(false);
            } else {
                let c = check_condition(&config.alerts[i].kind, iface);
                conds.push(c);
            }
        }
        self.evaluate_with(&config.alerts, &conds, now)
    }
}

/// The session of the interface that alerts watch, if any.
pub open spec fn watched_session(config: &AppConfig, interfaces: Seq<IfaceSession>) -> Option<
    IfaceSession,
> {
    match picked_iface(interfaces, config.alert_iface) {
        Some(k) => Some(interfaces[k]),
        None => None,
    }
}

/// `c` is what testing the condition of `kind` can give: `condition_met`
/// at some clock instant, with a date target that the text allows.
pub open spec fn condition_possible(kind: AlertKind, iface: Option<IfaceSession>, c: bool) -> bool {
    exists|now: Instant, target: Option<Instant>|
        {
            &&& is_clock_instant(now)
            &&& (kind matches AlertKind::Date { iso } ==> date_target_of(iso@, target))
            &&& c == #[trigger] condition_met(kind, iface, now, target)
        }
}


/// No two alerts share an id.
pub open spec fn ids_distinct(alerts: Seq<Alert>) -> bool {
    forall|i: int, j: int|
        0 <= i < alerts.len() && 0 <= j < alerts.len() && i != j ==> #[trigger] alerts[i].id@
            != #[trigger] alerts[j].id@
}

/// The outcome of one alert's step taken on the memory before the evaluation.
pub open spec fn step_of(
    rt: Map<Seq<char>, AlertRuntime>,
    alerts: Seq<Alert>,
    conds: Seq<bool>,
    now: Instant,
    i: int,
) -> (Map<Seq<char>, AlertRuntime>, Option<ActiveAlert>, Option<String>) {
    alert_step(rt, alerts[i], conds[i], now)
}

proof fn lemma_step_local(
    rt1: Map<Seq<char>, AlertRuntime>,
    rt2: Map<Seq<char>, AlertRuntime>,
    alert: Alert,
    cond: bool,
    now: Instant,
)
    requires
        rt1.contains_key(alert.id@) == rt2.contains_key(alert.id@),
        rt1.contains_key(alert.id@) ==> rt1[alert.id@] == rt2[alert.id@],
    ensures
        ({
            let s1 = alert_step(rt1, alert, cond, now);
            let s2 = alert_step(rt2, alert, cond, now);
            &&& s1.1 == s2.1
            &&& s1.2 == s2.2
            &&& s1.0.contains_key(alert.id@) == s2.0.contains_key(alert.id@)
            &&& s1.0.contains_key(alert.id@) ==> s1.0[alert.id@] == s2.0[alert.id@]
            &&& forall|k: Seq<char>|
                k != alert.id@ ==> (#[trigger] s1.0.contains_key(k) == rt1.contains_key(k) && (
                rt1.contains_key(k) ==> s1.0[k] == rt1[k]))
        }),
{
}

/// With distinct ids, each alert's part of an evaluation pass is its own
/// step on the memory as it was before the pass.
proof fn lemma_eval_pass(
    rt: Map<Seq<char>, AlertRuntime>,
    alerts: Seq<Alert>,
    conds: Seq<bool>,
    now: Instant,
)
    requires
        ids_distinct(alerts),
        conds.len() == alerts.len(),
    ensures
        ({
            let p = eval_pass(rt, alerts, conds, now);
            &&& forall|k: Seq<char>|
                (forall|i: int| 0 <= i < alerts.len() ==> alerts[i].id@ != k) ==> (
                #[trigger] p.0.contains_key(k) == rt.contains_key(k) && (rt.contains_key(k)
                    ==> p.0[k] == rt[k]))
            &&& forall|i: int|
                0 <= i < alerts.len() ==> {
                    let st = #[trigger] step_of(rt, alerts, conds, now, i);
                    &&& p.0.contains_key(alerts[i].id@) == st.0.contains_key(alerts[i].id@)
                    &&& st.0.contains_key(alerts[i].id@) ==> p.0[alerts[i].id@]
                        == st.0[alerts[i].id@]
                }
            &&& forall|x: ActiveAlert|
                p.1.contains(x) <==> exists|i: int|
                    0 <= i < alerts.len() && #[trigger] step_of(rt, alerts, conds, now, i).1 == Some(
                        x,
                    )
            &&& forall|d: String|
                p.2.contains(d) <==> exists|i: int|
                    0 <= i < alerts.len() && #[trigger] step_of(rt, alerts, conds, now, i).2 == Some(
                        d,
                    )
        }),
    decreases alerts.len(),
{
    let n = alerts.len();
    if n > 0 {
        let pre = alerts.drop_last();
        let pc = conds.take(n - 1);
        assert(ids_distinct(pre));
        lemma_eval_pass(rt, pre, pc, now);
        let prev = eval_pass(rt, pre, pc, now);
        let last = alerts.last();
        let c = conds[n - 1];
        assert forall|i: int| 0 <= i < pre.len() implies pre[i].id@ != last.id@ by {
            assert(alerts[i] == pre[i]);
        }
        assert(prev.0.contains_key(last.id@) == rt.contains_key(last.id@));
        lemma_step_local(prev.0, rt, last, c, now);
        let st = alert_step(prev.0, last, c, now);
        let p = eval_pass(rt, alerts, conds, now);
        assert(p == (st.0, push_some(prev.1, st.1), push_some(prev.2, st.2)));
        assert(step_of(rt, alerts, conds, now, n - 1) == alert_step(rt, last, c, now));
        assert forall|i: int| 0 <= i < n - 1 implies #[trigger] step_of(rt, alerts, conds, now, i)
            == step_of(rt, pre, pc, now, i) by {
            assert(alerts[i] == pre[i]);
            assert(conds[i] == pc[i]);
        }
        assert forall|k: Seq<char>|
            (forall|i: int| 0 <= i < alerts.len() ==> alerts[i].id@ != k) implies (
            #[trigger] p.0.contains_key(k) == rt.contains_key(k) && (rt.contains_key(k) ==> p.0[k]
                == rt[k])) by {
            assert(alerts[n - 1].id@ != k);
            assert forall|i: int| 0 <= i < pre.len() implies pre[i].id@ != k by {
                assert(alerts[i] == pre[i]);
            }
            assert(prev.0.contains_key(k) == rt.contains_key(k));
            assert(rt.contains_key(k) ==> prev.0[k] == rt[k]);
            assert(st.0.contains_key(k) == prev.0.contains_key(k));
            assert(prev.0.contains_key(k) ==> st.0[k] == prev.0[k]);
        }
        assert forall|i: int| 0 <= i < alerts.len() implies {
            let sti = #[trigger] step_of(rt, alerts, conds, now, i);
            &&& p.0.contains_key(alerts[i].id@) == sti.0.contains_key(alerts[i].id@)
            &&& sti.0.contains_key(alerts[i].id@) ==> p.0[alerts[i].id@] == sti.0[alerts[i].id@]
        } by {
            if i < n - 1 {
                assert(alerts[i] == pre[i]);
                assert(alerts[i].id@ != last.id@);
                assert(step_of(rt, pre, pc, now, i) == step_of(rt, alerts, conds, now, i));
            }
        }
        assert forall|x: ActiveAlert| p.1.contains(x) <==> exists|i: int|
            0 <= i < alerts.len() && #[trigger] step_of(rt, alerts, conds, now, i).1 == Some(x) by {
            if p.1.contains(x) {
                if prev.1.contains(x) {
                    let i = choose|i: int|
                        0 <= i < pre.len() && #[trigger] step_of(rt, pre, pc, now, i).1 == Some(x);
                    assert(step_of(rt, alerts, conds, now, i).1 == Some(x));
                } else {
                    assert(st.1 == Some(x));
                    assert(step_of(rt, alerts, conds, now, n - 1).1 == Some(x));
                }
            }
            if exists|i: int| 0 <= i < alerts.len() && #[trigger] step_of(rt, alerts, conds, now, i).1
                == Some(x) {
                let i = choose|i: int|
                    0 <= i < alerts.len() && #[trigger] step_of(rt, alerts, conds, now, i).1 == Some(
                        x,
                    );
                if i < n - 1 {
                    assert(step_of(rt, pre, pc, now, i).1 == Some(x));
                    assert(prev.1.contains(x));
                    assert(push_some(prev.1, st.1).contains(x)) by {
                        let k = choose|k: int| 0 <= k < prev.1.len() && prev.1[k] == x;
                        if st.1 is Some {
                            assert(prev.1.push(st.1->0)[k] == x);
                        }
                    }
                } else {
                    assert(push_some(prev.1, st.1) == prev.1.push(x));
                    assert(prev.1.push(x)[prev.1.len() as int] == x);
                }
            }
        }
        assert forall|d: String| p.2.contains(d) <==> exists|i: int|
            0 <= i < alerts.len() && #[trigger] step_of(rt, alerts, conds, now, i).2 == Some(d) by {
            if p.2.contains(d) {
                if prev.2.contains(d) {
                    let i = choose|i: int|
                        0 <= i < pre.len() && #[trigger] step_of(rt, pre, pc, now, i).2 == Some(d);
                    assert(step_of(rt, alerts, conds, now, i).2 == Some(d));
                } else {
                    assert(st.2 == Some(d));
                    assert(step_of(rt, alerts, conds, now, n - 1).2 == Some(d));
                }
            }
            if exists|i: int| 0 <= i < alerts.len() && #[trigger] step_of(rt, alerts, conds, now, i).2
                == Some(d) {
                let i = choose|i: int|
                    0 <= i < alerts.len() && #[trigger] step_of(rt, alerts, conds, now, i).2 == Some(
                        d,
                    );
                if i < n - 1 {
                    assert(step_of(rt, pre, pc, now, i).2 == Some(d));
                    assert(prev.2.contains(d));
                    assert(push_some(prev.2, st.2).contains(d)) by {
                        let k = choose|k: int| 0 <= k < prev.2.len() && prev.2[k] == d;
                        if st.2 is Some {
                            assert(prev.2.push(st.2->0)[k] == d);
                        }
                    }
                } else {
                    assert(push_some(prev.2, st.2) == prev.2.push(d));
                    assert(prev.2.push(d)[prev.2.len() as int] == d);
                }
            }
        }
    }
}


proof fn lemma_without_ids(rt: Map<Seq<char>, AlertRuntime>, ids: Seq<String>)
    ensures
        forall|k: Seq<char>|
            #[trigger] without_ids(rt, ids).contains_key(k) == (rt.contains_key(k) && forall|j: int|
                0 <= j < ids.len() ==> ids[j]@ != k),
        forall|k: Seq<char>| #[trigger]
            without_ids(rt, ids).contains_key(k) ==> without_ids(rt, ids)[k] == rt[k],
    decreases ids.len(),
{
    if ids.len() > 0 {
        lemma_without_ids(rt, ids.drop_last());
        let inner = without_ids(rt, ids.drop_last());
        assert(without_ids(rt, ids) == inner.remove(ids.last()@));
        assert forall|k: Seq<char>| #[trigger]
            without_ids(rt, ids).contains_key(k) == (rt.contains_key(k) && forall|j: int|
                0 <= j < ids.len() ==> ids[j]@ != k) by {
            if rt.contains_key(k) && forall|j: int| 0 <= j < ids.len() ==> ids[j]@ != k {
                assert forall|j: int| 0 <= j < ids.drop_last().len() implies ids.drop_last()[j]@
                    != k by {
                    assert(ids.drop_last()[j] == ids[j]);
                }
                assert(ids[ids.len() - 1]@ != k);
            }
            if without_ids(rt, ids).contains_key(k) {
                assert(inner.contains_key(k));
                assert(k != ids.last()@);
                assert forall|j: int| 0 <= j < ids.len() implies ids[j]@ != k by {
                    if j < ids.len() - 1 {
                        assert(ids.drop_last()[j] == ids[j]);
                    }
                }
            }
        }
    }
}

/// A paused alert is neither shown nor reported as finished, and the
/// evaluation forgets it, so that it fires afresh once resumed (alert ids
/// distinct).
pub proof fn law_paused_alert_is_silent_and_forgotten(
    rt: Map<Seq<char>, AlertRuntime>,
    alerts: Seq<Alert>,
    conds: Seq<bool>,
    now: Instant,
    i: int,
)
    requires
        ids_distinct(alerts),
        conds.len() == alerts.len(),
        0 <= i < alerts.len(),
        alerts[i].paused,
    ensures
        ({
            let e = evaluation(rt, alerts, conds, now);
            &&& !e.0.contains_key(alerts[i].id@)
            &&& forall|x: ActiveAlert| e.1.contains(x) ==> x.id@ != alerts[i].id@
            &&& forall|k: int| 0 <= k < e.2.len() ==> e.2[k]@ != alerts[i].id@
        }),
{
    lemma_eval_pass(rt, alerts, conds, now);
    let p = eval_pass(rt, alerts, conds, now);
    lemma_without_ids(p.0, p.2);
    assert(step_of(rt, alerts, conds, now, i).0 == rt.remove(alerts[i].id@));
    assert forall|x: ActiveAlert| p.1.contains(x) implies x.id@ != alerts[i].id@ by {
        let j = choose|j: int|
            0 <= j < alerts.len() && #[trigger] step_of(rt, alerts, conds, now, j).1 == Some(x);
        assert(j != i);
    }
    assert forall|k: int| 0 <= k < p.2.len() implies p.2[k]@ != alerts[i].id@ by {
        assert(p.2.contains(p.2[k]));
        let j = choose|j: int|
            0 <= j < alerts.len() && #[trigger] step_of(rt, alerts, conds, now, j).2 == Some(p.2[k]);
        assert(j != i);
    }
}

/// Every alert that an evaluation reports as finished is forgotten by it.
pub proof fn law_finished_alerts_are_forgotten(
    rt: Map<Seq<char>, AlertRuntime>,
    alerts: Seq<Alert>,
    conds: Seq<bool>,
    now: Instant,
)
    ensures
        ({
            let e = evaluation(rt, alerts, conds, now);
            forall|k: int| 0 <= k < e.2.len() ==> !e.0.contains_key(#[trigger] e.2[k]@)
        }),
{
    let p = eval_pass(rt, alerts, conds, now);
    lemma_without_ids(p.0, p.2);
}

/// An alert fires when its condition holds and it has not fired since it
/// was armed: it is shown at once, fired at this evaluation (alert ids
/// distinct).
pub proof fn law_alert_fires_on_rising_edge(
    rt: Map<Seq<char>, AlertRuntime>,
    alerts: Seq<Alert>,
    conds: Seq<bool>,
    now: Instant,
    i: int,
)
    requires
        ids_distinct(alerts),
        conds.len() == alerts.len(),
        0 <= i < alerts.len(),
        !alerts[i].paused,
        runtime_or_fresh(rt, alerts[i].id@).triggered_at is None,
        conds[i],
    ensures
        ({
            let e = evaluation(rt, alerts, conds, now);
            &&& e.1.contains(
                ActiveAlert { id: alerts[i].id, name: alerts[i].name, color: alerts[i].color },
            )
            &&& e.0.contains_key(alerts[i].id@)
            &&& e.0[alerts[i].id@] == AlertRuntime { triggered_at: Some(now), dismissed: false }
        }),
{
    lemma_eval_pass(rt, alerts, conds, now);
    let p = eval_pass(rt, alerts, conds, now);
    lemma_without_ids(p.0, p.2);
    let a = alerts[i];
    assert(!expired(a.notify_duration@, now, now));
    let st = step_of(rt, alerts, conds, now, i);
    assert(st.1 == Some(ActiveAlert { id: a.id, name: a.name, color: a.color }));
    assert forall|k: int| 0 <= k < p.2.len() implies p.2[k]@ != a.id@ by {
        assert(p.2.contains(p.2[k]));
        let j = choose|j: int|
            0 <= j < alerts.len() && #[trigger] step_of(rt, alerts, conds, now, j).2 == Some(p.2[k]);
        assert(j != i);
    }
}

/// Once an alert has fired, its memory stays as it is until it finishes:
/// it does not fire again while its condition keeps holding (alert ids
/// distinct).
pub proof fn law_fired_alert_keeps_its_memory(
    rt: Map<Seq<char>, AlertRuntime>,
    alerts: Seq<Alert>,
    conds: Seq<bool>,
    now: Instant,
    i: int,
)
    requires
        ids_distinct(alerts),
        conds.len() == alerts.len(),
        0 <= i < alerts.len(),
        !alerts[i].paused,
        rt.contains_key(alerts[i].id@),
        rt[alerts[i].id@].triggered_at is Some,
    ensures
        ({
            let e = evaluation(rt, alerts, conds, now);
            e.0.contains_key(alerts[i].id@) ==> e.0[alerts[i].id@] == rt[alerts[i].id@]
        }),
{
    lemma_eval_pass(rt, alerts, conds, now);
    let p = eval_pass(rt, alerts, conds, now);
    lemma_without_ids(p.0, p.2);
    assert(step_of(rt, alerts, conds, now, i).0[alerts[i].id@] == rt[alerts[i].id@]);
}

/// An alert whose notice lasts "continue" stays shown, its memory
/// unchanged, for as long as it has fired and is not dismissed (alert ids
/// distinct).
pub proof fn law_continue_alert_stays_on(
    rt: Map<Seq<char>, AlertRuntime>,
    alerts: Seq<Alert>,
    conds: Seq<bool>,
    now: Instant,
    i: int,
)
    requires
        ids_distinct(alerts),
        conds.len() == alerts.len(),
        0 <= i < alerts.len(),
        !alerts[i].paused,
        alerts[i].notify_duration@ == "continue"@,
        rt.contains_key(alerts[i].id@),
        rt[alerts[i].id@].triggered_at is Some,
        !rt[alerts[i].id@].dismissed,
    ensures
        ({
            let e = evaluation(rt, alerts, conds, now);
            &&& e.1.contains(
                ActiveAlert { id: alerts[i].id, name: alerts[i].name, color: alerts[i].color },
            )
            &&& e.0.contains_key(alerts[i].id@)
            &&& e.0[alerts[i].id@] == rt[alerts[i].id@]
        }),
{
    lemma_eval_pass(rt, alerts, conds, now);
    let p = eval_pass(rt, alerts, conds, now);
    lemma_without_ids(p.0, p.2);
    let a = alerts[i];
    let st = step_of(rt, alerts, conds, now, i);
    assert(st.1 == Some(ActiveAlert { id: a.id, name: a.name, color: a.color }));
    assert forall|k: int| 0 <= k < p.2.len() implies p.2[k]@ != a.id@ by {
        assert(p.2.contains(p.2[k]));
        let j = choose|j: int|
            0 <= j < alerts.len() && #[trigger] step_of(rt, alerts, conds, now, j).2 == Some(p.2[k]);
        assert(j != i);
    }
}

/// A dismissed alert that has fired is reported as finished at the next
/// evaluation and forgotten (alert ids distinct).
pub proof fn law_dismissed_alert_finishes(
    rt: Map<Seq<char>, AlertRuntime>,
    alerts: Seq<Alert>,
    conds: Seq<bool>,
    now: Instant,
    i: int,
)
    requires
        ids_distinct(alerts),
        conds.len() == alerts.len(),
        0 <= i < alerts.len(),
        !alerts[i].paused,
        runtime_or_fresh(rt, alerts[i].id@).triggered_at is Some,
    ensures
        ({
            let d = rt.insert(
                alerts[i].id@,
                AlertRuntime {
                    triggered_at: runtime_or_fresh(rt, alerts[i].id@).triggered_at,
                    dismissed: true,
                },
            );
            let e = evaluation(d, alerts, conds, now);
            &&& e.2.contains(alerts[i].id)
            &&& !e.0.contains_key(alerts[i].id@)
        }),
{
    let d = rt.insert(
        alerts[i].id@,
        AlertRuntime { triggered_at: runtime_or_fresh(rt, alerts[i].id@).triggered_at, dismissed: true },
    );
    lemma_eval_pass(d, alerts, conds, now);
    let p = eval_pass(d, alerts, conds, now);
    lemma_without_ids(p.0, p.2);
    assert(step_of(d, alerts, conds, now, i).2 == Some(alerts[i].id));
    assert(p.2.contains(alerts[i].id));
    let k = choose|k: int| 0 <= k < p.2.len() && p.2[k] == alerts[i].id;
    assert(p.2[k]@ == alerts[i].id@);
    assert(!without_ids(p.0, p.2).contains_key(p.2[k]@));
}

/// An alert with nothing remembered (new, reset, or resumed after a pause)
/// whose condition does not hold is neither shown nor finished (alert ids
/// distinct): after a reset it is evaluated from scratch.
pub proof fn law_reset_alert_waits_for_its_condition(
    rt: Map<Seq<char>, AlertRuntime>,
    alerts: Seq<Alert>,
    conds: Seq<bool>,
    now: Instant,
    i: int,
)
    requires
        ids_distinct(alerts),
        conds.len() == alerts.len(),
        0 <= i < alerts.len(),
        !alerts[i].paused,
        !conds[i],
    ensures
        ({
            let e = evaluation(rt.remove(alerts[i].id@), alerts, conds, now);
            &&& forall|k: int| 0 <= k < e.1.len() ==> (#[trigger] e.1[k]).id@ != alerts[i].id@
            &&& forall|k: int| 0 <= k < e.2.len() ==> (#[trigger] e.2[k])@ != alerts[i].id@
        }),
{
    let d = rt.remove(alerts[i].id@);
    lemma_eval_pass(d, alerts, conds, now);
    let p = eval_pass(d, alerts, conds, now);
    assert(step_of(d, alerts, conds, now, i).1 is None);
    assert(step_of(d, alerts, conds, now, i).2 is None);
    assert forall|k: int| 0 <= k < p.1.len() implies (#[trigger] p.1[k]).id@ != alerts[i].id@ by {
        assert(p.1.contains(p.1[k]));
        let j = choose|j: int|
            0 <= j < alerts.len() && #[trigger] step_of(d, alerts, conds, now, j).1 == Some(p.1[k]);
        assert(j != i);
        assert(p.1[k].id == alerts[j].id);
    }
    assert forall|k: int| 0 <= k < p.2.len() implies (#[trigger] p.2[k])@ != alerts[i].id@ by {
        assert(p.2.contains(p.2[k]));
        let j = choose|j: int|
            0 <= j < alerts.len() && #[trigger] step_of(d, alerts, conds, now, j).2 == Some(p.2[k]);
        assert(j != i);
        assert(p.2[k] == alerts[j].id);
    }
}

/// An alert that fired at `t`, is not dismissed and does not last
/// "continue" finishes exactly when the whole seconds since `t` reach its
/// duration; until then it is shown (alert ids distinct). With the two laws
/// above, `t` is the evaluation at which it first fired.
pub proof fn law_alert_expires_after_its_duration(
    rt: Map<Seq<char>, AlertRuntime>,
    alerts: Seq<Alert>,
    conds: Seq<bool>,
    now: Instant,
    i: int,
    t: Instant,
)
    requires
        ids_distinct(alerts),
        conds.len() == alerts.len(),
        0 <= i < alerts.len(),
        !alerts[i].paused,
        alerts[i].notify_duration@ != "continue"@,
        rt.contains_key(alerts[i].id@),
        rt[alerts[i].id@] == (AlertRuntime { triggered_at: Some(t), dismissed: false }),
    ensures
        ({
            let e = evaluation(rt, alerts, conds, now);
            &&& e.2.contains(alerts[i].id) == (whole_seconds(nanos_between(t, now)) >= duration_secs(
                alerts[i].notify_duration@,
            ))
            &&& e.1.contains(ActiveAlert { id: alerts[i].id, name: alerts[i].name, color: alerts[i].color })
                == !e.2.contains(alerts[i].id)
        }),
{
    lemma_eval_pass(rt, alerts, conds, now);
    let p = eval_pass(rt, alerts, conds, now);
    let a = alerts[i];
    let x = ActiveAlert { id: a.id, name: a.name, color: a.color };
    let st = step_of(rt, alerts, conds, now, i);
    if expired(a.notify_duration@, t, now) {
        assert(st.2 == Some(a.id));
        assert(p.2.contains(a.id));
        if p.1.contains(x) {
            let j = choose|j: int|
                0 <= j < alerts.len() && #[trigger] step_of(rt, alerts, conds, now, j).1 == Some(x);
            assert(j != i);
            assert(alerts[j].id == x.id);
        }
    } else {
        assert(st.1 == Some(x));
        assert(p.1.contains(x));
        if p.2.contains(a.id) {
            let j = choose|j: int|
                0 <= j < alerts.len() && #[trigger] step_of(rt, alerts, conds, now, j).2 == Some(a.id);
            assert(j != i);
            assert(alerts[j].id == a.id);
        }
    }
}

/// What an evaluation in which alert `i` is shown leaves in memory for it:
/// it has fired, is not dismissed, and is kept (alert ids distinct).
proof fn lemma_shown_alert_is_remembered(
    rt: Map<Seq<char>, AlertRuntime>,
    alerts: Seq<Alert>,
    conds: Seq<bool>,
    now: Instant,
    i: int,
)
    requires
        ids_distinct(alerts),
        conds.len() == alerts.len(),
        0 <= i < alerts.len(),
        evaluation(rt, alerts, conds, now).1.contains(
            ActiveAlert { id: alerts[i].id, name: alerts[i].name, color: alerts[i].color },
        ),
    ensures
        ({
            let m = evaluation(rt, alerts, conds, now).0;
            &&& !alerts[i].paused
            &&& m.contains_key(alerts[i].id@)
            &&& m[alerts[i].id@].triggered_at is Some
            &&& !m[alerts[i].id@].dismissed
            &&& !expired(alerts[i].notify_duration@, m[alerts[i].id@].triggered_at->0, now)
        }),
{
    lemma_eval_pass(rt, alerts, conds, now);
    let p = eval_pass(rt, alerts, conds, now);
    lemma_without_ids(p.0, p.2);
    let x = ActiveAlert { id: alerts[i].id, name: alerts[i].name, color: alerts[i].color };
    let j = choose|j: int| 0 <= j < alerts.len() && #[trigger] step_of(rt, alerts, conds, now, j).1 == Some(x);
    assert(alerts[j].id == x.id);
    assert(j == i);
    let st = step_of(rt, alerts, conds, now, i);
    assert forall|k: int| 0 <= k < p.2.len() implies p.2[k]@ != alerts[i].id@ by {
        assert(p.2.contains(p.2[k]));
        let w = choose|w: int|
            0 <= w < alerts.len() && #[trigger] step_of(rt, alerts, conds, now, w).2 == Some(p.2[k]);
        assert(w != i);
    }
}

/// A fired "continue" alert stays latched: once an evaluation shows it,
/// the next one shows it again and does not finish it, whatever the
/// conditions then, unless it was dismissed, reset or paused in between
/// (alert ids distinct).
pub proof fn law_continue_alert_latches(
    rt: Map<Seq<char>, AlertRuntime>,
    alerts: Seq<Alert>,
    conds1: Seq<bool>,
    now1: Instant,
    conds2: Seq<bool>,
    now2: Instant,
    i: int,
)
    requires
        ids_distinct(alerts),
        conds1.len() == alerts.len(),
        conds2.len() == alerts.len(),
        0 <= i < alerts.len(),
        alerts[i].notify_duration@ == "continue"@,
        evaluation(rt, alerts, conds1, now1).1.contains(
            ActiveAlert { id: alerts[i].id, name: alerts[i].name, color: alerts[i].color },
        ),
    ensures
        ({
            let e2 = evaluation(evaluation(rt, alerts, conds1, now1).0, alerts, conds2, now2);
            &&& e2.1.contains(ActiveAlert { id: alerts[i].id, name: alerts[i].name, color: alerts[i].color })
            &&& !e2.2.contains(alerts[i].id)
        }),
{
    lemma_shown_alert_is_remembered(rt, alerts, conds1, now1, i);
    let m = evaluation(rt, alerts, conds1, now1).0;
    law_continue_alert_stays_on(m, alerts, conds2, now2, i);
    lemma_eval_pass(m, alerts, conds2, now2);
    let p = eval_pass(m, alerts, conds2, now2);
    if p.2.contains(alerts[i].id) {
        let w = choose|w: int|
            0 <= w < alerts.len() && #[trigger] step_of(m, alerts, conds2, now2, w).2 == Some(alerts[i].id);
        assert(alerts[w].id == alerts[i].id);
        assert(w == i);
    }
}

/// An alert that an evaluation shows and the user then dismisses is
/// reported as finished, and not shown, at the next evaluation, whatever
/// the conditions then (alert ids distinct).
pub proof fn law_dismissed_then_finished(
    rt: Map<Seq<char>, AlertRuntime>,
    alerts: Seq<Alert>,
    conds1: Seq<bool>,
    now1: Instant,
    conds2: Seq<bool>,
    now2: Instant,
    i: int,
)
    requires
        ids_distinct(alerts),
        conds1.len() == alerts.len(),
        conds2.len() == alerts.len(),
        0 <= i < alerts.len(),
        evaluation(rt, alerts, conds1, now1).1.contains(
            ActiveAlert { id: alerts[i].id, name: alerts[i].name, color: alerts[i].color },
        ),
    ensures
        ({
            let m = evaluation(rt, alerts, conds1, now1).0;
            let d = m.insert(
                alerts[i].id@,
                AlertRuntime { triggered_at: runtime_or_fresh(m, alerts[i].id@).triggered_at, dismissed: true },
            );
            let e2 = evaluation(d, alerts, conds2, now2);
            &&& e2.2.contains(alerts[i].id)
            &&& !e2.1.contains(ActiveAlert { id: alerts[i].id, name: alerts[i].name, color: alerts[i].color })
        }),
{
    lemma_shown_alert_is_remembered(rt, alerts, conds1, now1, i);
    let m = evaluation(rt, alerts, conds1, now1).0;
    law_dismissed_alert_finishes(m, alerts, conds2, now2, i);
    let d = m.insert(
        alerts[i].id@,
        AlertRuntime { triggered_at: runtime_or_fresh(m, alerts[i].id@).triggered_at, dismissed: true },
    );
    let x = ActiveAlert { id: alerts[i].id, name: alerts[i].name, color: alerts[i].color };
    lemma_eval_pass(d, alerts, conds2, now2);
    let p = eval_pass(d, alerts, conds2, now2);
    if p.1.contains(x) {
        let w = choose|w: int| 0 <= w < alerts.len() && #[trigger] step_of(d, alerts, conds2, now2, w).1 == Some(x);
        assert(alerts[w].id == x.id);
        assert(w == i);
    }
}

/// An alert that fires at evaluation time `t` (it had not fired, its
/// condition holds) is finished at a later evaluation at `now`, with no
/// change of its memory in between, exactly when the whole seconds from
/// `t` to `now` reach its duration, and shown otherwise (alert ids
/// distinct; its notice does not last "continue").
pub proof fn law_expiry_counts_from_first_firing(
    rt: Map<Seq<char>, AlertRuntime>,
    alerts: Seq<Alert>,
    conds1: Seq<bool>,
    t: Instant,
    conds2: Seq<bool>,
    now: Instant,
    i: int,
)
    requires
        ids_distinct(alerts),
        conds1.len() == alerts.len(),
        conds2.len() == alerts.len(),
        0 <= i < alerts.len(),
        !alerts[i].paused,
        alerts[i].notify_duration@ != "continue"@,
        runtime_or_fresh(rt, alerts[i].id@).triggered_at is None,
        conds1[i],
    ensures
        ({
            let e2 = evaluation(evaluation(rt, alerts, conds1, t).0, alerts, conds2, now);
            &&& e2.2.contains(alerts[i].id) == (whole_seconds(nanos_between(t, now)) >= duration_secs(
                alerts[i].notify_duration@,
            ))
            &&& e2.1.contains(ActiveAlert { id: alerts[i].id, name: alerts[i].name, color: alerts[i].color })
                == !e2.2.contains(alerts[i].id)
        }),
{
    law_alert_fires_on_rising_edge(rt, alerts, conds1, t, i);
    let m = evaluation(rt, alerts, conds1, t).0;
    law_alert_expires_after_its_duration(m, alerts, conds2, now, i, t);
}

} // verus!
