//! Per-interface byte counters for the current session of the monitor.

use vstd::prelude::*;
use crate::clock::{Instant, is_clock_instant, millis_of, unix_millis, clock_now, local_rfc3339};
use crate::keyed::{KeyedVec, find_key, keys_distinct, lemma_find_key};
use crate::text::{decimal, lemma_parse_u64_decimal, to_chars, starts_with_chars, has_prefix, eq_str, trim, trim_chars, parse_u64_chars, parse_u64_spec};

verus! {

broadcast use vstd::string::group_string_axioms;

/// One interface as the kernel's counters show it at one moment.
pub struct IfaceSnapshot {
    pub name: String,
    pub is_up: bool,
    /// Whether the name is that of a virtual interface; the session
    /// decides this from the name itself.
    pub is_virtual: bool,
    pub rx_bytes: u64,
    pub tx_bytes: u64,
}

/// What the monitor reports of one interface: its state and the bytes it
/// moved since the session of this interface began.
pub struct IfaceSession {
    pub name: String,
    pub is_up: bool,
    pub started_at: String,
    pub started_unix_ms: i64,
    pub total_rx_bytes: u64,
    pub total_tx_bytes: u64,
}

/// Interfaces that are not real links: loopback, container and VM
/// bridges, virtual pairs, dummies, and the bonding control file.
pub open spec fn virtual_iface(name: Seq<char>) -> bool {
    ||| name == "lo"@
    ||| has_prefix(name, "docker"@)
    ||| has_prefix(name, "br-"@)
    ||| has_prefix(name, "virbr"@)
    ||| has_prefix(name, "veth"@)
    ||| has_prefix(name, "dummy"@)
    ||| name == "bonding_masters"@
}

/// Whether an interface is not a real link.
pub fn is_virtual_iface(name: &str) -> (r: bool)
    ensures
        r == virtual_iface(name@),
{
    let v = to_chars(name);
    eq_str(name, "lo") || starts_with_chars(&v, &to_chars("docker")) || starts_with_chars(
        &v,
        &to_chars("br-"),
    ) || starts_with_chars(&v, &to_chars("virbr")) || starts_with_chars(&v, &to_chars("veth"))
        || starts_with_chars(&v, &to_chars("dummy")) || eq_str(name, "bonding_masters")
}

/// The number in a counter file: its text without surrounding white space,
/// read as a `u64`; nothing when the file could not be read.
pub open spec fn counter_value(contents: Option<String>) -> Option<u64> {
    match contents {
        Some(c) => parse_u64_spec(trim(c@)),
        None => None,
    }
}

/// The number in a counter file whose contents were read (`None` when the
/// file could not be read).
pub fn read_u64(contents: &Option<String>) -> (r: Option<u64>)
    ensures
        r == counter_value(*contents),
{
    match contents {
        Some(c) => {
            let v = to_chars(c.as_str());
            let t = trim_chars(&v);
            parse_u64_chars(&t)
        },
        None => None,
    }
}

/// The snapshot of an interface from the files the kernel shows for it:
/// up when `operstate` reads "up" and `carrier` reads 1; a counter that
/// cannot be read counts as 0.
pub open spec fn snapshot_spec(
    name: String,
    operstate: Option<String>,
    carrier: Option<String>,
    rx: Option<String>,
    tx: Option<String>,
) -> IfaceSnapshot {
    IfaceSnapshot {
        name: name,
        is_up: (match operstate {
            Some(o) => trim(o@) == "up"@,
            None => false,
        }) && counter_value(carrier) == Some(1u64),
        is_virtual: virtual_iface(name@),
        rx_bytes: match counter_value(rx) {
            Some(v) => v,
            None => 0,
        },
        tx_bytes: match counter_value(tx) {
            Some(v) => v,
            None => 0,
        },
    }
}

/// The snapshot of an interface from the contents of its `operstate`,
/// `carrier`, `statistics/rx_bytes` and `statistics/tx_bytes` files.
pub fn snapshot_from(
    name: String,
    operstate: &Option<String>,
    carrier: &Option<String>,
    rx: &Option<String>,
    tx: &Option<String>,
) -> (r: IfaceSnapshot)
    ensures
        r == snapshot_spec(name, *operstate, *carrier, *rx, *tx),
{
    let up_state = match operstate {
        Some(o) => {
            let t = trim_chars(&to_chars(o.as_str()));
            let up = to_chars("up");
            crate::text::chars_eq(&t, &up)
        },
        None => false,
    };
    let carrier_v = match read_u64(carrier) {
        Some(v) => v,
        None => 0,
    };
    let rx_v = match read_u64(rx) {
        Some(v) => v,
        None => 0,
    };
    let tx_v = match read_u64(tx) {
        Some(v) => v,
        None => 0,
    };
    let is_virtual = is_virtual_iface(name.as_str());
    IfaceSnapshot {
        name,
        is_up: up_state && carrier_v == 1,
        is_virtual,
        rx_bytes: rx_v,
        tx_bytes: tx_v,
    }
}


/// A counter file that holds the decimal digits of any `u64` (white space
/// around them, such as the kernel's newline, aside) reads back as that
/// number, however large, and a snapshot counts it as it reads.
pub proof fn law_counter_reads_any_u64(
    x: u64,
    contents: String,
    name: String,
    operstate: Option<String>,
    carrier: Option<String>,
    other: Option<String>,
)
    requires
        trim(contents@) == decimal(x as nat),
    ensures
        counter_value(Some(contents)) == Some(x),
        snapshot_spec(name, operstate, carrier, Some(contents), other).rx_bytes == x,
        snapshot_spec(name, operstate, carrier, other, Some(contents)).tx_bytes == x,
{
    lemma_parse_u64_decimal(x);
}

/// What the monitor keeps of one interface during the session.
pub struct SessionEntry {
    pub name: String,
    /// When the session of this interface began.
    pub started_at: Instant,
    /// That moment as written when the session began, in the time zone of
    /// the machine then.
    pub started_text: String,
    /// The counters when the session began (or after they rolled back).
    pub initial_rx: u64,
    pub initial_tx: u64,
    /// The counters at the last reading.
    pub current_rx: u64,
    pub current_tx: u64,
    pub is_up: bool,
    pub is_virtual: bool,
}

/// The entry of an interface after a snapshot at `now` (written `text`):
/// a new interface starts its session now with the snapshot's counters; a counter that
/// fell below its start (a restarted interface) restarts there; the
/// current counters and the state follow the snapshot.
pub open spec fn absorb(prev: Option<SessionEntry>, snap: IfaceSnapshot, now: Instant, text: String) -> SessionEntry {
    let base = match prev {
        Some(e) => e,
        None => SessionEntry {
            name: snap.name,
            started_at: now,
            started_text: text,
            initial_rx: snap.rx_bytes,
            initial_tx: snap.tx_bytes,
            current_rx: snap.rx_bytes,
            current_tx: snap.tx_bytes,
            is_up: snap.is_up,
            is_virtual: virtual_iface(snap.name@),
        },
    };
    SessionEntry {
        name: base.name,
        started_at: base.started_at,
        started_text: base.started_text,
        initial_rx: if snap.rx_bytes < base.initial_rx {
            snap.rx_bytes
        } else {
            base.initial_rx
        },
        initial_tx: if snap.tx_bytes < base.initial_tx {
            snap.tx_bytes
        } else {
            base.initial_tx
        },
        current_rx: snap.rx_bytes,
        current_tx: snap.tx_bytes,
        is_up: snap.is_up,
        is_virtual: virtual_iface(snap.name@),
    }
}

/// The entries, in order, after the snapshots are taken in order at `now`.
pub open spec fn absorb_all(
    ps: Seq<(String, SessionEntry)>,
    snaps: Seq<IfaceSnapshot>,
    now: Instant,
    text: String,
) -> Seq<(String, SessionEntry)>
    decreases snaps.len(),
{
    if snaps.len() == 0 {
        ps
    } else {
        let prev = absorb_all(ps, snaps.drop_last(), now, text);
        let s = snaps.last();
        let j = find_key(prev, s.name@);
        if j >= 0 {
            prev.update(j, (s.name, absorb(Some(prev[j].1), s, now, text)))
        } else {
            prev.push((s.name, absorb(None, s, now, text)))
        }
    }
}

/// The entry of an interface after its session restarts at `now` (written
/// `text`), with
/// the interface's snapshot if there is one: the totals go back to 0.
pub open spec fn restarted(e: SessionEntry, snap: Option<IfaceSnapshot>, now: Instant, text: String) -> SessionEntry {
    match snap {
        Some(s) => SessionEntry {
            started_at: now,
            started_text: text,
            initial_rx: s.rx_bytes,
            initial_tx: s.tx_bytes,
            current_rx: s.rx_bytes,
            current_tx: s.tx_bytes,
            is_up: s.is_up,
            ..e
        },
        None => SessionEntry {
            started_at: now,
            started_text: text,
            initial_rx: e.current_rx,
            initial_tx: e.current_tx,
            ..e
        },
    }
}

/// `a - b`, or 0 when `b` is larger.
pub open spec fn sat_sub(a: u64, b: u64) -> u64 {
    if a >= b {
        (a - b) as u64
    } else {
        0
    }
}

/// The report of an entry: `s` carries its name, state, start (in
/// milliseconds and as the text written when the session began) and the
/// bytes moved since the start.
pub open spec fn reports(s: IfaceSession, e: SessionEntry) -> bool {
    &&& s.name == e.name
    &&& s.is_up == e.is_up
    &&& s.started_at == e.started_text
    &&& s.started_unix_ms == millis_of(e.started_at)
    &&& s.total_rx_bytes == sat_sub(e.current_rx, e.initial_rx)
    &&& s.total_tx_bytes == sat_sub(e.current_tx, e.initial_tx)
}

/// The test that keeps an entry in the report.
pub open spec fn is_real_entry() -> spec_fn((String, SessionEntry)) -> bool {
    |p: (String, SessionEntry)| !p.1.is_virtual
}

/// The entries of a session are well formed: no name is filed twice, each
/// entry is filed under its own name, and an entry counts as virtual
/// exactly when its name is that of a virtual interface.
pub open spec fn session_wf(ps: Seq<(String, SessionEntry)>) -> bool {
    &&& keys_distinct(ps)
    &&& forall|i: int|
        0 <= i < ps.len() ==> #[trigger] ps[i].0@ == ps[i].1.name@ && ps[i].1.is_virtual
            == virtual_iface(ps[i].1.name@)
}

/// The reports name each interface once, and no virtual one.
pub open spec fn report_names_ok(r: Seq<IfaceSession>) -> bool {
    &&& forall|k: int| 0 <= k < r.len() ==> !virtual_iface(#[trigger] r[k].name@)
    &&& forall|a: int, b: int|
        0 <= a < r.len() && 0 <= b < r.len() && a != b ==> #[trigger] r[a].name@ != #[trigger] r[b].name@
}

/// Filing an entry under its own name keeps the entries well formed.
proof fn lemma_wf_put(ps: Seq<(String, SessionEntry)>, key: String, e: SessionEntry)
    requires
        session_wf(ps),
        key@ == e.name@,
        e.is_virtual == virtual_iface(e.name@),
    ensures
        find_key(ps, key@) >= 0 ==> session_wf(ps.update(find_key(ps, key@), (key, e))),
        find_key(ps, key@) < 0 ==> session_wf(ps.push((key, e))),
{
    lemma_find_key(ps, key@);
    let j = find_key(ps, key@);
    if j >= 0 {
        let q = ps.update(j, (key, e));
        assert forall|a: int, b: int|
            0 <= a < q.len() && 0 <= b < q.len() && a != b implies #[trigger] q[a].0@ != #[trigger] q[b].0@ by {
            if a != j && b != j {
                assert(q[a] == ps[a] && q[b] == ps[b]);
            } else if a == j {
                assert(q[b] == ps[b] && ps[j].0@ == key@);
            } else {
                assert(q[a] == ps[a] && ps[j].0@ == key@);
            }
        }
    } else {
        let q = ps.push((key, e));
        assert forall|a: int, b: int|
            0 <= a < q.len() && 0 <= b < q.len() && a != b implies #[trigger] q[a].0@ != #[trigger] q[b].0@ by {
            if a < ps.len() && b < ps.len() {
                assert(q[a] == ps[a] && q[b] == ps[b]);
            } else if a < ps.len() {
                assert(q[a] == ps[a]);
            } else {
                assert(q[b] == ps[b]);
            }
        }
        assert forall|i: int| 0 <= i < q.len() implies #[trigger] q[i].0@ == q[i].1.name@
            && q[i].1.is_virtual == virtual_iface(q[i].1.name@) by {
            if i < ps.len() {
                assert(q[i] == ps[i]);
            }
        }
    }
}

/// The real entries of well-formed entries are filed under their own,
/// distinct, non-virtual names.
proof fn lemma_real_entries(ps: Seq<(String, SessionEntry)>)
    requires
        session_wf(ps),
    ensures
        keys_distinct(ps.filter(is_real_entry())),
        forall|k: int|
            0 <= k < ps.filter(is_real_entry()).len() ==> ({
                let p = #[trigger] ps.filter(is_real_entry())[k];
                &&& p.0@ == p.1.name@
                &&& !virtual_iface(p.1.name@)
                &&& ps.contains(p)
            }),
    decreases ps.len(),
{
    broadcast use Seq::lemma_filter_push;

    if ps.len() == 0 {
        reveal_with_fuel(Seq::filter, 1);
        assert(ps.filter(is_real_entry()).len() == 0);
    } else {
        let init = ps.drop_last();
        let x = ps.last();
        assert(init.push(x) == ps);
        assert forall|i: int| 0 <= i < init.len() implies #[trigger] init[i].0@ == init[i].1.name@
            && init[i].1.is_virtual == virtual_iface(init[i].1.name@) by {
            assert(init[i] == ps[i]);
        }
        assert forall|a: int, b: int|
            0 <= a < init.len() && 0 <= b < init.len() && a != b implies #[trigger] init[a].0@
            != #[trigger] init[b].0@ by {
            assert(init[a] == ps[a] && init[b] == ps[b]);
        }
        lemma_real_entries(init);
        let fi = init.filter(is_real_entry());
        let f = ps.filter(is_real_entry());
        assert forall|k: int| 0 <= k < fi.len() implies ps.contains(#[trigger] fi[k]) by {
            assert(init.contains(fi[k]));
            let w = choose|w: int| 0 <= w < init.len() && init[w] == fi[k];
            assert(ps[w] == fi[k]);
        }
        if !x.1.is_virtual {
            assert(f == fi.push(x));
            assert(ps[ps.len() - 1] == x);
            assert forall|k: int| 0 <= k < f.len() implies ({
                let p = #[trigger] f[k];
                &&& p.0@ == p.1.name@
                &&& !virtual_iface(p.1.name@)
                &&& ps.contains(p)
            }) by {
                if k < fi.len() {
                    assert(f[k] == fi[k]);
                } else {
                    assert(f[k] == ps[ps.len() - 1]);
                    let l = ps.len() - 1;
                    assert(ps[l].0@ == ps[l].1.name@);
                    assert(ps[l].1.is_virtual == virtual_iface(ps[l].1.name@));
                    assert(!x.1.is_virtual);
                    assert(x == ps[l]);
                }
            }
            assert forall|a: int, b: int|
                0 <= a < f.len() && 0 <= b < f.len() && a != b implies #[trigger] f[a].0@
                != #[trigger] f[b].0@ by {
                if a < fi.len() && b < fi.len() {
                    assert(f[a] == fi[a] && f[b] == fi[b]);
                } else if a < fi.len() {
                    assert(f[a] == fi[a] && f[b] == x);
                    assert(init.contains(fi[a]));
                    let w = choose|w: int| 0 <= w < init.len() && init[w] == fi[a];
                    assert(ps[w] == fi[a]);
                    assert(ps[ps.len() - 1] == x);
                } else {
                    assert(f[b] == fi[b] && f[a] == x);
                    assert(init.contains(fi[b]));
                    let w = choose|w: int| 0 <= w < init.len() && init[w] == fi[b];
                    assert(ps[w] == fi[b]);
                    assert(ps[ps.len() - 1] == x);
                }
            }
        } else {
            assert(f == fi);
        }
    }
}

/// The interfaces tracked in this session, by name, in the order in which
/// they were first seen.
pub struct SessionState {
    entries: KeyedVec<SessionEntry>,
}

impl SessionState {
    #[verifier::type_invariant]
    spec fn started_by_clock(self) -> bool {
        &&& session_wf(self.entries.pairs())
        &&& forall|i: int|
            0 <= i < self.entries.pairs().len() ==> is_clock_instant(
                #[trigger] self.entries.pairs()[i].1.started_at,
            )
    }

    /// The entries in order.
    pub closed spec fn pairs(self) -> Seq<(String, SessionEntry)> {
        self.entries.pairs()
    }

    /// No interface tracked yet.
    pub fn new() -> (r: Self)
        ensures
            r.pairs() == Seq::<(String, SessionEntry)>::empty(),
            session_wf(r.pairs()),
    {
        SessionState { entries: KeyedVec::new() }
    }

    /// The report of every real interface, in order (what the monitor shows
    /// without reading the counters again).
    pub fn current(&self) -> (r: Vec<IfaceSession>)
        ensures
            session_wf(self.pairs()),
            r@.len() == self.pairs().filter(is_real_entry()).len(),
            forall|k: int|
                0 <= k < r@.len() ==> reports(
                    #[trigger] r@[k],
                    self.pairs().filter(is_real_entry())[k].1,
                ),
            report_names_ok(r@),
    {
        broadcast use Seq::lemma_filter_push;

        proof {
            use_type_invariant(self);
        }
        let mut out: Vec<IfaceSession> = Vec::new();
        let ghost ps = self.entries.pairs();
        proof {
            reveal_with_fuel(Seq::filter, 1);
        }
        assert(ps.take(0) == Seq::<(String, SessionEntry)>::empty());
        let n = self.entries.len();
        for i in 0..n
            invariant
                n == ps.len(),
                ps == self.entries.pairs(),
                forall|j: int| 0 <= j < ps.len() ==> is_clock_instant(#[trigger] ps[j].1.started_at),
                out@.len() == ps.take(i as int).filter(is_real_entry()).len(),
                forall|k: int|
                    0 <= k < out@.len() ==> reports(
                        #[trigger] out@[k],
                        ps.take(i as int).filter(is_real_entry())[k].1,
                    ),
        {
            assert(ps.take(i + 1) == ps.take(i as int).push(ps[i as int]));
            proof {
                ps.take(i as int).lemma_filter_push(ps[i as int], is_real_entry());
            }
            let e = self.entries.value_at(i);
            if !e.is_virtual {
                assert(is_clock_instant(ps[i as int].1.started_at));
                let s = IfaceSession {
                    name: e.name.clone(),
                    is_up: e.is_up,
                    started_at: e.started_text.clone(),
                    started_unix_ms: unix_millis(e.started_at),
                    total_rx_bytes: e.current_rx.saturating_sub(e.initial_rx),
                    total_tx_bytes: e.current_tx.saturating_sub(e.initial_tx),
                };
                out.push(s);
            }
        }
        assert(ps.take(ps.len() as int) == ps);
        proof {
            lemma_real_entries(ps);
            let f = ps.filter(is_real_entry());
            assert forall|k: int| 0 <= k < out@.len() implies !virtual_iface(
                #[trigger] out@[k].name@,
            ) by {
                assert(f[k].0@ == f[k].1.name@);
            }
            assert forall|a: int, b: int|
                0 <= a < out@.len() && 0 <= b < out@.len() && a != b implies #[trigger] out@[a].name@
                != #[trigger] out@[b].name@ by {
                assert(f[a].0@ == f[a].1.name@ && f[b].0@ == f[b].1.name@);
            }
        }
        out
    }

    /// Takes the snapshots in order at `now` (see `absorb_all`).
    pub fn tick_at(&mut self, snaps: &[IfaceSnapshot], now: Instant, text: String)
        requires
            is_clock_instant(now),
        ensures
            final(self).pairs() == absorb_all(old(self).pairs(), snaps@, now, text),
            session_wf(final(self).pairs()),
    {
        proof {
            use_type_invariant(&*self);
        }
        let mut entries: KeyedVec<SessionEntry> = KeyedVec::new();
        std::mem::swap(&mut entries, &mut self.entries);
        let ghost ps0 = entries.pairs();
        assert(snaps@.take(0) == Seq::<IfaceSnapshot>::empty());
        for i in 0..snaps.len()
            invariant
                is_clock_instant(now),
                entries.pairs() == absorb_all(ps0, snaps@.take(i as int), now, text),
                session_wf(entries.pairs()),
                forall|k: int|
                    0 <= k < entries.pairs().len() ==> is_clock_instant(
                        #[trigger] entries.pairs()[k].1.started_at,
                    ),
        {
            assert(snaps@.take(i + 1).drop_last() == snaps@.take(i as int));
            assert(snaps@.take(i + 1).last() == snaps@[i as int]);
            let snap = &snaps[i];
            let key = snap.name.clone();
            let virt = is_virtual_iface(snap.name.as_str());
            let ghost prev = entries.pairs();
            proof {
                lemma_find_key(prev, key@);
            }
            match entries.position(&key) {
                Some(j) => {
                    let e = entries.value_at(j);
                    let new_e = SessionEntry {
                        name: e.name.clone(),
                        started_at: e.started_at,
                        started_text: e.started_text.clone(),
                        initial_rx: if snap.rx_bytes < e.initial_rx {
                            snap.rx_bytes
                        } else {
                            e.initial_rx
                        },
                        initial_tx: if snap.tx_bytes < e.initial_tx {
                            snap.tx_bytes
                        } else {
                            e.initial_tx
                        },
                        current_rx: snap.rx_bytes,
                        current_tx: snap.tx_bytes,
                        is_up: snap.is_up,
                        is_virtual: virt,
                    };
                    assert(new_e == absorb(Some(prev[j as int].1), *snap, now, text));
                    assert(prev[j as int].0@ == prev[j as int].1.name@);
                    proof {
                        lemma_wf_put(prev, key, new_e);
                    }
                    entries.insert(key, new_e);
                },
                None => {
                    let new_e = SessionEntry {
                        name: snap.name.clone(),
                        started_at: now,
                        started_text: text.clone(),
                        initial_rx: snap.rx_bytes,
                        initial_tx: snap.tx_bytes,
                        current_rx: snap.rx_bytes,
                        current_tx: snap.tx_bytes,
                        is_up: snap.is_up,
                        is_virtual: virt,
                    };
                    assert(new_e == absorb(None, *snap, now, text));
                    proof {
                        lemma_wf_put(prev, key, new_e);
                    }
                    entries.insert(key, new_e);
                },
            }
        }
        assert(snaps@.take(snaps@.len() as int) == snaps@);
        self.entries = entries;
    }

    /// Reads the clock and takes the snapshots in order; returns the
    /// report of every real interface.
    pub fn tick(&mut self, snaps: &[IfaceSnapshot]) -> (r: Vec<IfaceSession>)
        ensures
            exists|now: Instant, text: String|
                is_clock_instant(now) && #[trigger] absorb_all(old(self).pairs(), snaps@, now, text)
                    == final(self).pairs(),
            r@.len() == final(self).pairs().filter(is_real_entry()).len(),
            forall|k: int|
                0 <= k < r@.len() ==> reports(
                    #[trigger] r@[k],
                    final(self).pairs().filter(is_real_entry())[k].1,
                ),
            session_wf(final(self).pairs()),
            report_names_ok(r@),
    {
        let now = clock_now();
        let text = local_rfc3339(now);
        self.tick_at(snaps, now, text);
        self.current()
    }

    /// Restarts the session of the interface `name` at `now`, with the
    /// first of the snapshots that carries that name, if any; nothing
    /// happens when the interface is not tracked.
    pub fn reset_at(&mut self, name: &str, snaps: &[IfaceSnapshot], now: Instant, text: String)
        requires
            is_clock_instant(now),
        ensures
            final(self).pairs() == reset_outcome(old(self).pairs(), name@, snaps@, now, text),
            session_wf(final(self).pairs()),
    {
        proof {
            use_type_invariant(&*self);
        }
        let key = String::from_str(name);
        let found = find_snapshot(snaps, name);
        let mut entries: KeyedVec<SessionEntry> = KeyedVec::new();
        std::mem::swap(&mut entries, &mut self.entries);
        let ghost ps = entries.pairs();
        match entries.position(&key) {
            Some(j) => {
                let k = entries.key_at(j).clone();
                let e = entries.value_at(j);
                let new_e = match found {
                    Some(t) => {
                        let s = &snaps[t];
                        SessionEntry {
                            name: e.name.clone(),
                            started_at: now,
                            started_text: text.clone(),
                            initial_rx: s.rx_bytes,
                            initial_tx: s.tx_bytes,
                            current_rx: s.rx_bytes,
                            current_tx: s.tx_bytes,
                            is_up: s.is_up,
                            is_virtual: e.is_virtual,
                        }
                    },
                    None => SessionEntry {
                        name: e.name.clone(),
                        started_at: now,
                        started_text: text.clone(),
                        initial_rx: e.current_rx,
                        initial_tx: e.current_tx,
                        current_rx: e.current_rx,
                        current_tx: e.current_tx,
                        is_up: e.is_up,
                        is_virtual: e.is_virtual,
                    },
                };
                assert(new_e == restarted(ps[j as int].1, first_named(snaps@, name@), now, text));
                proof {
                    lemma_find_key(ps, k@);
                    lemma_wf_put(ps, k, new_e);
                }
                entries.insert(k, new_e);
                assert forall|q: int| 0 <= q < entries.pairs().len() implies is_clock_instant(
                    #[trigger] entries.pairs()[q].1.started_at,
                ) by {
                    if q != j {
                        assert(entries.pairs()[q] == ps[q]);
                    }
                }
            },
            None => {},
        }
        self.entries = entries;
    }

    /// Reads the clock and restarts the session of the interface `name`
    /// (its totals go back to 0), with the first of the snapshots that
    /// carries that name, if any.
    pub fn reset(&mut self, name: &str, snaps: &[IfaceSnapshot])
        ensures
            exists|now: Instant, text: String|
                is_clock_instant(now) && final(self).pairs() == #[trigger] reset_outcome(
                    old(self).pairs(),
                    name@,
                    snaps@,
                    now,
                    text,
                ),
            session_wf(final(self).pairs()),
    {
        let now = clock_now();
        let text = local_rfc3339(now);
        self.reset_at(name, snaps, now, text);
    }
}

/// The entries after the session of the interface `name` restarts at
/// `now` with the first snapshot of that name, if any; unchanged when the
/// interface is not tracked.
pub open spec fn reset_outcome(
    ps: Seq<(String, SessionEntry)>,
    name: Seq<char>,
    snaps: Seq<IfaceSnapshot>,
    now: Instant,
    text: String,
) -> Seq<(String, SessionEntry)> {
    let j = find_key(ps, name);
    if j >= 0 {
        ps.update(j, (ps[j].0, restarted(ps[j].1, first_named(snaps, name), now, text)))
    } else {
        ps
    }
}

/// The first snapshot that carries the name `name`, if any.
pub open spec fn first_named(snaps: Seq<IfaceSnapshot>, name: Seq<char>) -> Option<IfaceSnapshot>
    decreases snaps.len(),
{
    if snaps.len() == 0 {
        None
    } else {
        match first_named(snaps.drop_last(), name) {
            Some(s) => Some(s),
            None => if snaps.last().name@ == name {
                Some(snaps.last())
            } else {
                None
            },
        }
    }
}

proof fn lemma_first_named_extends(snaps: Seq<IfaceSnapshot>, name: Seq<char>, k: int)
    requires
        0 <= k <= snaps.len(),
        first_named(snaps.take(k), name) is Some,
    ensures
        first_named(snaps, name) == first_named(snaps.take(k), name),
    decreases snaps.len() - k,
{
    if k < snaps.len() {
        assert(snaps.drop_last().take(k) == snaps.take(k));
        lemma_first_named_extends(snaps.drop_last(), name, k);
    } else {
        assert(snaps.take(k) == snaps);
    }
}

/// The position of the first snapshot named `name`.
fn find_snapshot(snaps: &[IfaceSnapshot], name: &str) -> (r: Option<usize>)
    ensures
        match r {
            Some(t) => t < snaps@.len() && first_named(snaps@, name@) == Some(snaps@[t as int]),
            None => first_named(snaps@, name@) is None,
        },
{
    let key = String::from_str(name);
    let n = snaps.len();
    let mut i: usize = 0;
    assert(snaps@.take(0) == Seq::<IfaceSnapshot>::empty());
    while i < n
        invariant
            i <= n == snaps@.len(),
            key@ == name@,
            first_named(snaps@.take(i as int), name@) is None,
        decreases n - i,
    {
        assert(snaps@.take(i + 1).drop_last() == snaps@.take(i as int));
        if snaps[i].name == key {
            assert(first_named(snaps@.take(i + 1), name@) == Some(snaps@[i as int]));
            proof {
                lemma_first_named_extends(snaps@, name@, i + 1);
            }
            return Some(i);
        }
        i += 1;
    }
    assert(snaps@.take(n as int) == snaps@);
    None
}


/// The start counters of an entry never exceed its current ones.
pub open spec fn counters_ordered(e: SessionEntry) -> bool {
    e.initial_rx <= e.current_rx && e.initial_tx <= e.current_tx
}

/// Every entry has its start counters at or below its current ones.
pub open spec fn all_ordered(ps: Seq<(String, SessionEntry)>) -> bool {
    forall|i: int| 0 <= i < ps.len() ==> counters_ordered(#[trigger] ps[i].1)
}

/// A newly seen interface starts its session at the moment it is seen,
/// with nothing counted yet.
pub proof fn law_new_interface_starts_at_zero(snap: IfaceSnapshot, now: Instant, text: String)
    ensures
        absorb(None, snap, now, text).started_at == now,
        absorb(None, snap, now, text).started_text == text,
        sat_sub(absorb(None, snap, now, text).current_rx, absorb(None, snap, now, text).initial_rx) == 0,
        sat_sub(absorb(None, snap, now, text).current_tx, absorb(None, snap, now, text).initial_tx) == 0,
{
}

/// A later snapshot keeps the start and the name of a tracked interface.
pub proof fn law_known_interface_keeps_its_start(e: SessionEntry, snap: IfaceSnapshot, now: Instant, text: String)
    ensures
        absorb(Some(e), snap, now, text).started_at == e.started_at,
        absorb(Some(e), snap, now, text).started_text == e.started_text,
        absorb(Some(e), snap, now, text).name == e.name,
{
}

/// After a snapshot, the start counters never exceed the current ones: a
/// counter that rolled back restarts there instead of going negative.
pub proof fn law_snapshot_orders_counters(prev: Option<SessionEntry>, snap: IfaceSnapshot, now: Instant, text: String)
    ensures
        counters_ordered(absorb(prev, snap, now, text)),
        absorb(prev, snap, now, text).current_rx == snap.rx_bytes,
        absorb(prev, snap, now, text).current_tx == snap.tx_bytes,
{
}

/// Taking snapshots keeps every entry's counters ordered, so the reported
/// totals are the plain differences of the counters.
pub proof fn law_tick_keeps_counters_ordered(
    ps: Seq<(String, SessionEntry)>,
    snaps: Seq<IfaceSnapshot>,
    now: Instant,
    text: String,
)
    requires
        all_ordered(ps),
    ensures
        all_ordered(absorb_all(ps, snaps, now, text)),
    decreases snaps.len(),
{
    if snaps.len() > 0 {
        law_tick_keeps_counters_ordered(ps, snaps.drop_last(), now, text);
        let prev = absorb_all(ps, snaps.drop_last(), now, text);
        let r = absorb_all(ps, snaps, now, text);
        let sn = snaps.last();
        lemma_find_key(prev, sn.name@);
        let j = find_key(prev, sn.name@);
        assert forall|i: int| 0 <= i < r.len() implies counters_ordered(#[trigger] r[i].1) by {
            if j >= 0 {
                if i == j {
                    law_snapshot_orders_counters(Some(prev[j].1), sn, now, text);
                } else {
                    assert(counters_ordered(prev[i].1));
                }
            } else {
                if i < prev.len() {
                    assert(counters_ordered(prev[i].1));
                } else {
                    law_snapshot_orders_counters(None, sn, now, text);
                }
            }
        }
    }
}

/// While an interface's counters do not fall, its totals do not fall
/// either from one snapshot to the next, and its start stays.
pub proof fn law_totals_never_decrease(e: SessionEntry, snap: IfaceSnapshot, now: Instant, text: String)
    requires
        counters_ordered(e),
        snap.rx_bytes >= e.current_rx,
        snap.tx_bytes >= e.current_tx,
    ensures
        sat_sub(absorb(Some(e), snap, now, text).current_rx, absorb(Some(e), snap, now, text).initial_rx)
            >= sat_sub(e.current_rx, e.initial_rx),
        sat_sub(absorb(Some(e), snap, now, text).current_tx, absorb(Some(e), snap, now, text).initial_tx)
            >= sat_sub(e.current_tx, e.initial_tx),
        absorb(Some(e), snap, now, text).started_at == e.started_at,
{
}

proof fn lemma_find_key_update<V>(s: Seq<(String, V)>, j: int, x: (String, V), k: Seq<char>)
    requires
        0 <= j < s.len(),
        s[j].0@ != k,
        x.0@ != k,
    ensures
        find_key(s.update(j, x), k) == find_key(s, k),
    decreases s.len(),
{
    let u = s.update(j, x);
    if j < s.len() - 1 {
        assert(u.drop_last() == s.drop_last().update(j, x));
        assert(u.last() == s.last());
        lemma_find_key_update(s.drop_last(), j, x, k);
    } else {
        assert(u.drop_last() == s.drop_last());
    }
}

proof fn lemma_find_key_update_same<V>(s: Seq<(String, V)>, j: int, x: (String, V), k: Seq<char>)
    requires
        0 <= j < s.len(),
        find_key(s, k) == j,
        x.0@ == k,
    ensures
        find_key(s.update(j, x), k) == j,
    decreases s.len(),
{
    let u = s.update(j, x);
    if j < s.len() - 1 {
        assert(s.last().0@ != k);
        assert(u.drop_last() == s.drop_last().update(j, x));
        assert(u.last() == s.last());
        lemma_find_key_update_same(s.drop_last(), j, x, k);
    }
}

/// Snapshots of other interfaces leave the entry of interface `n` as it was.
proof fn lemma_absorb_all_untouched(
    ps: Seq<(String, SessionEntry)>,
    snaps: Seq<IfaceSnapshot>,
    now: Instant,
    text: String,
    n: Seq<char>,
)
    requires
        forall|u: int| 0 <= u < snaps.len() ==> #[trigger] snaps[u].name@ != n,
    ensures
        find_key(absorb_all(ps, snaps, now, text), n) == find_key(ps, n),
        find_key(ps, n) >= 0 ==> absorb_all(ps, snaps, now, text)[find_key(ps, n)] == ps[find_key(
            ps,
            n,
        )],
    decreases snaps.len(),
{
    if snaps.len() > 0 {
        let pre = snaps.drop_last();
        assert forall|u: int| 0 <= u < pre.len() implies #[trigger] pre[u].name@ != n by {
            assert(pre[u] == snaps[u]);
        }
        lemma_absorb_all_untouched(ps, pre, now, text, n);
        let prev = absorb_all(ps, pre, now, text);
        let s = snaps.last();
        assert(s.name@ != n);
        lemma_find_key(prev, s.name@);
        lemma_find_key(prev, n);
        let j = find_key(prev, s.name@);
        if j >= 0 {
            lemma_find_key_update(prev, j, (s.name, absorb(Some(prev[j].1), s, now, text)), n);
        } else {
            let q = prev.push((s.name, absorb(None, s, now, text)));
            assert(q.drop_last() == prev);
        }
    }
}

/// An interface that was not tracked and appears once among the
/// snapshots is tracked afterwards with the entry of a newly seen
/// interface: its session starts at `now` with nothing counted (see
/// `law_new_interface_starts_at_zero`).
pub proof fn law_tick_tracks_new_interface(
    ps: Seq<(String, SessionEntry)>,
    snaps: Seq<IfaceSnapshot>,
    now: Instant,
    text: String,
    t: int,
)
    requires
        0 <= t < snaps.len(),
        find_key(ps, snaps[t].name@) == -1,
        forall|u: int| 0 <= u < snaps.len() && u != t ==> #[trigger] snaps[u].name@ != snaps[t].name@,
    ensures
        ({
            let r = absorb_all(ps, snaps, now, text);
            let j = find_key(r, snaps[t].name@);
            &&& 0 <= j < r.len()
            &&& r[j].1 == absorb(None, snaps[t], now, text)
        }),
    decreases snaps.len(),
{
    let n = snaps[t].name@;
    let pre = snaps.drop_last();
    let prev = absorb_all(ps, pre, now, text);
    let s = snaps.last();
    if t == snaps.len() - 1 {
        assert forall|u: int| 0 <= u < pre.len() implies #[trigger] pre[u].name@ != n by {
            assert(pre[u] == snaps[u]);
        }
        lemma_absorb_all_untouched(ps, pre, now, text, n);
        let q = prev.push((s.name, absorb(None, s, now, text)));
        assert(q.last().0@ == n);
    } else {
        assert(pre[t] == snaps[t]);
        assert forall|u: int| 0 <= u < pre.len() && u != t implies #[trigger] pre[u].name@
            != pre[t].name@ by {
            assert(pre[u] == snaps[u]);
        }
        law_tick_tracks_new_interface(ps, pre, now, text, t);
        let i = find_key(prev, n);
        lemma_find_key(prev, n);
        assert(s.name@ != n);
        lemma_find_key(prev, s.name@);
        let j = find_key(prev, s.name@);
        if j >= 0 {
            lemma_find_key_update(prev, j, (s.name, absorb(Some(prev[j].1), s, now, text)), n);
            assert(i != j);
        } else {
            let q = prev.push((s.name, absorb(None, s, now, text)));
            assert(q.drop_last() == prev);
            assert(q[i] == prev[i]);
        }
    }
}

/// Across a tick, a tracked interface that appears once among the
/// snapshots keeps its start, and while its counters do not fall its
/// totals do not fall either; the rollback of a counter restarts that
/// counter's total at 0 instead of going negative (see `absorb`).
pub proof fn law_tick_totals_never_decrease(
    ps: Seq<(String, SessionEntry)>,
    snaps: Seq<IfaceSnapshot>,
    now: Instant,
    text: String,
    t: int,
)
    requires
        0 <= t < snaps.len(),
        find_key(ps, snaps[t].name@) >= 0,
        counters_ordered(ps[find_key(ps, snaps[t].name@)].1),
        snaps[t].rx_bytes >= ps[find_key(ps, snaps[t].name@)].1.current_rx,
        snaps[t].tx_bytes >= ps[find_key(ps, snaps[t].name@)].1.current_tx,
        forall|u: int| 0 <= u < snaps.len() && u != t ==> #[trigger] snaps[u].name@ != snaps[t].name@,
    ensures
        ({
            let n = snaps[t].name@;
            let e0 = ps[find_key(ps, n)].1;
            let r = absorb_all(ps, snaps, now, text);
            let j = find_key(r, n);
            &&& j == find_key(ps, n)
            &&& r[j].1 == absorb(Some(e0), snaps[t], now, text)
            &&& r[j].1.started_at == e0.started_at
            &&& r[j].1.started_text == e0.started_text
            &&& sat_sub(r[j].1.current_rx, r[j].1.initial_rx) >= sat_sub(e0.current_rx, e0.initial_rx)
            &&& sat_sub(r[j].1.current_tx, r[j].1.initial_tx) >= sat_sub(e0.current_tx, e0.initial_tx)
        }),
    decreases snaps.len(),
{
    let n = snaps[t].name@;
    let i0 = find_key(ps, n);
    let e0 = ps[i0].1;
    let pre = snaps.drop_last();
    let prev = absorb_all(ps, pre, now, text);
    let s = snaps.last();
    law_totals_never_decrease(e0, snaps[t], now, text);
    if t == snaps.len() - 1 {
        assert forall|u: int| 0 <= u < pre.len() implies #[trigger] pre[u].name@ != n by {
            assert(pre[u] == snaps[u]);
        }
        lemma_absorb_all_untouched(ps, pre, now, text, n);
        assert(find_key(prev, s.name@) == i0);
        lemma_find_key(prev, n);
        lemma_find_key_update_same(prev, i0, (s.name, absorb(Some(prev[i0].1), s, now, text)), n);
    } else {
        assert(pre[t] == snaps[t]);
        assert forall|u: int| 0 <= u < pre.len() && u != t implies #[trigger] pre[u].name@
            != pre[t].name@ by {
            assert(pre[u] == snaps[u]);
        }
        law_tick_totals_never_decrease(ps, pre, now, text, t);
        lemma_find_key(prev, n);
        assert(s.name@ != n);
        lemma_find_key(prev, s.name@);
        let j = find_key(prev, s.name@);
        if j >= 0 {
            lemma_find_key_update(prev, j, (s.name, absorb(Some(prev[j].1), s, now, text)), n);
            assert(i0 != j);
        } else {
            let q = prev.push((s.name, absorb(None, s, now, text)));
            assert(q.drop_last() == prev);
            assert(q[i0] == prev[i0]);
        }
    }
}

/// A report is determined by its entry: two reports of one session state
/// are equal, so `current` gives the same list until the state changes,
/// and the list that `tick` returned.
pub proof fn law_reports_are_determined(s1: IfaceSession, s2: IfaceSession, e: SessionEntry)
    requires
        reports(s1, e),
        reports(s2, e),
    ensures
        s1 == s2,
{
}

/// Restarting an interface's session starts it at `now` with both totals
/// back at 0.
pub proof fn law_restart_zeroes_totals(e: SessionEntry, snap: Option<IfaceSnapshot>, now: Instant, text: String)
    ensures
        restarted(e, snap, now, text).started_at == now,
        restarted(e, snap, now, text).started_text == text,
        sat_sub(restarted(e, snap, now, text).current_rx, restarted(e, snap, now, text).initial_rx) == 0,
        sat_sub(restarted(e, snap, now, text).current_tx, restarted(e, snap, now, text).initial_tx) == 0,
        counters_ordered(restarted(e, snap, now, text)),
{
}

/// Restarting one interface leaves the others as they were.
pub proof fn law_restart_touches_one_interface(
    ps: Seq<(String, SessionEntry)>,
    name: Seq<char>,
    snaps: Seq<IfaceSnapshot>,
    now: Instant,
    text: String,
    i: int,
)
    requires
        0 <= i < ps.len(),
        ps[i].0@ != name,
    ensures
        reset_outcome(ps, name, snaps, now, text).len() == ps.len(),
        reset_outcome(ps, name, snaps, now, text)[i] == ps[i],
{
    lemma_find_key(ps, name);
}

} // verus!
