//! The traffic that `vnstat --json` records per interface: totals and the
//! daily and monthly entries, newest first.

use vstd::prelude::*;
use serde_json::Value;
use crate::keyed::{find_key, lemma_find_key};
use crate::text::{all_digits, digits_value, pow10, lemma_padded_decimal, lemma_lex_digits, lemma_lex_concat, lemma_lex_irreflexive, lemma_lex_asymmetric, lemma_lex_transitive, lemma_lex_total, padded_decimal, padded_decimal_chars, string_from_chars, to_chars, chars_lt, lex_lt};

verus! {

broadcast use vstd::string::group_string_axioms;

/// What a JSON number is read as: `as_u64` and `as_i64` of the number.
pub struct JsonNumber {
    pub as_u64: Option<u64>,
    pub as_i64: Option<i64>,
}

/// A JSON document, as much of it as the readers below look at; an
/// object's keys are distinct.
pub enum Json {
    Null,
    Bool(bool),
    Number(JsonNumber),
    Str(String),
    Array(Vec<Json>),
    Object(Vec<(String, Json)>),
}

/// The member `key` of an object (`Value::get`); nothing for other values.
pub open spec fn json_get(v: Json, key: Seq<char>) -> Option<Json> {
    match v {
        Json::Object(m) => if find_key(m@, key) >= 0 {
            Some(m@[find_key(m@, key)].1)
        } else {
            None
        },
        _ => None,
    }
}

/// The member `key` of an optional value.
pub open spec fn opt_get(v: Option<Json>, key: Seq<char>) -> Option<Json> {
    match v {
        Some(x) => json_get(x, key),
        None => None,
    }
}

/// The value as a `u64`, if it is a number that is one (`Value::as_u64`).
pub open spec fn opt_u64(v: Option<Json>) -> Option<u64> {
    match v {
        Some(Json::Number(n)) => n.as_u64,
        _ => None,
    }
}

/// The value as an `i64`, if it is a number that is one (`Value::as_i64`).
pub open spec fn opt_i64(v: Option<Json>) -> Option<i64> {
    match v {
        Some(Json::Number(n)) => n.as_i64,
        _ => None,
    }
}

/// `o`, or 0.
pub open spec fn or_zero_u64(o: Option<u64>) -> u64 {
    match o {
        Some(x) => x,
        None => 0,
    }
}

/// `o`, or 0.
pub open spec fn or_zero_i64(o: Option<i64>) -> i64 {
    match o {
        Some(x) => x,
        None => 0,
    }
}

/// The position of the member `key` in an object's members.
fn member_index(m: &Vec<(String, Json)>, key: &str) -> (r: Option<usize>)
    ensures
        match r {
            Some(j) => j < m@.len() && find_key(m@, key@) == j,
            None => find_key(m@, key@) == -1,
        },
{
    let k = String::from_str(key);
    let mut j = m.len();
    assert(m@.take(j as int) == m@);
    while j > 0
        invariant
            j <= m@.len(),
            k@ == key@,
            find_key(m@, key@) == find_key(m@.take(j as int), key@),
        decreases j,
    {
        assert(m@.take(j as int).drop_last() == m@.take(j - 1));
        if m[j - 1].0 == k {
            return Some(j - 1);
        }
        j -= 1;
    }
    None
}

/// The member `key` of a value.
pub fn get<'a>(v: Option<&'a Json>, key: &str) -> (r: Option<&'a Json>)
    ensures
        opt_deref(r) == opt_get(opt_deref(v), key@),
{
    match v {
        Some(Json::Object(m)) => {
            assert(m@.take(m@.len() as int) == m@);
            match member_index(m, key) {
                Some(j) => Some(&m[j].1),
                None => None,
            }
        },
        _ => None,
    }
}

/// The value an optional reference points to.
pub open spec fn opt_deref(v: Option<&Json>) -> Option<Json> {
    match v {
        Some(x) => Some(*x),
        None => None,
    }
}

/// A value as a `u64`.
pub fn as_u64(v: Option<&Json>) -> (r: Option<u64>)
    ensures
        r == opt_u64(opt_deref(v)),
{
    match v {
        Some(Json::Number(n)) => n.as_u64,
        _ => None,
    }
}

/// A value as an `i64`.
pub fn as_i64(v: Option<&Json>) -> (r: Option<i64>)
    ensures
        r == opt_i64(opt_deref(v)),
{
    match v {
        Some(Json::Number(n)) => n.as_i64,
        _ => None,
    }
}


/// The items of an array value, if it is one (`Value::as_array`).
pub open spec fn opt_array(v: Option<Json>) -> Option<Seq<Json>> {
    match v {
        Some(Json::Array(a)) => Some(a@),
        _ => None,
    }
}

/// Traffic recorded for one day or month.
pub struct UsageEntry {
    /// "YYYY-MM-DD" or "YYYY-MM", or "?" when the entry has no date.
    pub date: String,
    pub rx: u64,
    pub tx: u64,
}

/// The view of an entry: its date text and its counters.
pub open spec fn usage_view(u: UsageEntry) -> (Seq<char>, u64, u64) {
    (u.date@, u.rx, u.tx)
}

/// The views of a sequence of entries.
pub open spec fn usage_views(s: Seq<UsageEntry>) -> Seq<(Seq<char>, u64, u64)> {
    Seq::new(s.len(), |i: int| usage_view(s[i]))
}

/// How vnstat's date object is written: the year with four digits, the
/// month with two and, when there is a day, the day with two, joined by
/// '-'; a part that is missing or not an integer counts as 0.
pub open spec fn date_text(d: Json) -> Seq<char> {
    let y = or_zero_i64(opt_i64(json_get(d, "year"@)));
    let m = or_zero_i64(opt_i64(json_get(d, "month"@)));
    let head = padded_decimal(y as int, 4) + seq!['-'] + padded_decimal(m as int, 2);
    match opt_i64(json_get(d, "day"@)) {
        Some(dd) => head + seq!['-'] + padded_decimal(dd as int, 2),
        None => head,
    }
}


/// A calendar date that vnstat's date object holds: year, month and day
/// as integers in their ranges.
pub open spec fn calendar_date(d: Json, y: int, m: int, dd: int) -> bool {
    &&& opt_i64(json_get(d, "year"@)) == Some(y as i64)
    &&& opt_i64(json_get(d, "month"@)) == Some(m as i64)
    &&& opt_i64(json_get(d, "day"@)) == Some(dd as i64)
    &&& 0 <= y <= 9999
    &&& 1 <= m <= 12
    &&& 1 <= dd <= 31
}

/// `t` holds the digits of `v` from position `from` to `to`.
pub open spec fn digits_at(t: Seq<char>, from: int, to: int, v: int) -> bool {
    &&& all_digits(t.subrange(from, to))
    &&& digits_value(t.subrange(from, to)) == v
}

/// The date of a day is written YYYY-MM-DD: ten characters, four digits of
/// the year, a '-', two digits of the month, a '-', two digits of the day.
pub proof fn law_day_date_text(d: Json, y: int, m: int, dd: int)
    requires
        calendar_date(d, y, m, dd),
    ensures
        date_text(d).len() == 10,
        date_text(d)[4] == '-',
        date_text(d)[7] == '-',
        digits_at(date_text(d), 0, 4, y),
        digits_at(date_text(d), 5, 7, m),
        digits_at(date_text(d), 8, 10, dd),
{
    reveal_with_fuel(pow10, 5);
    lemma_padded_decimal(y, 4);
    lemma_padded_decimal(m, 2);
    lemma_padded_decimal(dd, 2);
    let t = date_text(d);
    let py = padded_decimal(y, 4);
    let pm = padded_decimal(m, 2);
    let pd = padded_decimal(dd, 2);
    assert(t == py + seq!['-'] + pm + seq!['-'] + pd);
    assert(t.subrange(0, 4) == py);
    assert(t.subrange(5, 7) == pm);
    assert(t.subrange(8, 10) == pd);
}

/// The date of a month is written YYYY-MM: seven characters, four digits
/// of the year, a '-', two digits of the month.
pub proof fn law_month_date_text(d: Json, y: int, m: int)
    requires
        opt_i64(json_get(d, "year"@)) == Some(y as i64),
        opt_i64(json_get(d, "month"@)) == Some(m as i64),
        opt_i64(json_get(d, "day"@)) is None,
        0 <= y <= 9999,
        1 <= m <= 12,
    ensures
        date_text(d).len() == 7,
        date_text(d)[4] == '-',
        digits_at(date_text(d), 0, 4, y),
        digits_at(date_text(d), 5, 7, m),
{
    reveal_with_fuel(pow10, 5);
    lemma_padded_decimal(y, 4);
    lemma_padded_decimal(m, 2);
    let t = date_text(d);
    let py = padded_decimal(y, 4);
    let pm = padded_decimal(m, 2);
    assert(t == py + seq!['-'] + pm);
    assert(t.subrange(0, 4) == py);
    assert(t.subrange(5, 7) == pm);
}


/// `(y1, m1, d1)` is an earlier calendar day than `(y2, m2, d2)`.
pub open spec fn earlier_day(y1: int, m1: int, d1: int, y2: int, m2: int, d2: int) -> bool {
    y1 < y2 || (y1 == y2 && (m1 < m2 || (m1 == m2 && d1 < d2)))
}

/// The order in which day entries are sorted is the calendar order: the
/// date text of one day comes before that of another exactly when the
/// first day is earlier; with `law_entries_newest_first`, later days come
/// first.
pub proof fn law_day_dates_sort_by_calendar(
    d1: Json,
    y1: int,
    m1: int,
    dd1: int,
    d2: Json,
    y2: int,
    m2: int,
    dd2: int,
)
    requires
        calendar_date(d1, y1, m1, dd1),
        calendar_date(d2, y2, m2, dd2),
    ensures
        lex_lt(date_text(d1), date_text(d2)) == earlier_day(y1, m1, dd1, y2, m2, dd2),
{
    reveal_with_fuel(pow10, 5);
    lemma_padded_decimal(y1, 4);
    lemma_padded_decimal(m1, 2);
    lemma_padded_decimal(dd1, 2);
    lemma_padded_decimal(y2, 4);
    lemma_padded_decimal(m2, 2);
    lemma_padded_decimal(dd2, 2);
    let ya = padded_decimal(y1, 4);
    let ma = padded_decimal(m1, 2);
    let da = padded_decimal(dd1, 2);
    let yb = padded_decimal(y2, 4);
    let mb = padded_decimal(m2, 2);
    let db = padded_decimal(dd2, 2);
    let dash = seq!['-'];
    assert(date_text(d1) == ya + (dash + (ma + (dash + da))));
    assert(date_text(d2) == yb + (dash + (mb + (dash + db))));
    lemma_lex_digits(ya, yb);
    lemma_lex_digits(ma, mb);
    lemma_lex_digits(da, db);
    lemma_lex_concat(ya, yb, dash + (ma + (dash + da)), dash + (mb + (dash + db)));
    lemma_lex_concat(dash, dash, ma + (dash + da), mb + (dash + db));
    lemma_lex_concat(ma, mb, dash + da, dash + db);
    lemma_lex_concat(dash, dash, da, db);
    crate::text::lemma_lex_irreflexive(ya);
    crate::text::lemma_lex_irreflexive(ma);
}

/// The view of the entry that an item of vnstat's day or month list gives:
/// its date ("?" without one) and its `rx` and `tx` (0 when missing).
pub open spec fn entry_view(e: Json) -> (Seq<char>, u64, u64) {
    (
        match json_get(e, "date"@) {
            Some(d) => date_text(d),
            None => "?"@,
        },
        or_zero_u64(opt_u64(json_get(e, "rx"@))),
        or_zero_u64(opt_u64(json_get(e, "tx"@))),
    )
}

/// Where an entry goes among entries sorted newest first: before the first
/// one with an earlier date, so that entries of equal dates keep their
/// order.
pub open spec fn insert_at(r: Seq<(Seq<char>, u64, u64)>, x: (Seq<char>, u64, u64)) -> int
    decreases r.len(),
{
    if r.len() == 0 {
        0
    } else if lex_lt(r[0].0, x.0) {
        0
    } else {
        1 + insert_at(r.drop_first(), x)
    }
}

/// The entries sorted by date, newest first, entries of equal dates in
/// their original order (a stable sort on the date text, descending).
pub open spec fn sort_desc(s: Seq<(Seq<char>, u64, u64)>) -> Seq<(Seq<char>, u64, u64)>
    decreases s.len(),
{
    if s.len() == 0 {
        s
    } else {
        let r = sort_desc(s.drop_last());
        r.insert(insert_at(r, s.last()), s.last())
    }
}

proof fn lemma_insert_at_skip(r: Seq<(Seq<char>, u64, u64)>, x: (Seq<char>, u64, u64), k: int)
    requires
        0 <= k <= r.len(),
        forall|i: int| 0 <= i < k ==> !lex_lt(#[trigger] r[i].0, x.0),
    ensures
        insert_at(r, x) == k + insert_at(r.skip(k), x),
    decreases k,
{
    if k > 0 {
        assert(r.drop_first().skip(k - 1) == r.skip(k));
        assert forall|i: int| 0 <= i < k - 1 implies !lex_lt(#[trigger] r.drop_first()[i].0, x.0) by {
            assert(r.drop_first()[i] == r[i + 1]);
        }
        lemma_insert_at_skip(r.drop_first(), x, k - 1);
    } else {
        assert(r.skip(0) == r);
    }
}

/// Appends the characters of `more` to `text`.
fn append_chars(text: &mut Vec<char>, more: &Vec<char>)
    ensures
        final(text)@ == old(text)@ + more@,
{
    let ghost t0 = text@;
    for i in 0..more.len()
        invariant
            text@ == t0 + more@.take(i as int),
    {
        text.push(more[i]);
        assert(more@.take(i + 1) == more@.take(i as int).push(more@[i as int]));
    }
    assert(more@.take(more@.len() as int) == more@);
}

/// The text of vnstat's date object.
pub fn date_of(d: &Json) -> (r: String)
    ensures
        r@ == date_text(*d),
{
    let y = match as_i64(get(Some(d), "year")) {
        Some(x) => x,
        None => 0,
    };
    let m = match as_i64(get(Some(d), "month")) {
        Some(x) => x,
        None => 0,
    };
    let mut text = padded_decimal_chars(y, 4);
    text.push('-');
    append_chars(&mut text, &padded_decimal_chars(m, 2));
    match as_i64(get(Some(d), "day")) {
        Some(dd) => {
            text.push('-');
            append_chars(&mut text, &padded_decimal_chars(dd, 2));
        },
        None => {},
    }
    string_from_chars(text.as_slice())
}

/// The entry of an item of vnstat's day or month list.
pub fn entry_of(e: &Json) -> (r: UsageEntry)
    ensures
        usage_view(r) == entry_view(*e),
{
    let rx = match as_u64(get(Some(e), "rx")) {
        Some(x) => x,
        None => 0,
    };
    let tx = match as_u64(get(Some(e), "tx")) {
        Some(x) => x,
        None => 0,
    };
    let date = match get(Some(e), "date") {
        Some(d) => date_of(d),
        None => String::from_str("?"),
    };
    UsageEntry { date, rx, tx }
}

/// The entries of the list `key` ("day" or "month") of an interface's
/// traffic, newest first; none when there is no such list.
pub fn extract_entries(traffic: Option<&Json>, key: &str) -> (r: Vec<UsageEntry>)
    ensures
        usage_views(r@) == sort_desc(
            match opt_array(opt_get(opt_deref(traffic), key@)) {
                Some(a) => Seq::new(a.len(), |i: int| entry_view(a[i])),
                None => Seq::<(Seq<char>, u64, u64)>::empty(),
            },
        ),
{
    let mut out: Vec<UsageEntry> = Vec::new();
    let list = get(traffic, key);
    match list {
        Some(Json::Array(items)) => {
            let ghost src = Seq::new(items@.len(), |i: int| entry_view(items@[i]));
            assert(src.take(0) == Seq::<(Seq<char>, u64, u64)>::empty());
            for i in 0..items.len()
                invariant
                    src == Seq::new(items@.len(), |i: int| entry_view(items@[i])),
                    usage_views(out@) == sort_desc(src.take(i as int)),
            {
                let x = entry_of(&items[i]);
                let xd = to_chars(x.date.as_str());
                let ghost r = usage_views(out@);
                assert(src.take(i + 1).drop_last() == src.take(i as int));
                assert(src.take(i + 1).last() == usage_view(x));
                let mut k: usize = 0;
                assert(r.skip(0) == r);
                while k < out.len() && !chars_lt(&to_chars(out[k].date.as_str()), &xd)
                    invariant
                        k <= out@.len(),
                        r == usage_views(out@),
                        xd@ == x.date@,
                        forall|q: int| 0 <= q < k ==> !lex_lt(#[trigger] r[q].0, usage_view(x).0),
                    decreases out@.len() - k,
                {
                    k += 1;
                }
                proof {
                    lemma_insert_at_skip(r, usage_view(x), k as int);
                    if k < out@.len() {
                        assert(r.skip(k as int)[0] == r[k as int]);
                    }
                }
                let ghost before = out@;
                out.insert(k, x);
                assert(usage_views(out@) == r.insert(k as int, usage_view(x)));
            }
            assert(src.take(items@.len() as int) == src);
        },
        _ => {},
    }
    out
}


/// What vnstat recorded for one interface.
pub struct InterfaceUsage {
    pub name: String,
    pub total_rx: u64,
    pub total_tx: u64,
    /// Days, newest first.
    pub daily: Vec<UsageEntry>,
    /// Months, newest first.
    pub monthly: Vec<UsageEntry>,
}

/// The name of an interface object ("?" without a text `name`).
pub open spec fn iface_name(iface: Json) -> Seq<char> {
    match json_get(iface, "name"@) {
        Some(Json::Str(s)) => s@,
        _ => "?"@,
    }
}

/// The list `key` of an interface's traffic, as entry views, newest first.
pub open spec fn traffic_entries(iface: Json, key: Seq<char>) -> Seq<(Seq<char>, u64, u64)> {
    sort_desc(
        match opt_array(opt_get(json_get(iface, "traffic"@), key)) {
            Some(a) => Seq::new(a.len(), |i: int| entry_view(a[i])),
            None => Seq::<(Seq<char>, u64, u64)>::empty(),
        },
    )
}

/// `u` is what vnstat's object `iface` says of an interface: its name, the
/// totals under `traffic.total` (0 when missing), its days and months.
pub open spec fn describes(u: InterfaceUsage, iface: Json) -> bool {
    let total = opt_get(json_get(iface, "traffic"@), "total"@);
    &&& u.name@ == iface_name(iface)
    &&& u.total_rx == or_zero_u64(opt_u64(opt_get(total, "rx"@)))
    &&& u.total_tx == or_zero_u64(opt_u64(opt_get(total, "tx"@)))
    &&& usage_views(u.daily@) == traffic_entries(iface, "day"@)
    &&& usage_views(u.monthly@) == traffic_entries(iface, "month"@)
}

/// What vnstat recorded for one interface object.
pub fn usage_of(iface: &Json) -> (r: InterfaceUsage)
    ensures
        describes(r, *iface),
{
    let name = match get(Some(iface), "name") {
        Some(Json::Str(s)) => s.clone(),
        _ => String::from_str("?"),
    };
    let traffic = get(Some(iface), "traffic");
    let total = get(traffic, "total");
    let total_rx = match as_u64(get(total, "rx")) {
        Some(x) => x,
        None => 0,
    };
    let total_tx = match as_u64(get(total, "tx")) {
        Some(x) => x,
        None => 0,
    };
    let daily = extract_entries(traffic, "day");
    let monthly = extract_entries(traffic, "month");
    InterfaceUsage { name, total_rx, total_tx, daily, monthly }
}

/// The interface objects of a `vnstat --json` document (none when it has
/// no `interfaces` list).
pub open spec fn doc_interfaces(doc: Json) -> Seq<Json> {
    match opt_array(json_get(doc, "interfaces"@)) {
        Some(a) => a,
        None => Seq::<Json>::empty(),
    }
}

/// What a `vnstat --json` document records, one item per interface in
/// the document's order.
pub fn interfaces_from_json(doc: &Json) -> (r: Vec<InterfaceUsage>)
    ensures
        r@.len() == doc_interfaces(*doc).len(),
        forall|i: int| 0 <= i < r@.len() ==> describes(#[trigger] r@[i], doc_interfaces(*doc)[i]),
{
    let mut out: Vec<InterfaceUsage> = Vec::new();
    match get(Some(doc), "interfaces") {
        Some(Json::Array(items)) => {
            for i in 0..items.len()
                invariant
                    items@ == doc_interfaces(*doc),
                    out@.len() == i,
                    forall|k: int| 0 <= k < i ==> describes(#[trigger] out@[k], items@[k]),
            {
                out.push(usage_of(&items[i]));
            }
        },
        _ => {},
    }
    out
}

/// `serde_json::Value`, carried through the parse below.
#[verifier::external_type_specification]
#[verifier::external_body]
pub struct ExJsonValue(serde_json::Value);

/// The document that `serde_json::from_slice` reads from some bytes, as a
/// `Json`, if it accepts them.
pub uninterp spec fn json_document(bytes: Seq<u8>) -> Option<Json>;

/// `serde_json::from_slice::<serde_json::Value>`, its value converted to
/// `Json` variant for variant: the result is named `json_document` of the
/// bytes and depends on nothing else; bytes that are no JSON give nothing.
#[verifier::external_body]
fn parse_json(bytes: &[u8]) -> (r: Option<Json>)
    ensures
        r == json_document(bytes@),
{
    match serde_json::from_slice::<Value>(bytes) {
        Ok(v) => Some(json_of_value(v)),
        Err(_) => None,
    }
}

/// The `Json` form of a `serde_json::Value`, one variant for another, with
/// a number read through `Number::as_u64` and `Number::as_i64`.
#[verifier::external_body]
fn json_of_value(v: Value) -> Json {
    match v {
        Value::Null => Json::Null,
        Value::Bool(b) => Json::Bool(b),
        Value::Number(n) => Json::Number(JsonNumber { as_u64: n.as_u64(), as_i64: n.as_i64() }),
        Value::String(s) => Json::Str(s),
        Value::Array(a) => Json::Array(a.into_iter().map(json_of_value).collect()),
        Value::Object(m) => Json::Object(m.into_iter().map(|(k, x)| (k, json_of_value(x))).collect()),
    }
}

/// What the output of `vnstat --json` records, one item per interface in
/// the document's order; nothing when the output is no JSON document.
pub fn usage_from_output(stdout: &[u8]) -> (r: Option<Vec<InterfaceUsage>>)
    ensures
        match json_document(stdout@) {
            Some(doc) => r matches Some(v) && v@.len() == doc_interfaces(doc).len() && forall|i: int|
                0 <= i < v@.len() ==> describes(#[trigger] v@[i], doc_interfaces(doc)[i]),
            None => r is None,
        },
{
    match parse_json(stdout) {
        Some(doc) => Some(interfaces_from_json(&doc)),
        None => None,
    }
}


/// Entries sorted newest first: no entry has an earlier date than one
/// after it.
pub open spec fn sorted_desc(r: Seq<(Seq<char>, u64, u64)>) -> bool {
    forall|i: int, j: int| 0 <= i < j < r.len() ==> !lex_lt(#[trigger] r[i].0, #[trigger] r[j].0)
}

proof fn lemma_insert_at_props(r: Seq<(Seq<char>, u64, u64)>, x: (Seq<char>, u64, u64))
    ensures
        0 <= insert_at(r, x) <= r.len(),
        forall|i: int| 0 <= i < insert_at(r, x) ==> !lex_lt(#[trigger] r[i].0, x.0),
        insert_at(r, x) < r.len() ==> lex_lt(r[insert_at(r, x)].0, x.0),
    decreases r.len(),
{
    if r.len() > 0 && !lex_lt(r[0].0, x.0) {
        lemma_insert_at_props(r.drop_first(), x);
        assert forall|i: int| 0 <= i < insert_at(r, x) implies !lex_lt(#[trigger] r[i].0, x.0) by {
            if i > 0 {
                assert(r[i] == r.drop_first()[i - 1]);
            }
        }
    }
}

/// vnstat's days and months come out newest first.
pub proof fn law_entries_newest_first(s: Seq<(Seq<char>, u64, u64)>)
    ensures
        sorted_desc(sort_desc(s)),
    decreases s.len(),
{
    if s.len() > 0 {
        law_entries_newest_first(s.drop_last());
        let r = sort_desc(s.drop_last());
        let x = s.last();
        lemma_insert_at_props(r, x);
        let k = insert_at(r, x);
        let out = r.insert(k, x);
        assert forall|i: int, j: int| 0 <= i < j < out.len() implies !lex_lt(
            #[trigger] out[i].0,
            #[trigger] out[j].0,
        ) by {
            if j < k {
                assert(out[i] == r[i] && out[j] == r[j]);
            } else if j == k {
                assert(out[i] == r[i]);
                assert(out[j] == x);
            } else if i == k {
                assert(out[i] == x);
                assert(out[j] == r[j - 1]);
                let rk = r[k].0;
                let rj = r[j - 1].0;
                lemma_lex_total(rk, rj);
                lemma_lex_transitive(rj, rk, x.0);
                lemma_lex_asymmetric(rj, x.0);
            } else if i < k {
                assert(out[i] == r[i]);
                assert(out[j] == r[j - 1]);
            } else {
                assert(out[i] == r[i - 1] && out[j] == r[j - 1]);
            }
        }
    }
}

/// Sorting vnstat's days and months loses and adds no entry.
pub proof fn law_entries_keep_all(s: Seq<(Seq<char>, u64, u64)>)
    ensures
        sort_desc(s).to_multiset() == s.to_multiset(),
    decreases s.len(),
{
    broadcast use vstd::seq_lib::to_multiset_insert, vstd::seq_lib::to_multiset_build;

    if s.len() > 0 {
        law_entries_keep_all(s.drop_last());
        let r = sort_desc(s.drop_last());
        lemma_insert_at_props(r, s.last());
        assert(s.drop_last().push(s.last()) == s);
    }
}

} // verus!
