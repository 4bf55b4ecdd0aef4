use jackynet::vnstat::{interfaces_from_json, usage_from_output, Json, JsonNumber};

fn num(n: u64) -> Json {
    Json::Number(JsonNumber { as_u64: Some(n), as_i64: i64::try_from(n).ok() })
}

fn obj(members: Vec<(&str, Json)>) -> Json {
    Json::Object(members.into_iter().map(|(k, v)| (k.to_string(), v)).collect())
}

fn day(y: u64, m: u64, d: Option<u64>, rx: u64, tx: u64) -> Json {
    let mut date = vec![("year", num(y)), ("month", num(m))];
    if let Some(d) = d {
        date.push(("day", num(d)));
    }
    obj(vec![("date", obj(date)), ("rx", num(rx)), ("tx", num(tx))])
}

#[test]
fn reads_interfaces_totals_and_entries_newest_first() {
    let doc = obj(vec![(
        "interfaces",
        Json::Array(vec![obj(vec![
            ("name", Json::Str("wlan0".to_string())),
            (
                "traffic",
                obj(vec![
                    ("total", obj(vec![("rx", num(1000)), ("tx", num(200))])),
                    ("day", Json::Array(vec![day(2024, 5, Some(1), 1, 2), day(2024, 5, Some(3), 3, 4), day(2024, 4, Some(30), 5, 6)])),
                    ("month", Json::Array(vec![day(2024, 4, None, 7, 8), day(2024, 5, None, 9, 10)])),
                ]),
            ),
        ])]),
    )]);
    let r = interfaces_from_json(&doc);
    assert_eq!(r.len(), 1);
    assert_eq!(r[0].name, "wlan0");
    assert_eq!((r[0].total_rx, r[0].total_tx), (1000, 200));
    let days: Vec<&str> = r[0].daily.iter().map(|e| e.date.as_str()).collect();
    assert_eq!(days, vec!["2024-05-03", "2024-05-01", "2024-04-30"]);
    assert_eq!((r[0].daily[0].rx, r[0].daily[0].tx), (3, 4));
    let months: Vec<&str> = r[0].monthly.iter().map(|e| e.date.as_str()).collect();
    assert_eq!(months, vec!["2024-05", "2024-04"]);
}

#[test]
fn missing_fields_take_defaults() {
    let doc = obj(vec![(
        "interfaces",
        Json::Array(vec![
            obj(vec![]),
            obj(vec![("traffic", obj(vec![("day", Json::Array(vec![obj(vec![("rx", Json::Str("x".to_string()))]), obj(vec![("date", obj(vec![("year", num(7))]))])]))]))]),
        ]),
    )]);
    let r = interfaces_from_json(&doc);
    assert_eq!(r.len(), 2);
    assert_eq!(r[0].name, "?");
    assert_eq!((r[0].total_rx, r[0].total_tx), (0, 0));
    assert!(r[0].daily.is_empty() && r[0].monthly.is_empty());
    let dates: Vec<&str> = r[1].daily.iter().map(|e| e.date.as_str()).collect();
    assert_eq!(dates, vec!["?", "0007-00"]);
    assert_eq!(r[1].daily[0].rx, 0);
}

#[test]
fn equal_dates_keep_their_order() {
    let doc = obj(vec![(
        "interfaces",
        Json::Array(vec![obj(vec![(
            "traffic",
            obj(vec![("day", Json::Array(vec![day(2024, 1, Some(1), 1, 0), day(2024, 1, Some(2), 2, 0), day(2024, 1, Some(1), 3, 0)]))]),
        )])]),
    )]);
    let r = interfaces_from_json(&doc);
    let rx: Vec<u64> = r[0].daily.iter().map(|e| e.rx).collect();
    assert_eq!(rx, vec![2, 1, 3]);
}

#[test]
fn documents_without_interfaces() {
    assert!(interfaces_from_json(&Json::Null).is_empty());
    assert!(interfaces_from_json(&obj(vec![("interfaces", Json::Bool(true))])).is_empty());
}

#[test]
fn reads_the_output_of_vnstat() {
    let out = br#"{"vnstatversion":"2.9","interfaces":[{"name":"eth0","traffic":{"total":{"rx":500,"tx":70},
        "day":[{"id":1,"date":{"year":2024,"month":1,"day":9},"rx":5,"tx":6},
               {"id":2,"date":{"year":2024,"month":1,"day":10},"rx":7,"tx":8}],
        "month":[{"id":3,"date":{"year":2024,"month":1},"rx":12,"tx":14}]}}]}"#;
    let usage = usage_from_output(out).expect("a JSON document");
    assert_eq!(usage.len(), 1);
    assert_eq!(usage[0].name, "eth0");
    assert_eq!((usage[0].total_rx, usage[0].total_tx), (500, 70));
    let days: Vec<&str> = usage[0].daily.iter().map(|e| e.date.as_str()).collect();
    assert_eq!(days, vec!["2024-01-10", "2024-01-09"]);
    assert_eq!((usage[0].daily[0].rx, usage[0].daily[0].tx), (7, 8));
    assert_eq!(usage[0].monthly[0].date, "2024-01");
    assert!(usage_from_output(b"vnstat: database error").is_none());
    assert_eq!(usage_from_output(b"{}").map(|u| u.len()), Some(0));
}
