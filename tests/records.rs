use substreams_timeseries::table::{record_writes, Attribute};
use std::collections::HashMap;
use substreams_timeseries::keys::metric_keys;
use substreams_timeseries::record::{decode_key, group_field_name, grouping_values, plan_delta, record_id, RecordPlan};

fn strings(v: &[&str]) -> Vec<String> {
    v.iter().map(|s| s.to_string()).collect()
}

fn pairs(v: &[(&str, &str)]) -> Vec<(String, String)> {
    v.iter().map(|(a, b)| (a.to_string(), b.to_string())).collect()
}

/// A plain output table: (record id, attribute) to text.
fn materialize(table: &mut HashMap<(String, String), String>, deltas: &[(&str, i64)], fields: &Vec<String>) {
    for (key, value) in deltas {
        if let Some(p) = plan_delta(key, fields) {
            table.insert((p.id.clone(), "interval".to_string()), p.interval.clone());
            table.insert((p.id.clone(), "timestamp".to_string()), p.timestamp.clone());
            table.insert((p.id.clone(), p.metric.clone()), value.to_string());
            for (f, g) in p.groups {
                table.insert((p.id.clone(), f), g);
            }
        }
    }
}

#[test]
fn day_delta_without_groupings() {
    let p: RecordPlan = plan_delta("pool:day:86400:volume", &Vec::new()).unwrap();
    assert_eq!(p.entity, "pool");
    assert_eq!(p.id, "86400-day");
    assert_eq!(p.interval, "day");
    assert_eq!(p.timestamp, "86400");
    assert_eq!(p.metric, "volume");
    assert!(p.groups.is_empty());
}

#[test]
fn total_delta_has_timestamp_zero() {
    let p = plan_delta("pool:total:volume", &Vec::new()).unwrap();
    assert_eq!(p.id, "0-total");
    assert_eq!(p.timestamp, "0");
    assert_eq!(p.metric, "volume");
}

#[test]
fn groupings_get_names_and_synthetic_fallback() {
    let p = plan_delta("pool:hour:3600:volume:usdc:eth:buy", &strings(&["asset"])).unwrap();
    assert_eq!(p.id, "3600-hour-usdc-eth-buy");
    assert_eq!(p.groups, pairs(&[("asset", "usdc"), ("group2", "eth"), ("group3", "buy")]));
    let q = plan_delta("pool:total:volume:usdc:eth", &strings(&["asset", "quote", "side"])).unwrap();
    assert_eq!(q.groups, pairs(&[("asset", "usdc"), ("quote", "eth")]));
    let r = plan_delta("pool:total:volume:usdc", &Vec::new()).unwrap();
    assert_eq!(r.groups, pairs(&[("group1", "usdc")]));
}

#[test]
fn group_field_names() {
    let fields = strings(&["asset", "side"]);
    assert_eq!(group_field_name(0, &fields), "asset");
    assert_eq!(group_field_name(1, &fields), "side");
    assert_eq!(group_field_name(2, &fields), "group3");
    assert_eq!(group_field_name(9, &Vec::new()), "group10");
}

#[test]
fn malformed_keys_are_skipped() {
    assert!(plan_delta("", &Vec::new()).is_none());
    assert!(plan_delta("pool", &Vec::new()).is_none());
    assert!(plan_delta("pool:total", &Vec::new()).is_none());
    assert!(plan_delta("pool:day:86400", &Vec::new()).is_none());
    assert!(plan_delta("pool:hour:3600", &Vec::new()).is_none());
    assert!(plan_delta("pool:week:0:volume", &Vec::new()).is_none());
    assert!(decode_key("pool:Total:volume").is_none());
}

#[test]
fn decode_splits_segments() {
    let d = decode_key("pool:day:0:volume:a:b").unwrap();
    assert_eq!(d.entity, "pool");
    assert_eq!(d.interval, "day");
    assert_eq!(d.timestamp, "0");
    assert_eq!(d.metric, "volume");
    assert_eq!(d.grouping, "a-b");
    assert_eq!(record_id(&d), "0-day-a-b");
    assert_eq!(grouping_values(&d.grouping), strings(&["a", "b"]));
    assert!(grouping_values("").is_empty());
}

#[test]
fn keys_round_trip_through_decoding() {
    let groups = strings(&["usdc", "eth"]);
    let keys = metric_keys("pool", 90000, "volume", &groups);
    let expected = [("total", "0"), ("day", "86400"), ("hour", "90000")];
    for (key, (interval, ts)) in keys.iter().zip(expected) {
        let d = decode_key(key).unwrap();
        assert_eq!(d.entity, "pool");
        assert_eq!(d.interval, interval);
        assert_eq!(d.timestamp, ts);
        assert_eq!(d.metric, "volume");
        assert_eq!(grouping_values(&d.grouping), groups);
    }
    let bare = metric_keys("pool", 0, "volume", &Vec::new());
    for key in bare {
        assert!(decode_key(&key).unwrap().grouping.is_empty());
    }
}

#[test]
fn replaying_deltas_changes_nothing() {
    let deltas = [
        ("pool:day:86400:volume", 50),
        ("pool:day:86400:volume", 70),
        ("pool:total:fees:usdc", 3),
        ("broken", 9),
        ("pool:hour:90000:volume:usdc", 5),
    ];
    let fields = strings(&["asset"]);
    let mut once = HashMap::new();
    materialize(&mut once, &deltas, &fields);
    let mut twice = once.clone();
    materialize(&mut twice, &deltas, &fields);
    assert_eq!(once, twice);
    assert_eq!(once[&("86400-day".to_string(), "volume".to_string())], "70");
    assert_eq!(once[&("0-total-usdc".to_string(), "asset".to_string())], "usdc");
}

#[test]
fn colons_inside_fields_are_written_verbatim() {
    // no escaping: a colon inside a field shifts the segments when decoding
    let keys = metric_keys("a:b", 0, "volume", &Vec::new());
    assert_eq!(keys[0], "a:b:total:volume");
    assert!(decode_key(&keys[0]).is_none());
    let d = decode_key(&metric_keys("pool", 0, "fee:rate", &Vec::new())[0]).unwrap();
    assert_eq!(d.metric, "fee");
    assert_eq!(d.grouping, "rate");
}

#[test]
fn record_writes_follow_the_plan() {
    let p = plan_delta("pool:hour:3600:volume:usdc", &strings(&["asset"])).unwrap();
    let ws = record_writes(&p);
    assert_eq!(ws.len(), 4);
    assert!(ws.iter().all(|w| w.id == "3600-hour-usdc"));
    let names: Vec<&str> = ws.iter().map(|w| w.name.as_str()).collect();
    assert_eq!(names, vec!["interval", "timestamp", "volume", "asset"]);
    assert!(matches!(&ws[0].value, Attribute::Interval(s) if s == "hour"));
    assert!(matches!(&ws[1].value, Attribute::Timestamp(s) if s == "3600"));
    assert!(matches!(&ws[2].value, Attribute::Metric(s) if s == "volume"));
    assert!(matches!(&ws[3].value, Attribute::Group(f, g) if f == "asset" && g == "usdc"));
}
