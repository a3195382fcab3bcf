use std::collections::HashMap;
use substreams_timeseries::decimal::push_decimal;
use substreams_timeseries::keys::{bucket_start_of, expired_prefixes, metric_keys, DAY_SECONDS, HOUR_SECONDS};

fn strings(v: &[&str]) -> Vec<String> {
    v.iter().map(|s| s.to_string()).collect()
}

/// A plain accumulator: applies the evictions and additions that one write sends.
fn write(acc: &mut HashMap<String, i64>, entity: &str, t: i64, metrics: &[(&str, i64)], groups: &[&str]) {
    for p in expired_prefixes(entity, t) {
        acc.retain(|k, _| !k.starts_with(p.as_str()));
    }
    for (m, v) in metrics {
        for k in metric_keys(entity, t, m, &strings(groups)) {
            *acc.entry(k).or_insert(0) += v;
        }
    }
}

#[test]
fn decimal_text_of_signed_values() {
    for (n, text) in [(0i128, "0"), (7, "7"), (86400, "86400"), (-3600, "-3600"), (1234567890123, "1234567890123")] {
        let mut s = String::from("x");
        push_decimal(&mut s, n);
        assert_eq!(s, format!("x{}", text));
    }
}

#[test]
fn bucket_starts_round_down() {
    assert_eq!(bucket_start_of(0, DAY_SECONDS), 0);
    assert_eq!(bucket_start_of(90000, DAY_SECONDS), 86400);
    assert_eq!(bucket_start_of(90000, HOUR_SECONDS), 90000);
    assert_eq!(bucket_start_of(89999, HOUR_SECONDS), 86400);
    assert_eq!(bucket_start_of(-1, DAY_SECONDS), -86400);
    assert_eq!(bucket_start_of(-3600, HOUR_SECONDS), -3600);
    assert_eq!(bucket_start_of(i64::MAX, DAY_SECONDS), (i64::MAX as i128 / 86400) * 86400);
    assert_eq!(bucket_start_of(i64::MIN, HOUR_SECONDS), ((i64::MIN as i128 - 3599) / 3600) * 3600);
}

#[test]
fn keys_at_time_zero() {
    let keys = metric_keys("pool", 0, "volume", &Vec::new());
    assert_eq!(keys, strings(&["pool:total:volume", "pool:day:0:volume", "pool:hour:0:volume"]));
}

#[test]
fn keys_with_groupings() {
    let keys = metric_keys("pool", 90000, "volume", &strings(&["usdc", "eth"]));
    assert_eq!(
        keys,
        strings(&["pool:total:volume:usdc:eth", "pool:day:86400:volume:usdc:eth", "pool:hour:90000:volume:usdc:eth"])
    );
}

#[test]
fn expired_prefixes_are_the_previous_buckets() {
    assert_eq!(expired_prefixes("pool", 90000), strings(&["pool:day:0:", "pool:hour:86400:"]));
    assert_eq!(expired_prefixes("pool", 0), strings(&["pool:day:-86400:", "pool:hour:-3600:"]));
}

#[test]
fn two_writes_in_one_bucket_add_up() {
    let mut acc = HashMap::new();
    write(&mut acc, "pool", 100, &[("volume", 30)], &[]);
    write(&mut acc, "pool", 200, &[("volume", 12)], &[]);
    assert_eq!(acc["pool:total:volume"], 42);
    assert_eq!(acc["pool:day:0:volume"], 42);
    assert_eq!(acc["pool:hour:0:volume"], 42);
}

#[test]
fn next_day_write_evicts_previous_day() {
    let mut acc = HashMap::new();
    write(&mut acc, "pool", 0, &[("volume", 100)], &[]);
    assert_eq!(acc["pool:total:volume"], 100);
    assert_eq!(acc["pool:day:0:volume"], 100);
    assert_eq!(acc["pool:hour:0:volume"], 100);
    write(&mut acc, "pool", 90000, &[("volume", 50)], &[]);
    assert_eq!(acc["pool:total:volume"], 150);
    assert_eq!(acc["pool:day:86400:volume"], 50);
    assert_eq!(acc["pool:hour:90000:volume"], 50);
    assert!(!acc.contains_key("pool:day:0:volume"));
}

#[test]
fn eviction_lags_one_bucket() {
    let mut acc = HashMap::new();
    write(&mut acc, "pool", 0, &[("volume", 1)], &["usdc"]);
    write(&mut acc, "pool", 86400, &[("volume", 2)], &[]);
    assert!(!acc.contains_key("pool:day:0:volume:usdc"));
    assert_eq!(acc["pool:day:86400:volume"], 2);
    // two days on, the day in between goes and day zero is long gone
    write(&mut acc, "pool", 2 * 86400, &[("fees", 3)], &[]);
    assert!(!acc.contains_key("pool:day:86400:volume"));
    assert_eq!(acc["pool:total:volume"], 2);
    assert_eq!(acc["pool:total:volume:usdc"], 1);
    assert_eq!(acc["pool:day:172800:fees"], 3);
}

#[test]
fn eviction_leaves_other_entities() {
    let mut acc = HashMap::new();
    write(&mut acc, "a", 0, &[("v", 1)], &[]);
    write(&mut acc, "b", 0, &[("v", 1)], &[]);
    write(&mut acc, "a", 86400, &[("v", 1)], &[]);
    assert!(!acc.contains_key("a:day:0:v"));
    assert_eq!(acc["b:day:0:v"], 1);
}

#[test]
fn a_skipped_day_leaves_the_older_bucket() {
    // eviction is write-triggered and removes only the bucket just before the current one
    let mut acc = HashMap::new();
    write(&mut acc, "pool", 0, &[("volume", 1)], &[]);
    write(&mut acc, "pool", 2 * 86400, &[("volume", 2)], &[]);
    assert_eq!(acc["pool:day:0:volume"], 1);
    assert_eq!(acc["pool:day:172800:volume"], 2);
}
