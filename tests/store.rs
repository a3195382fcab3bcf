use substreams::pb::substreams::Clock;
use substreams::scalar::BigInt;
use substreams::store::{StoreAddBigInt, StoreNew};
use substreams_timeseries::store::TimeSeriesStore;

fn clock_at(seconds: i64) -> Clock {
    Clock {
        id: "block".to_string(),
        number: 1,
        timestamp: Some(prost_types::Timestamp { seconds, nanos: 0 }),
    }
}

#[test]
fn store_keeps_its_clock() {
    let s = TimeSeriesStore::new(clock_at(90000), StoreAddBigInt::new());
    assert_eq!(s.clock.timestamp.unwrap().seconds, 90000);
}

#[test]
fn store_writes_run_to_completion() {
    let mut s = TimeSeriesStore::new(clock_at(90000), StoreAddBigInt::new());
    s.update(vec!["pool", "token"]);
    s.add_metrics("pool", vec![("volume", BigInt::from(50i64)), ("fees", BigInt::from(1i64))], vec!["usdc".to_string()]);
    s.add_metrics("pool", Vec::new(), Vec::new());
    assert_eq!(s.clock, clock_at(90000));
    s.add_metrics("pool", vec![("volume", BigInt::from(5i64))], vec!["ETH".to_string(), "buy".to_string()]);
}
