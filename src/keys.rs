use vstd::prelude::*;
use vstd::string::StringExecFns;
use crate::decimal::{decimal_of, push_decimal};
use crate::text::{join, join_from};

verus! {

/// Width of a day bucket, in seconds.
pub const DAY_SECONDS: i128 = 86400;

/// Width of an hour bucket, in seconds.
pub const HOUR_SECONDS: i128 = 3600;

const SHIFT: i128 = 9223372036854775808;

pub open spec fn total_tag() -> Seq<char> {
    seq!['t', 'o', 't', 'a', 'l']
}

pub open spec fn day_tag() -> Seq<char> {
    seq!['d', 'a', 'y']
}

pub open spec fn hour_tag() -> Seq<char> {
    seq!['h', 'o', 'u', 'r']
}

/// Start of the bucket of width `width` that holds `t`: `t` rounded down to a multiple of `width`.
pub open spec fn bucket_start(t: int, width: int) -> int {
    (t / width) * width
}

/// `:g1:g2:...` for a non-empty grouping, empty otherwise.
pub open spec fn group_suffix(groups: Seq<Seq<char>>) -> Seq<char> {
    if groups.len() == 0 {
        Seq::<char>::empty()
    } else {
        seq![':'] + join(groups, ':')
    }
}

/// `<entity>:total:<metric>[:<group>...]`
pub open spec fn total_key(entity: Seq<char>, metric: Seq<char>, groups: Seq<Seq<char>>) -> Seq<char> {
    entity + seq![':'] + total_tag() + seq![':'] + metric + group_suffix(groups)
}

/// `<entity>:<tag>:<bucket>:`, the prefix shared by every key of one bucket.
pub open spec fn bucket_prefix(entity: Seq<char>, tag: Seq<char>, bucket: int) -> Seq<char> {
    entity + seq![':'] + tag + seq![':'] + decimal_of(bucket) + seq![':']
}

/// `<entity>:<tag>:<bucket>:<metric>[:<group>...]`
pub open spec fn bucket_key(
    entity: Seq<char>,
    tag: Seq<char>,
    bucket: int,
    metric: Seq<char>,
    groups: Seq<Seq<char>>,
) -> Seq<char> {
    bucket_prefix(entity, tag, bucket) + metric + group_suffix(groups)
}

/// The total, day and hour keys that one metric write at time `t` adds to.
pub open spec fn metric_keys_at(
    entity: Seq<char>,
    t: int,
    metric: Seq<char>,
    groups: Seq<Seq<char>>,
) -> Seq<Seq<char>> {
    seq![
        total_key(entity, metric, groups),
        bucket_key(entity, day_tag(), bucket_start(t, DAY_SECONDS as int), metric, groups),
        bucket_key(entity, hour_tag(), bucket_start(t, HOUR_SECONDS as int), metric, groups),
    ]
}

/// The prefixes of the day and hour buckets just before those that hold `t`.
pub open spec fn expired_prefixes_at(entity: Seq<char>, t: int) -> Seq<Seq<char>> {
    seq![
        bucket_prefix(entity, day_tag(), bucket_start(t, DAY_SECONDS as int) - DAY_SECONDS),
        bucket_prefix(entity, hour_tag(), bucket_start(t, HOUR_SECONDS as int) - HOUR_SECONDS),
    ]
}

/// Start of the bucket of width `width` holding `t`.
pub fn bucket_start_of(t: i64, width: i128) -> (r: i128)
    requires
        0 < width <= DAY_SECONDS,
    ensures
        r == bucket_start(t as int, width as int),
        r as int <= t as int,
        t as int - width < r as int,
{
    proof {
        assert(0 <= SHIFT * width <= SHIFT * DAY_SECONDS) by (nonlinear_arith)
            requires
                0 < width <= DAY_SECONDS,
                SHIFT > 0,
        ;
        vstd::arithmetic::div_mod::lemma_hoist_over_denominator(t as int, SHIFT as int, width as nat);
        vstd::arithmetic::div_mod::lemma_fundamental_div_mod(t as int, width as int);
        vstd::arithmetic::div_mod::lemma_mod_bound(t as int, width as int);
    }
    let u: i128 = (t as i128) + SHIFT * width;
    let q: i128 = ((u as u128) / (width as u128)) as i128;
    proof {
        assert(q as int == (t as int) / (width as int) + SHIFT);
        assert((t as int) / (width as int) * width <= t) by (nonlinear_arith)
            requires
                t == width * ((t as int) / (width as int)) + (t as int) % (width as int),
                0 <= (t as int) % (width as int),
        ;
        assert(-SHIFT - DAY_SECONDS <= (t as int) / (width as int) * width) by (nonlinear_arith)
            requires
                t == width * ((t as int) / (width as int)) + (t as int) % (width as int),
                (t as int) % (width as int) < width,
                t >= -SHIFT,
                width <= DAY_SECONDS,
        ;
        assert(t - width < (t as int) / (width as int) * width) by (nonlinear_arith)
            requires
                t == width * ((t as int) / (width as int)) + (t as int) % (width as int),
                (t as int) % (width as int) < width,
        ;
        assert((q - SHIFT) * width == (t as int) / (width as int) * width) by (nonlinear_arith)
            requires
                q as int == (t as int) / (width as int) + SHIFT,
        ;
    }
    (q - SHIFT) * width
}

fn group_suffix_of(groups: &Vec<String>) -> (r: String)
    ensures
        r@ == group_suffix(groups@.map_values(|g: String| g@)),
{
    let mut out = String::new();
    if groups.len() > 0 {
        proof {
            reveal_strlit(":");
        }
        out.append(":");
        let j = join_from(groups, 0, ":");
        out.append(j.as_str());
        assert(groups@.map_values(|g: String| g@).subrange(0, groups@.len() as int) =~= groups@.map_values(|g: String| g@));
        assert(out@ =~= group_suffix(groups@.map_values(|g: String| g@)));
    }
    out
}

fn bucket_prefix_of(entity: &str, tag: &str, bucket: i128) -> (r: String)
    requires
        bucket > i128::MIN,
    ensures
        r@ == bucket_prefix(entity@, tag@, bucket as int),
{
    proof {
        reveal_strlit(":");
    }
    let mut out = String::from_str(entity);
    out.append(":");
    out.append(tag);
    out.append(":");
    push_decimal(&mut out, bucket);
    out.append(":");
    assert(out@ =~= bucket_prefix(entity@, tag@, bucket as int));
    out
}

/// The three keys, total, day and hour, that a write of `metric` at time `timestamp` adds to.
pub fn metric_keys(entity: &str, timestamp: i64, metric: &str, groups: &Vec<String>) -> (r: Vec<String>)
    ensures
        r@.map_values(|k: String| k@) == metric_keys_at(
            entity@,
            timestamp as int,
            metric@,
            groups@.map_values(|g: String| g@),
        ),
{
    proof {
        reveal_strlit(":");
        reveal_strlit(":total:");
        reveal_strlit("day");
        reveal_strlit("hour");
    }
    assert("day"@ =~= day_tag());
    assert("hour"@ =~= hour_tag());
    let suffix = group_suffix_of(groups);
    let mut total = String::from_str(entity);
    total.append(":total:");
    total.append(metric);
    total.append(suffix.as_str());
    assert(total@ =~= total_key(entity@, metric@, groups@.map_values(|g: String| g@)));
    let day = bucket_start_of(timestamp, DAY_SECONDS);
    let mut day_key = bucket_prefix_of(entity, "day", day);
    day_key.append(metric);
    day_key.append(suffix.as_str());
    let hour = bucket_start_of(timestamp, HOUR_SECONDS);
    let mut hour_key = bucket_prefix_of(entity, "hour", hour);
    hour_key.append(metric);
    hour_key.append(suffix.as_str());
    let ghost gs = groups@.map_values(|g: String| g@);
    assert(day_key@ =~= bucket_key(entity@, day_tag(), day as int, metric@, gs));
    assert(hour_key@ =~= bucket_key(entity@, hour_tag(), hour as int, metric@, gs));
    let r = vec![total, day_key, hour_key];
    assert(r@.map_values(|k: String| k@) =~= metric_keys_at(
        entity@,
        timestamp as int,
        metric@,
        groups@.map_values(|g: String| g@),
    ));
    r
}

/// The prefixes of the day and hour buckets that a write at `timestamp` evicts.
pub fn expired_prefixes(entity: &str, timestamp: i64) -> (r: Vec<String>)
    ensures
        r@.map_values(|k: String| k@) == expired_prefixes_at(entity@, timestamp as int),
{
    proof {
        reveal_strlit("day");
        reveal_strlit("hour");
    }
    let day = bucket_start_of(timestamp, DAY_SECONDS);
    let hour = bucket_start_of(timestamp, HOUR_SECONDS);
    let d = bucket_prefix_of(entity, "day", day - DAY_SECONDS);
    let h = bucket_prefix_of(entity, "hour", hour - HOUR_SECONDS);
    assert("day"@ =~= day_tag());
    assert("hour"@ =~= hour_tag());
    let r = vec![d, h];
    assert(r@.map_values(|k: String| k@) =~= expired_prefixes_at(entity@, timestamp as int));
    r
}

} // verus!
