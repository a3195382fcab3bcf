use vstd::prelude::*;
use crate::decimal::{decimal_of, lemma_decimal_injective, lemma_decimal_shape};
use crate::keys::{DAY_SECONDS, HOUR_SECONDS, bucket_key, bucket_prefix, bucket_start, day_tag, expired_prefixes_at, group_suffix, hour_tag, metric_keys_at};
use substreams::scalar::BigInt;
use crate::store::{StoreOp, addition_ops, eviction_ops, write_ops};

verus! {

/// The contents of an accumulator store: key to integer value; an absent key reads as zero.
pub type Contents = Map<Seq<char>, int>;

pub open spec fn starts_with(k: Seq<char>, p: Seq<char>) -> bool {
    p.len() <= k.len() && k.subrange(0, p.len() as int) == p
}

pub open spec fn value_at(m: Contents, k: Seq<char>) -> int {
    if m.contains_key(k) {
        m[k]
    } else {
        0
    }
}

/// Removes every key that begins with `p`.
pub open spec fn delete_prefix(m: Contents, p: Seq<char>) -> Contents {
    Map::new(|k: Seq<char>| m.contains_key(k) && !starts_with(k, p), |k: Seq<char>| m[k])
}

/// Adds `v` to each of `keys`, creating absent keys at zero first.
pub open spec fn add_many(m: Contents, keys: Seq<Seq<char>>, v: int) -> Contents
    decreases keys.len(),
{
    if keys.len() == 0 {
        m
    } else {
        let m1 = add_many(m, keys.drop_last(), v);
        m1.insert(keys.last(), value_at(m1, keys.last()) + v)
    }
}

/// The store after one operation; `val` reads a sent value as the integer it stands for.
pub open spec fn apply(m: Contents, op: StoreOp, val: spec_fn(BigInt) -> int) -> Contents {
    match op {
        StoreOp::DeletePrefix(p) => delete_prefix(m, p),
        StoreOp::AddMany(keys, v) => add_many(m, keys, val(v)),
    }
}

/// The store after the operations, in order.
pub open spec fn replay(m: Contents, ops: Seq<StoreOp>, val: spec_fn(BigInt) -> int) -> Contents
    decreases ops.len(),
{
    if ops.len() == 0 {
        m
    } else {
        apply(replay(m, ops.drop_last(), val), ops.last(), val)
    }
}

proof fn lemma_add_many(m: Contents, keys: Seq<Seq<char>>, v: int, k: Seq<char>)
    requires
        keys.no_duplicates(),
    ensures
        value_at(add_many(m, keys, v), k) == value_at(m, k) + if keys.contains(k) { v } else { 0 },
        add_many(m, keys, v).contains_key(k) == (m.contains_key(k) || keys.contains(k)),
    decreases keys.len(),
{
    if keys.len() > 0 {
        let init = keys.drop_last();
        assert(init.no_duplicates());
        lemma_add_many(m, init, v, k);
        assert(keys.contains(k) == (init.contains(k) || keys.last() == k)) by {
            if keys.contains(k) {
                let j = choose|j: int| 0 <= j < keys.len() && keys[j] == k;
                if j < keys.len() - 1 {
                    assert(init[j] == k);
                }
            }
            if init.contains(k) {
                let j = choose|j: int| 0 <= j < init.len() && init[j] == k;
                assert(keys[j] == k);
            }
        }
        if keys.last() == k {
            assert(!init.contains(k)) by {
                if init.contains(k) {
                    let j = choose|j: int| 0 <= j < init.len() && init[j] == k;
                    assert(keys[j] == keys[keys.len() - 1]);
                }
            }
        }
    }
}

proof fn lemma_index_in_bucket_prefix(e: Seq<char>, tag: Seq<char>, b: int, rest: Seq<char>)
    requires
        tag.len() >= 1,
    ensures
        (bucket_prefix(e, tag, b) + rest).len() > e.len() + 1,
        (bucket_prefix(e, tag, b) + rest)[e.len() + 1int] == tag[0],
{
}

/// A key of one bucket never begins with the prefix of another bucket of the same tag.
proof fn lemma_other_bucket(e: Seq<char>, tag: Seq<char>, b1: int, b2: int, rest: Seq<char>)
    requires
        b1 != b2,
    ensures
        !starts_with(bucket_prefix(e, tag, b2) + rest, bucket_prefix(e, tag, b1)),
{
    let p = bucket_prefix(e, tag, b1);
    let k = bucket_prefix(e, tag, b2) + rest;
    let l: int = (e.len() + 1 + tag.len() + 1) as int;
    let d1 = decimal_of(b1);
    let d2 = decimal_of(b2);
    lemma_decimal_shape(b1);
    lemma_decimal_shape(b2);
    assert(forall|i: int| 0 <= i < d1.len() ==> p[l + i] == d1[i]);
    assert(forall|i: int| 0 <= i < d2.len() ==> k[l + i] == d2[i]);
    assert(p[l + d1.len() as int] == ':');
    assert(k[l + d2.len() as int] == ':');
    if starts_with(k, p) {
        assert(forall|i: int| 0 <= i < p.len() ==> k[i] == p[i]) by {
            assert forall|i: int| 0 <= i < p.len() implies k[i] == p[i] by {
                assert(k.subrange(0, p.len() as int)[i] == k[i]);
            }
        }
        if d1.len() < d2.len() {
            assert(k[l + d1.len() as int] == d2[d1.len() as int]);
        } else if d1.len() > d2.len() {
            assert(p[l + d2.len() as int] == d1[d2.len() as int]);
        } else {
            assert(d1 =~= d2) by {
                assert forall|i: int| 0 <= i < d1.len() implies d1[i] == d2[i] by {
                    assert(k[l + i] == p[l + i]);
                }
            }
            lemma_decimal_injective(b1, b2);
        }
    }
}

proof fn lemma_tag_mismatch(k: Seq<char>, p: Seq<char>, at: int)
    requires
        0 <= at < p.len(),
        at < k.len(),
        k[at] != p[at],
    ensures
        !starts_with(k, p),
{
    if starts_with(k, p) {
        assert(k.subrange(0, p.len() as int)[at] == k[at]);
    }
}

/// No key that a write at `t` adds to begins with a prefix that the same write evicts,
/// and the three keys of one metric are distinct.
pub proof fn lemma_written_keys_survive(e: Seq<char>, t: int, metric: Seq<char>, groups: Seq<Seq<char>>)
    ensures
        forall|i: int, j: int|
            0 <= i < 2 && 0 <= j < 3 ==> !starts_with(
                #[trigger] metric_keys_at(e, t, metric, groups)[j],
                #[trigger] expired_prefixes_at(e, t)[i],
            ),
        metric_keys_at(e, t, metric, groups).no_duplicates(),
{
    let keys = metric_keys_at(e, t, metric, groups);
    let ps = expired_prefixes_at(e, t);
    let d = bucket_start(t, DAY_SECONDS as int);
    let h = bucket_start(t, HOUR_SECONDS as int);
    let rest = metric + group_suffix(groups);
    assert(keys[0][e.len() + 1int] == 't');
    assert(keys[1] == bucket_prefix(e, day_tag(), d) + rest);
    assert(keys[2] == bucket_prefix(e, hour_tag(), h) + rest);
    lemma_index_in_bucket_prefix(e, day_tag(), d, rest);
    lemma_index_in_bucket_prefix(e, hour_tag(), h, rest);
    lemma_index_in_bucket_prefix(e, day_tag(), d - DAY_SECONDS, Seq::<char>::empty());
    lemma_index_in_bucket_prefix(e, hour_tag(), h - HOUR_SECONDS, Seq::<char>::empty());
    assert(ps[0] == bucket_prefix(e, day_tag(), d - DAY_SECONDS) + Seq::<char>::empty());
    assert(ps[1] == bucket_prefix(e, hour_tag(), h - HOUR_SECONDS) + Seq::<char>::empty());
    lemma_tag_mismatch(keys[0], ps[0], e.len() + 1 as int);
    lemma_tag_mismatch(keys[0], ps[1], e.len() + 1 as int);
    lemma_tag_mismatch(keys[1], ps[1], e.len() + 1 as int);
    lemma_tag_mismatch(keys[2], ps[0], e.len() + 1 as int);
    lemma_other_bucket(e, day_tag(), d - DAY_SECONDS, d, rest);
    lemma_other_bucket(e, hour_tag(), h - HOUR_SECONDS, h, rest);
    assert(keys[0] != keys[1]);
    assert(keys[0] != keys[2]);
    assert(keys[1] != keys[2]);
}

proof fn lemma_replay_concat(m: Contents, a: Seq<StoreOp>, b: Seq<StoreOp>, val: spec_fn(BigInt) -> int)
    ensures
        replay(m, a + b, val) == replay(replay(m, a, val), b, val),
    decreases b.len(),
{
    if b.len() == 0 {
        assert(a + b =~= a);
    } else {
        assert((a + b).drop_last() =~= a + b.drop_last());
        lemma_replay_concat(m, a, b.drop_last(), val);
        assert((a + b).last() == b.last());
    }
}

proof fn lemma_one_eviction(e: Seq<char>, t: int)
    ensures
        eviction_ops(seq![e], t) == seq![
            StoreOp::DeletePrefix(expired_prefixes_at(e, t)[0]),
            StoreOp::DeletePrefix(expired_prefixes_at(e, t)[1]),
        ],
{
    assert(seq![e].drop_last() =~= Seq::<Seq<char>>::empty());
    assert(seq![e].last() == e);
    assert(eviction_ops(Seq::<Seq<char>>::empty(), t) == Seq::<StoreOp>::empty());
    assert(eviction_ops(seq![e], t) =~= seq![
        StoreOp::DeletePrefix(expired_prefixes_at(e, t)[0]),
        StoreOp::DeletePrefix(expired_prefixes_at(e, t)[1]),
    ]);
}

proof fn lemma_one_write_ops(e: Seq<char>, t: int, metric: Seq<char>, v: BigInt, groups: Seq<Seq<char>>)
    ensures
        write_ops(e, t, seq![(metric, v)], groups) == seq![
            StoreOp::DeletePrefix(expired_prefixes_at(e, t)[0]),
            StoreOp::DeletePrefix(expired_prefixes_at(e, t)[1]),
            StoreOp::AddMany(metric_keys_at(e, t, metric, groups), v),
        ],
{
    lemma_one_eviction(e, t);
    assert(addition_ops(e, t, seq![(metric, v)], groups) =~= seq![StoreOp::AddMany(metric_keys_at(e, t, metric, groups), v)]);
    assert(write_ops(e, t, seq![(metric, v)], groups) =~= seq![
        StoreOp::DeletePrefix(expired_prefixes_at(e, t)[0]),
        StoreOp::DeletePrefix(expired_prefixes_at(e, t)[1]),
        StoreOp::AddMany(metric_keys_at(e, t, metric, groups), v),
    ]);
}

/// A write of one metric adds its value to each of the metric's total, day and hour keys
/// (from nothing, each then holds the value).
pub proof fn lemma_one_write(
    m: Contents,
    e: Seq<char>,
    t: int,
    metric: Seq<char>,
    v: BigInt,
    groups: Seq<Seq<char>>,
    val: spec_fn(BigInt) -> int,
)
    ensures
        forall|j: int|
            0 <= j < 3 ==> value_at(
                replay(m, write_ops(e, t, seq![(metric, v)], groups), val),
                #[trigger] metric_keys_at(e, t, metric, groups)[j],
            ) == value_at(m, metric_keys_at(e, t, metric, groups)[j]) + val(v),
{
    let ops = write_ops(e, t, seq![(metric, v)], groups);
    let keys = metric_keys_at(e, t, metric, groups);
    let ps = expired_prefixes_at(e, t);
    lemma_one_write_ops(e, t, metric, v, groups);
    lemma_written_keys_survive(e, t, metric, groups);
    assert(ops.drop_last().drop_last().drop_last() =~= Seq::<StoreOp>::empty());
    let m1 = delete_prefix(m, ps[0]);
    let m2 = delete_prefix(m1, ps[1]);
    assert(ops.drop_last().drop_last().last() == StoreOp::DeletePrefix(ps[0]));
    assert(replay(m, ops.drop_last().drop_last().drop_last(), val) == m);
    assert(replay(m, ops.drop_last().drop_last(), val) == m1);
    assert(replay(m, ops.drop_last(), val) == m2);
    assert forall|j: int| 0 <= j < 3 implies value_at(replay(m, ops, val), #[trigger] keys[j]) == value_at(m, keys[j]) + val(v) by {
        assert(!starts_with(keys[j], ps[0]));
        assert(!starts_with(keys[j], ps[1]));
        assert(value_at(m2, keys[j]) == value_at(m, keys[j]));
        lemma_add_many(m2, keys, val(v), keys[j]);
        assert(keys.contains(keys[j]));
    }
}

/// Two writes of one metric whose times share their day bucket and their hour bucket add up:
/// each of the metric's total, day and hour values grows by the sum of the two values
/// (from nothing, each ends at that sum).
pub proof fn lemma_additivity(
    m: Contents,
    e: Seq<char>,
    metric: Seq<char>,
    groups: Seq<Seq<char>>,
    t1: int,
    t2: int,
    v1: BigInt,
    v2: BigInt,
    val: spec_fn(BigInt) -> int,
)
    requires
        bucket_start(t1, DAY_SECONDS as int) == bucket_start(t2, DAY_SECONDS as int),
        bucket_start(t1, HOUR_SECONDS as int) == bucket_start(t2, HOUR_SECONDS as int),
    ensures
        forall|j: int|
            0 <= j < 3 ==> value_at(
                replay(
                    m,
                    write_ops(e, t1, seq![(metric, v1)], groups) + write_ops(e, t2, seq![(metric, v2)], groups),
                    val,
                ),
                #[trigger] metric_keys_at(e, t1, metric, groups)[j],
            ) == value_at(m, metric_keys_at(e, t1, metric, groups)[j]) + val(v1) + val(v2),
{
    let a = write_ops(e, t1, seq![(metric, v1)], groups);
    let b = write_ops(e, t2, seq![(metric, v2)], groups);
    assert(metric_keys_at(e, t1, metric, groups) == metric_keys_at(e, t2, metric, groups));
    lemma_replay_concat(m, a, b, val);
    lemma_one_write(m, e, t1, metric, v1, groups, val);
    lemma_one_write(replay(m, a, val), e, t2, metric, v2, groups, val);
}

pub open spec fn clear_of(m: Contents, p: Seq<char>) -> bool {
    forall|k: Seq<char>| #[trigger] m.contains_key(k) ==> !starts_with(k, p)
}

proof fn lemma_additions_keep_clear(
    m: Contents,
    e: Seq<char>,
    t: int,
    metrics: Seq<(Seq<char>, BigInt)>,
    groups: Seq<Seq<char>>,
    val: spec_fn(BigInt) -> int,
    j: int,
    p: Seq<char>,
)
    requires
        2 <= j <= metrics.len() + 2,
        p == expired_prefixes_at(e, t)[0] || p == expired_prefixes_at(e, t)[1],
        clear_of(replay(m, write_ops(e, t, metrics, groups).subrange(0, 2), val), p),
    ensures
        clear_of(replay(m, write_ops(e, t, metrics, groups).subrange(0, j), val), p),
    decreases j,
{
    if j > 2 {
        let ops = write_ops(e, t, metrics, groups);
        lemma_additions_keep_clear(m, e, t, metrics, groups, val, j - 1, p);
        assert(ops.subrange(0, j).drop_last() =~= ops.subrange(0, j - 1));
        lemma_one_eviction(e, t);
        let keys = metric_keys_at(e, t, metrics[j - 3].0, groups);
        assert(ops[j - 1] == StoreOp::AddMany(keys, metrics[j - 3].1));
        lemma_written_keys_survive(e, t, metrics[j - 3].0, groups);
        let prev = replay(m, ops.subrange(0, j - 1), val);
        assert forall|k: Seq<char>| #[trigger] add_many(prev, keys, val(metrics[j - 3].1)).contains_key(k) implies !starts_with(k, p) by {
            lemma_add_many(prev, keys, val(metrics[j - 3].1), k);
            if keys.contains(k) {
                let i = choose|i: int| 0 <= i < keys.len() && keys[i] == k;
                assert(!starts_with(keys[i], expired_prefixes_at(e, t)[0]));
                assert(!starts_with(keys[i], expired_prefixes_at(e, t)[1]));
            }
        }
    }
}

/// After a write at `t`, no key is left in the day bucket or the hour bucket just before
/// those that hold `t`, whatever the store held and whatever was written.
pub proof fn lemma_write_evicts_previous(
    m: Contents,
    e: Seq<char>,
    t: int,
    metrics: Seq<(Seq<char>, BigInt)>,
    groups: Seq<Seq<char>>,
    val: spec_fn(BigInt) -> int,
)
    ensures
        clear_of(replay(m, write_ops(e, t, metrics, groups), val), expired_prefixes_at(e, t)[0]),
        clear_of(replay(m, write_ops(e, t, metrics, groups), val), expired_prefixes_at(e, t)[1]),
{
    let ops = write_ops(e, t, metrics, groups);
    let ps = expired_prefixes_at(e, t);
    lemma_one_eviction(e, t);
    assert(ops[0] == StoreOp::DeletePrefix(ps[0]));
    assert(ops[1] == StoreOp::DeletePrefix(ps[1]));
    assert(ops.subrange(0, 2).drop_last() =~= ops.subrange(0, 1));
    assert(ops.subrange(0, 1).drop_last() =~= Seq::<StoreOp>::empty());
    let m2 = replay(m, ops.subrange(0, 2), val);
    assert(ops.subrange(0, 2).last() == ops[1]);
    assert(ops.subrange(0, 1).last() == ops[0]);
    assert(replay(m, ops.subrange(0, 1).drop_last(), val) == m);
    assert(replay(m, ops.subrange(0, 1), val) == delete_prefix(m, ps[0]));
    assert(m2 == delete_prefix(delete_prefix(m, ps[0]), ps[1]));
    assert(clear_of(m2, ps[0]));
    assert(clear_of(m2, ps[1]));
    lemma_additions_keep_clear(m, e, t, metrics, groups, val, ops.len() as int, ps[0]);
    lemma_additions_keep_clear(m, e, t, metrics, groups, val, ops.len() as int, ps[1]);
    assert(ops.subrange(0, ops.len() as int) =~= ops);
}

/// Eviction lags one bucket: once the day after day bucket `d0` is written to, no key of
/// `d0` is left, for any metric and grouping.
pub proof fn lemma_day_bucket_evicted(
    m: Contents,
    e: Seq<char>,
    t0: int,
    t1: int,
    metrics: Seq<(Seq<char>, BigInt)>,
    groups: Seq<Seq<char>>,
    val: spec_fn(BigInt) -> int,
    metric0: Seq<char>,
    groups0: Seq<Seq<char>>,
)
    requires
        bucket_start(t1, DAY_SECONDS as int) == bucket_start(t0, DAY_SECONDS as int) + DAY_SECONDS,
    ensures
        !replay(m, write_ops(e, t1, metrics, groups), val).contains_key(
            bucket_key(e, day_tag(), bucket_start(t0, DAY_SECONDS as int), metric0, groups0),
        ),
{
    let p = bucket_prefix(e, day_tag(), bucket_start(t0, DAY_SECONDS as int));
    let k = bucket_key(e, day_tag(), bucket_start(t0, DAY_SECONDS as int), metric0, groups0);
    lemma_write_evicts_previous(m, e, t1, metrics, groups, val);
    assert(expired_prefixes_at(e, t1)[0] == p);
    assert(k.subrange(0, p.len() as int) =~= p);
}

/// The same for hours: once the hour after hour bucket `h0` is written to, no key of `h0` is left.
pub proof fn lemma_hour_bucket_evicted(
    m: Contents,
    e: Seq<char>,
    t0: int,
    t1: int,
    metrics: Seq<(Seq<char>, BigInt)>,
    groups: Seq<Seq<char>>,
    val: spec_fn(BigInt) -> int,
    metric0: Seq<char>,
    groups0: Seq<Seq<char>>,
)
    requires
        bucket_start(t1, HOUR_SECONDS as int) == bucket_start(t0, HOUR_SECONDS as int) + HOUR_SECONDS,
    ensures
        !replay(m, write_ops(e, t1, metrics, groups), val).contains_key(
            bucket_key(e, hour_tag(), bucket_start(t0, HOUR_SECONDS as int), metric0, groups0),
        ),
{
    let p = bucket_prefix(e, hour_tag(), bucket_start(t0, HOUR_SECONDS as int));
    let k = bucket_key(e, hour_tag(), bucket_start(t0, HOUR_SECONDS as int), metric0, groups0);
    lemma_write_evicts_previous(m, e, t1, metrics, groups, val);
    assert(expired_prefixes_at(e, t1)[1] == p);
    assert(k.subrange(0, p.len() as int) =~= p);
}

proof fn lemma_cancel_sides(a: Seq<char>, x: Seq<char>, y: Seq<char>, z: Seq<char>)
    requires
        a + x + z == a + y + z,
    ensures
        x == y,
{
    let l = a + x + z;
    assert(l.len() == a.len() + x.len() + z.len());
    assert((a + y + z).len() == a.len() + y.len() + z.len());
    assert(x.len() == y.len());
    assert(x =~= l.subrange(a.len() as int, (a.len() + x.len()) as int));
    assert(y =~= (a + y + z).subrange(a.len() as int, (a.len() + y.len()) as int));
}

/// Keys of different metrics in one write are different.
proof fn lemma_metric_keys_distinct(e: Seq<char>, t: int, m1: Seq<char>, m2: Seq<char>, groups: Seq<Seq<char>>)
    requires
        m1 != m2,
    ensures
        forall|j1: int, j2: int|
            0 <= j1 < 3 && 0 <= j2 < 3 ==> #[trigger] metric_keys_at(e, t, m1, groups)[j1]
                != #[trigger] metric_keys_at(e, t, m2, groups)[j2],
{
    let k1 = metric_keys_at(e, t, m1, groups);
    let k2 = metric_keys_at(e, t, m2, groups);
    let sfx = group_suffix(groups);
    let d = bucket_start(t, DAY_SECONDS as int);
    let h = bucket_start(t, HOUR_SECONDS as int);
    let tp = e + seq![':'] + seq!['t', 'o', 't', 'a', 'l'] + seq![':'];
    assert(k1[0] == tp + m1 + sfx);
    assert(k2[0] == tp + m2 + sfx);
    assert(k1[1] == bucket_prefix(e, day_tag(), d) + m1 + sfx);
    assert(k2[1] == bucket_prefix(e, day_tag(), d) + m2 + sfx);
    assert(k1[2] == bucket_prefix(e, hour_tag(), h) + m1 + sfx);
    assert(k2[2] == bucket_prefix(e, hour_tag(), h) + m2 + sfx);
    if k1[0] == k2[0] {
        lemma_cancel_sides(tp, m1, m2, sfx);
    }
    if k1[1] == k2[1] {
        lemma_cancel_sides(bucket_prefix(e, day_tag(), d), m1, m2, sfx);
    }
    if k1[2] == k2[2] {
        lemma_cancel_sides(bucket_prefix(e, hour_tag(), h), m1, m2, sfx);
    }
    assert(k1[0][e.len() + 1int] == 't' && k2[0][e.len() + 1int] == 't');
    lemma_index_in_bucket_prefix(e, day_tag(), d, m1 + sfx);
    lemma_index_in_bucket_prefix(e, day_tag(), d, m2 + sfx);
    lemma_index_in_bucket_prefix(e, hour_tag(), h, m1 + sfx);
    lemma_index_in_bucket_prefix(e, hour_tag(), h, m2 + sfx);
    assert(bucket_prefix(e, day_tag(), d) + m1 + sfx == bucket_prefix(e, day_tag(), d) + (m1 + sfx));
    assert(bucket_prefix(e, day_tag(), d) + m2 + sfx == bucket_prefix(e, day_tag(), d) + (m2 + sfx));
    assert(bucket_prefix(e, hour_tag(), h) + m1 + sfx == bucket_prefix(e, hour_tag(), h) + (m1 + sfx));
    assert(bucket_prefix(e, hour_tag(), h) + m2 + sfx == bucket_prefix(e, hour_tag(), h) + (m2 + sfx));
}

/// The store after only the evictions of a write at `t`.
pub open spec fn evicted(m: Contents, e: Seq<char>, t: int) -> Contents {
    delete_prefix(delete_prefix(m, expired_prefixes_at(e, t)[0]), expired_prefixes_at(e, t)[1])
}

/// `k` is one of the keys that the first `n` metrics of a write add to.
pub open spec fn written_by(e: Seq<char>, t: int, metrics: Seq<(Seq<char>, BigInt)>, groups: Seq<Seq<char>>, n: int, k: Seq<char>) -> bool {
    exists|i: int, j: int| 0 <= i < n && 0 <= j < 3 && #[trigger] metric_keys_at(e, t, metrics[i].0, groups)[j] == k
}

proof fn lemma_after_evictions(
    m: Contents,
    e: Seq<char>,
    t: int,
    metrics: Seq<(Seq<char>, BigInt)>,
    groups: Seq<Seq<char>>,
    val: spec_fn(BigInt) -> int,
)
    ensures
        replay(m, write_ops(e, t, metrics, groups).subrange(0, 2), val) == evicted(m, e, t),
{
    let ops = write_ops(e, t, metrics, groups);
    let ps = expired_prefixes_at(e, t);
    lemma_one_eviction(e, t);
    assert(ops[0] == StoreOp::DeletePrefix(ps[0]));
    assert(ops[1] == StoreOp::DeletePrefix(ps[1]));
    assert(ops.subrange(0, 2).drop_last() =~= ops.subrange(0, 1));
    assert(ops.subrange(0, 1).drop_last() =~= Seq::<StoreOp>::empty());
    assert(ops.subrange(0, 2).last() == ops[1]);
    assert(ops.subrange(0, 1).last() == ops[0]);
    assert(replay(m, ops.subrange(0, 1).drop_last(), val) == m);
    assert(replay(m, ops.subrange(0, 1), val) == delete_prefix(m, ps[0]));
}

proof fn lemma_addition_step(
    m: Contents,
    e: Seq<char>,
    t: int,
    metrics: Seq<(Seq<char>, BigInt)>,
    groups: Seq<Seq<char>>,
    val: spec_fn(BigInt) -> int,
    n: int,
)
    requires
        1 <= n <= metrics.len(),
    ensures
        replay(m, write_ops(e, t, metrics, groups).subrange(0, 2 + n), val) == add_many(
            replay(m, write_ops(e, t, metrics, groups).subrange(0, 2 + n - 1), val),
            metric_keys_at(e, t, metrics[n - 1].0, groups),
            val(metrics[n - 1].1),
        ),
{
    let ops = write_ops(e, t, metrics, groups);
    lemma_one_eviction(e, t);
    assert(ops.subrange(0, 2 + n).drop_last() =~= ops.subrange(0, 2 + n - 1));
    assert(ops.subrange(0, 2 + n).last() == ops[2 + n - 1]);
    assert(ops[2 + n - 1] == StoreOp::AddMany(metric_keys_at(e, t, metrics[n - 1].0, groups), metrics[n - 1].1));
}

/// What the first `n` metrics of a write have made of the evicted store `base`.
pub open spec fn effect_upto(
    cur: Contents,
    m: Contents,
    base: Contents,
    e: Seq<char>,
    t: int,
    metrics: Seq<(Seq<char>, BigInt)>,
    groups: Seq<Seq<char>>,
    val: spec_fn(BigInt) -> int,
    n: int,
) -> bool {
    &&& forall|i: int, j: int|
        0 <= i < n && 0 <= j < 3 ==> value_at(cur, #[trigger] metric_keys_at(e, t, metrics[i].0, groups)[j])
            == value_at(m, metric_keys_at(e, t, metrics[i].0, groups)[j]) + val(metrics[i].1)
    &&& forall|k: Seq<char>|
        !written_by(e, t, metrics, groups, n, k) ==> #[trigger] value_at(cur, k) == value_at(base, k)
            && cur.contains_key(k) == base.contains_key(k)
}

proof fn lemma_effect_step(
    prev: Contents,
    m: Contents,
    e: Seq<char>,
    t: int,
    metrics: Seq<(Seq<char>, BigInt)>,
    groups: Seq<Seq<char>>,
    val: spec_fn(BigInt) -> int,
    n: int,
)
    requires
        1 <= n <= metrics.len(),
        metrics.map_values(|p: (Seq<char>, BigInt)| p.0).no_duplicates(),
        effect_upto(prev, m, evicted(m, e, t), e, t, metrics, groups, val, n - 1),
    ensures
        effect_upto(
            add_many(prev, metric_keys_at(e, t, metrics[n - 1].0, groups), val(metrics[n - 1].1)),
            m,
            evicted(m, e, t),
            e,
            t,
            metrics,
            groups,
            val,
            n,
        ),
{
    let keys = metric_keys_at(e, t, metrics[n - 1].0, groups);
    let v = val(metrics[n - 1].1);
    let cur = add_many(prev, keys, v);
    let ps = expired_prefixes_at(e, t);
    let base = evicted(m, e, t);
    lemma_written_keys_survive(e, t, metrics[n - 1].0, groups);
    let names = metrics.map_values(|p: (Seq<char>, BigInt)| p.0);
    assert forall|i: int, j: int| 0 <= i < n && 0 <= j < 3 implies value_at(cur, #[trigger] metric_keys_at(e, t, metrics[i].0, groups)[j])
        == value_at(m, metric_keys_at(e, t, metrics[i].0, groups)[j]) + val(metrics[i].1) by {
        let k = metric_keys_at(e, t, metrics[i].0, groups)[j];
        lemma_add_many(prev, keys, v, k);
        if i < n - 1 {
            assert(names[i] != names[n - 1]);
            lemma_metric_keys_distinct(e, t, metrics[i].0, metrics[n - 1].0, groups);
            assert(!keys.contains(k));
        } else {
            assert(keys[j] == k);
            assert(keys.contains(k));
            assert(!written_by(e, t, metrics, groups, n - 1, k)) by {
                if written_by(e, t, metrics, groups, n - 1, k) {
                    let (i2, j2) = choose|i2: int, j2: int| 0 <= i2 < n - 1 && 0 <= j2 < 3 && #[trigger] metric_keys_at(e, t, metrics[i2].0, groups)[j2] == k;
                    assert(names[i2] != names[n - 1]);
                    lemma_metric_keys_distinct(e, t, metrics[i2].0, metrics[n - 1].0, groups);
                }
            }
            assert(value_at(prev, k) == value_at(base, k));
            assert(!starts_with(k, ps[0]));
            assert(!starts_with(k, ps[1]));
            assert(value_at(base, k) == value_at(m, k));
        }
    }
    assert forall|k: Seq<char>| !written_by(e, t, metrics, groups, n, k) implies #[trigger] value_at(cur, k) == value_at(base, k)
        && cur.contains_key(k) == base.contains_key(k) by {
        lemma_add_many(prev, keys, v, k);
        if keys.contains(k) {
            let j = choose|j: int| 0 <= j < keys.len() && keys[j] == k;
            assert(metric_keys_at(e, t, metrics[n - 1].0, groups)[j] == k);
        }
        if written_by(e, t, metrics, groups, n - 1, k) {
            let (i2, j2) = choose|i2: int, j2: int| 0 <= i2 < n - 1 && 0 <= j2 < 3 && #[trigger] metric_keys_at(e, t, metrics[i2].0, groups)[j2] == k;
            assert(metric_keys_at(e, t, metrics[i2].0, groups)[j2] == k);
        }
    }
}

proof fn lemma_write_effect_upto(
    m: Contents,
    e: Seq<char>,
    t: int,
    metrics: Seq<(Seq<char>, BigInt)>,
    groups: Seq<Seq<char>>,
    val: spec_fn(BigInt) -> int,
    n: int,
)
    requires
        0 <= n <= metrics.len(),
        metrics.map_values(|p: (Seq<char>, BigInt)| p.0).no_duplicates(),
    ensures
        effect_upto(
            replay(m, write_ops(e, t, metrics, groups).subrange(0, 2 + n), val),
            m,
            evicted(m, e, t),
            e,
            t,
            metrics,
            groups,
            val,
            n,
        ),
    decreases n,
{
    if n == 0 {
        lemma_after_evictions(m, e, t, metrics, groups, val);
    } else {
        lemma_write_effect_upto(m, e, t, metrics, groups, val, n - 1);
        lemma_addition_step(m, e, t, metrics, groups, val, n);
        lemma_effect_step(
            replay(m, write_ops(e, t, metrics, groups).subrange(0, 2 + n - 1), val),
            m, e, t, metrics, groups, val, n,
        );
    }
}

/// The whole effect of one write at `t` with distinct metric names: each metric's total,
/// day and hour keys gain the metric's value; every other key keeps what it held after
/// the evictions.
pub proof fn lemma_write_effect(
    m: Contents,
    e: Seq<char>,
    t: int,
    metrics: Seq<(Seq<char>, BigInt)>,
    groups: Seq<Seq<char>>,
    val: spec_fn(BigInt) -> int,
)
    requires
        metrics.map_values(|p: (Seq<char>, BigInt)| p.0).no_duplicates(),
    ensures
        forall|i: int, j: int|
            0 <= i < metrics.len() && 0 <= j < 3 ==> value_at(
                replay(m, write_ops(e, t, metrics, groups), val),
                #[trigger] metric_keys_at(e, t, metrics[i].0, groups)[j],
            ) == value_at(m, metric_keys_at(e, t, metrics[i].0, groups)[j]) + val(metrics[i].1),
        forall|k: Seq<char>|
            !written_by(e, t, metrics, groups, metrics.len() as int, k) ==> #[trigger] value_at(
                replay(m, write_ops(e, t, metrics, groups), val),
                k,
            ) == value_at(evicted(m, e, t), k) && replay(m, write_ops(e, t, metrics, groups), val).contains_key(k)
                == evicted(m, e, t).contains_key(k),
{
    lemma_write_effect_upto(m, e, t, metrics, groups, val, metrics.len() as int);
    lemma_one_eviction(e, t);
    let ops = write_ops(e, t, metrics, groups);
    assert(ops.subrange(0, 2 + metrics.len() as int) =~= ops);
}

} // verus!
