use vstd::prelude::*;
use substreams::pb::substreams::Clock;
use substreams::scalar::BigInt;
use substreams::store::StoreAddBigInt;
use crate::backend::AccumulatorStore;
use crate::keys::{expired_prefixes, expired_prefixes_at, metric_keys, metric_keys_at};
use crate::record::strings_view;

verus! {

#[verifier::external_type_specification]
pub struct ExTimestamp(prost_types::Timestamp);

#[verifier::external_type_specification]
pub struct ExClock(Clock);

#[verifier::external_type_specification]
#[verifier::external_body]
pub struct ExStoreAddBigInt(StoreAddBigInt);

#[verifier::external_type_specification]
#[verifier::external_body]
pub struct ExBigInt(BigInt);

/// One operation sent to the accumulator store.
pub enum StoreOp {
    /// Remove every key that begins with the prefix.
    DeletePrefix(Seq<char>),
    /// Add the value to each of the keys.
    AddMany(Seq<Seq<char>>, BigInt),
}

/// The deletions that evict the buckets before those holding `t`, entity by entity.
pub open spec fn eviction_ops(entities: Seq<Seq<char>>, t: int) -> Seq<StoreOp>
    decreases entities.len(),
{
    if entities.len() == 0 {
        Seq::<StoreOp>::empty()
    } else {
        let p = expired_prefixes_at(entities.last(), t);
        eviction_ops(entities.drop_last(), t) + seq![StoreOp::DeletePrefix(p[0]), StoreOp::DeletePrefix(p[1])]
    }
}

/// The additions of one write of the metrics at `t`, one per metric, in order, each
/// adding the metric's value to its three keys.
pub open spec fn addition_ops(entity: Seq<char>, t: int, metrics: Seq<(Seq<char>, BigInt)>, groups: Seq<Seq<char>>) -> Seq<StoreOp> {
    Seq::new(metrics.len(), |i: int| StoreOp::AddMany(metric_keys_at(entity, t, metrics[i].0, groups), metrics[i].1))
}

/// Everything that one `add_metrics` call sends: the evictions, then the additions.
pub open spec fn write_ops(entity: Seq<char>, t: int, metrics: Seq<(Seq<char>, BigInt)>, groups: Seq<Seq<char>>) -> Seq<StoreOp> {
    eviction_ops(seq![entity], t) + addition_ops(entity, t, metrics, groups)
}

/// The metrics of a call as (name, value) pairs.
pub open spec fn metric_entries(metrics: Seq<(&str, BigInt)>) -> Seq<(Seq<char>, BigInt)> {
    metrics.map_values(|m: (&str, BigInt)| (m.0@, m.1))
}

pub open spec fn metric_names(metrics: Seq<(&str, BigInt)>) -> Seq<Seq<char>> {
    metrics.map_values(|m: (&str, BigInt)| m.0@)
}

/// Writes metrics into total, day and hour buckets of an accumulator store.
pub struct TimeSeriesStore {
    pub clock: Clock,
    pub store: AccumulatorStore,
}

impl TimeSeriesStore {
    pub open spec fn has_time(&self) -> bool {
        self.clock.timestamp is Some
    }

    pub open spec fn now(&self) -> int {
        self.clock.timestamp.unwrap().seconds as int
    }

    /// Every operation sent to the store so far, in order.
    pub open spec fn sent(&self) -> Seq<StoreOp> {
        self.store.sent()
    }

    pub fn new(clock: Clock, store: StoreAddBigInt) -> (r: Self)
        ensures
            r.clock == clock,
            r.store.inner() == store,
            r.sent() == Seq::<StoreOp>::empty(),
    {
        TimeSeriesStore { clock, store: AccumulatorStore::new(store) }
    }

    fn current_time(&self) -> (t: i64)
        requires
            self.has_time(),
        ensures
            t as int == self.now(),
    {
        match &self.clock.timestamp {
            Some(ts) => ts.seconds,
            None => 0,
        }
    }

    fn evict(&mut self, entity: &str, t: i64)
        ensures
            final(self).clock == old(self).clock,
            final(self).store.inner() == old(self).store.inner(),
            final(self).sent() == old(self).sent() + seq![
                StoreOp::DeletePrefix(expired_prefixes_at(entity@, t as int)[0]),
                StoreOp::DeletePrefix(expired_prefixes_at(entity@, t as int)[1]),
            ],
    {
        let prefixes = expired_prefixes(entity, t);
        let ghost pv = prefixes@.map_values(|k: String| k@);
        assert(pv.len() == 2);
        assert(pv[0] == prefixes@[0]@);
        assert(pv[1] == prefixes@[1]@);
        self.store.delete_prefix(&prefixes[0]);
        self.store.delete_prefix(&prefixes[1]);
        assert(self.sent() =~= old(self).sent() + seq![
            StoreOp::DeletePrefix(expired_prefixes_at(entity@, t as int)[0]),
            StoreOp::DeletePrefix(expired_prefixes_at(entity@, t as int)[1]),
        ]);
    }

    /// Deletes, for each entity, the day and hour buckets just before the current ones.
    pub fn update(&mut self, entities: Vec<&str>)
        requires
            old(self).has_time(),
        ensures
            final(self).clock == old(self).clock,
            final(self).store.inner() == old(self).store.inner(),
            final(self).sent() == old(self).sent() + eviction_ops(
                entities@.map_values(|e: &str| e@),
                old(self).now(),
            ),
    {
        let t = self.current_time();
        let ghost ev = entities@.map_values(|e: &str| e@);
        let mut i: usize = 0;
        assert(ev.subrange(0, 0) =~= Seq::<Seq<char>>::empty());
        assert(old(self).sent() + eviction_ops(ev.subrange(0, 0), t as int) =~= old(self).sent());
        while i < entities.len()
            invariant
                i <= entities@.len(),
                ev == entities@.map_values(|e: &str| e@),
                t as int == old(self).now(),
                self.clock == old(self).clock,
                self.store.inner() == old(self).store.inner(),
                self.sent() == old(self).sent() + eviction_ops(ev.subrange(0, i as int), t as int),
            decreases entities@.len() - i,
        {
            self.evict(entities[i], t);
            assert(ev.subrange(0, i + 1).drop_last() =~= ev.subrange(0, i as int));
            assert(ev.subrange(0, i + 1).last() == entities@[i as int]@);
            assert(self.sent() =~= old(self).sent() + eviction_ops(ev.subrange(0, i + 1), t as int));
            i = i + 1;
        }
        assert(ev.subrange(0, i as int) =~= ev);
    }

    /// Evicts the entity's previous buckets, then adds each metric's value to its
    /// total, day and hour keys, all three in one call.
    pub fn add_metrics(&mut self, entity: &str, metrics: Vec<(&str, BigInt)>, groups: Vec<String>)
        requires
            old(self).has_time(),
            metric_names(metrics@).no_duplicates(),
        ensures
            final(self).clock == old(self).clock,
            final(self).store.inner() == old(self).store.inner(),
            final(self).sent() == old(self).sent() + write_ops(
                entity@,
                old(self).now(),
                metric_entries(metrics@),
                strings_view(groups@),
            ),
    {
        let one = vec![entity];
        assert(one@.map_values(|e: &str| e@) =~= seq![entity@]);
        self.update(one);
        let t = self.current_time();
        let ghost mid = self.sent();
        let ghost entries = metric_entries(metrics@);
        let ghost gs = strings_view(groups@);
        let mut i: usize = 0;
        assert(addition_ops(entity@, t as int, entries.subrange(0, 0), gs) =~= Seq::<StoreOp>::empty());
        assert(mid + addition_ops(entity@, t as int, entries.subrange(0, 0), gs) =~= mid);
        while i < metrics.len()
            invariant
                i <= metrics@.len(),
                entries == metric_entries(metrics@),
                gs == strings_view(groups@),
                t as int == old(self).now(),
                self.clock == old(self).clock,
                self.store.inner() == old(self).store.inner(),
                self.sent() == mid + addition_ops(entity@, t as int, entries.subrange(0, i as int), gs),
            decreases metrics@.len() - i,
        {
            let keys = metric_keys(entity, t, metrics[i].0, &groups);
            self.store.add_many(&keys, &metrics[i].1);
            assert(entries[i as int] == (metrics@[i as int].0@, metrics@[i as int].1));
            assert(self.sent() =~= mid + addition_ops(entity@, t as int, entries.subrange(0, i + 1), gs));
            i = i + 1;
        }
        assert(entries.subrange(0, i as int) =~= entries);
        assert(self.sent() =~= old(self).sent() + write_ops(entity@, t as int, entries, gs));
    }
}

} // verus!
