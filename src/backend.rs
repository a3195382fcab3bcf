use vstd::prelude::*;
use substreams::scalar::BigInt;
use substreams::store::{StoreAdd, StoreAddBigInt, StoreDelete};
use crate::store::StoreOp;

verus! {

/// An accumulator store together with the log of every operation sent to it.
/// Only the two sending methods extend the log.
pub struct AccumulatorStore {
    inner: StoreAddBigInt,
    log: Ghost<Seq<StoreOp>>,
}

impl AccumulatorStore {
    /// The store that operations are sent to.
    pub closed spec fn inner(&self) -> StoreAddBigInt {
        self.inner
    }

    /// Every operation sent so far, in order.
    pub closed spec fn sent(&self) -> Seq<StoreOp> {
        self.log@
    }

    pub fn new(inner: StoreAddBigInt) -> (r: Self)
        ensures
            r.inner() == inner,
            r.sent() == Seq::<StoreOp>::empty(),
    {
        AccumulatorStore { inner, log: Ghost(Seq::empty()) }
    }

    /// Relies on `StoreDelete::delete_prefix` of substreams: it hands the prefix to the
    /// host store, which removes every key that begins with it.
    #[verifier::external_body]
    pub fn delete_prefix(&mut self, prefix: &String)
        ensures
            final(self).inner() == old(self).inner(),
            final(self).sent() == old(self).sent().push(StoreOp::DeletePrefix(prefix@)),
    {
        self.inner.delete_prefix(0, prefix)
    }

    /// Relies on `StoreAdd::add_many` of substreams: it hands each key with the value to
    /// the host store, which adds the value to each key.
    #[verifier::external_body]
    pub fn add_many(&mut self, keys: &Vec<String>, value: &BigInt)
        ensures
            final(self).inner() == old(self).inner(),
            final(self).sent() == old(self).sent().push(
                StoreOp::AddMany(keys@.map_values(|k: String| k@), *value),
            ),
    {
        self.inner.add_many(0, keys, value)
    }
}

} // verus!
