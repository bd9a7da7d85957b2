use vstd::prelude::*;

verus! {

/// Nanoseconds in one second.
pub const NANOS_PER_SECOND: u64 = 1_000_000_000;

/// The block context that a running transaction can read: the chain it runs
/// on, the height of the block, and the block's time in nanoseconds since the
/// UNIX epoch.
pub struct NativeBlockContext {
    pub chain_id: String,
    pub height: u64,
    /// nanoseconds since UNIX_EPOCH
    pub timestamp_nanos: u64,
}

impl NativeBlockContext {
    pub fn new(chain_id: String, height: u64, timestamp_nanos: u64) -> (r: Self)
        ensures
            r.chain_id@ == chain_id@,
            r.height == height,
            r.timestamp_nanos == timestamp_nanos,
    {
        NativeBlockContext { chain_id, height, timestamp_nanos }
    }

    pub fn set_chain_id(&mut self, chain_id: String)
        ensures
            final(self).chain_id@ == chain_id@,
            final(self).height == old(self).height,
            final(self).timestamp_nanos == old(self).timestamp_nanos,
    {
        self.chain_id = chain_id;
    }

    pub fn get_chain_id(&self) -> (r: String)
        ensures
            r@ == self.chain_id@,
    {
        self.chain_id.clone()
    }

    pub fn set_block_height(&mut self, height: u64)
        ensures
            final(self).height == height,
            final(self).chain_id@ == old(self).chain_id@,
            final(self).timestamp_nanos == old(self).timestamp_nanos,
    {
        self.height = height;
    }

    /// Sets the block time from whole seconds; the time is kept in nanoseconds,
    /// so the seconds must fit in `u64` once scaled.
    pub fn set_block_timestamp(&mut self, timestamp: u64)
        requires
            timestamp as int * NANOS_PER_SECOND as int <= u64::MAX as int,
        ensures
            final(self).timestamp_nanos as int == timestamp as int * NANOS_PER_SECOND as int,
            final(self).chain_id@ == old(self).chain_id@,
            final(self).height == old(self).height,
    {
        self.timestamp_nanos = timestamp * NANOS_PER_SECOND;
    }

    pub fn set_block_timestamp_nanos(&mut self, timestamp_nanos: u64)
        ensures
            final(self).timestamp_nanos == timestamp_nanos,
            final(self).chain_id@ == old(self).chain_id@,
            final(self).height == old(self).height,
    {
        self.timestamp_nanos = timestamp_nanos;
    }

    /// The block height and the block time in whole seconds.
    pub fn get_block_info(&self) -> (r: (u64, u64))
        ensures
            r.0 == self.height,
            r.1 == self.timestamp_nanos / NANOS_PER_SECOND,
    {
        (self.height, self.timestamp_nanos / NANOS_PER_SECOND)
    }

    pub fn get_block_height(&self) -> (r: u64)
        ensures
            r == self.height,
    {
        self.height
    }

    /// The block time in whole seconds, rounded down.
    pub fn get_block_timestamp(&self) -> (r: u64)
        ensures
            r == self.timestamp_nanos / NANOS_PER_SECOND,
    {
        self.timestamp_nanos / NANOS_PER_SECOND
    }

    pub fn get_block_timestamp_nanos(&self) -> (r: u64)
        ensures
            r == self.timestamp_nanos,
    {
        self.timestamp_nanos
    }
}

} // verus!
