//! Flush events: a callback trait for observers of the store, and the
//! description of one flush job handed to them.

use vstd::prelude::*;

use crate::bytes::copy_bytes;
use crate::store::Store;
use crate::Error;

verus! {

/// What one flush job covered: the column family and the range of write
/// sequence numbers made durable.
pub struct FlushJobInfo {
    name: Vec<u8>,
    smallest: u64,
    largest: u64,
}

/// Mathematical value of a [`FlushJobInfo`].
#[verifier::ext_equal]
pub ghost struct FlushJobInfoView {
    pub name: Seq<u8>,
    pub smallest: u64,
    pub largest: u64,
}

impl View for FlushJobInfo {
    type V = FlushJobInfoView;

    closed spec fn view(&self) -> FlushJobInfoView {
        FlushJobInfoView { name: self.name@, smallest: self.smallest, largest: self.largest }
    }
}

impl FlushJobInfo {
    /// The name of the flushed column family.
    pub fn cf_name(&self) -> (r: Vec<u8>)
        ensures
            r@ == self@.name,
    {
        copy_bytes(&self.name)
    }

    /// The largest sequence number the flush covered.
    pub fn largest_seqno(&self) -> (r: u64)
        ensures
            r == self@.largest,
    {
        self.largest
    }

    /// The smallest sequence number the flush covered.
    pub fn smallest_seqno(&self) -> (r: u64)
        ensures
            r == self@.smallest,
    {
        self.smallest
    }
}

/// Callbacks fired around store events such as flushes. Implementors should
/// return promptly: the store waits for them.
pub trait EventListener: Send + Sync {
    /// Called before a flush starts; the job's sequence range is ordered.
    fn on_flush_begin(&self, _info: &FlushJobInfo)
        requires
            _info@.smallest <= _info@.largest,
    {
    }

    /// Called after a flush completes; the job's sequence range is ordered.
    fn on_flush_completed(&self, _info: &FlushJobInfo)
        requires
            _info@.smallest <= _info@.largest,
    {
    }
}

impl Store {
    /// Flushes the write buffer of the column family named `cf`, firing the
    /// listener's callbacks around the job. The store's logical content is
    /// unchanged; the job covers the sequence numbers written to the family
    /// so far. Fails when no such family is open.
    pub fn flush<L: EventListener>(&self, cf: &Vec<u8>, listener: &L) -> (r: Result<(), Error>)
        requires
            self@.wf(),
        ensures
            match r {
                Ok(()) => self@.has_cf(cf@),
                Err(e) => e == Error::EngineError && !self@.has_cf(cf@),
            },
    {
        let idx = match self.find_cf(cf) {
            Some(i) => i,
            None => {
                return Err(Error::EngineError);
            },
        };
        let largest = if self.next_seqno > 0 {
            self.next_seqno - 1
        } else {
            0
        };
        let info = FlushJobInfo { name: copy_bytes(cf), smallest: 0, largest };
        listener.on_flush_begin(&info);
        listener.on_flush_completed(&info);
        Ok(())
    }
}

} // verus!
