//! The downstream byte consumer.
//!
//! A [`Sink`] accepts whole output blocks. A write either succeeds, or
//! reports that the consumer has disconnected (the expected, clean way
//! for a run to end), or fails for some other reason (fatal). A write
//! that does not succeed consumes nothing.

use vstd::prelude::*;

use crate::runner::BUF_SIZE;

verus! {

/// The outcome of writing one block to a sink.
#[derive(Clone, Copy, PartialEq, Eq, Structural, Debug)]
pub enum SinkStatus {
    /// The block was accepted in full.
    Written,
    /// The consumer is gone; the run should end cleanly.
    Disconnected,
    /// Some other failure; the run should end with an error.
    Failed,
}

/// An abstract byte consumer, fed one block at a time.
///
/// Implementations decide when to report disconnection; the generator
/// core only relies on the accounting stated here: a successful write
/// appends exactly the block, and any other outcome appends nothing.
pub trait Sink {
    /// The bytes the sink has accepted so far. The default model is the
    /// coarsest one; a sink that callers reason about overrides it.
    open spec fn bytes(&self) -> Seq<u8> {
        Seq::<u8>::empty()
    }

    /// Whether the sink's consumer has disconnected. The default model
    /// is the coarsest one; a sink that callers reason about overrides
    /// it.
    open spec fn disconnected(&self) -> bool {
        false
    }

    /// Whether a write on the sink has failed for a reason other than
    /// disconnection. The default model is the coarsest one; a sink that
    /// callers reason about overrides it.
    open spec fn failed(&self) -> bool {
        false
    }

    /// Write one block of exactly `BUF_SIZE` bytes; on success the sink
    /// has accepted exactly these bytes, appended to what it held, and
    /// otherwise it is unchanged. A `Disconnected` answer is given only
    /// of a sink whose consumer is gone — and always of one whose
    /// consumer was already gone — and a `Failed` answer only of a sink
    /// on which a write has failed.
    fn write_block(&mut self, data: &Vec<u8>) -> (r: SinkStatus)
        requires
            data@.len() == BUF_SIZE,
        ensures
            r is Written ==> final(self).bytes() == old(self).bytes() + data@,
            !(r is Written) ==> final(self).bytes() == old(self).bytes(),
            r is Disconnected ==> final(self).disconnected(),
            r is Failed ==> final(self).failed(),
            old(self).disconnected() ==> r is Disconnected,
    ;
}

/// An in-memory sink: collects bytes until a configured limit is
/// reached, then reports disconnection, like a consumer that stops
/// reading after it has seen enough.
pub struct MemSink {
    /// Everything accepted so far.
    pub data: Vec<u8>,
    /// Once at least this many bytes are held, further writes are
    /// answered with `Disconnected`.
    pub limit: usize,
}

impl MemSink {
    /// A fresh, empty sink that disconnects once `limit` bytes are held.
    pub fn new(limit: usize) -> (r: MemSink)
        ensures
            r.data@ == Seq::<u8>::empty(),
            r.limit == limit,
    {
        MemSink { data: Vec::new(), limit }
    }
}

impl Sink for MemSink {
    open spec fn bytes(&self) -> Seq<u8> {
        self.data@
    }

    open spec fn disconnected(&self) -> bool {
        self.data@.len() >= self.limit
    }

    open spec fn failed(&self) -> bool {
        false
    }

    fn write_block(&mut self, data: &Vec<u8>) -> (r: SinkStatus) {
        if self.data.len() >= self.limit {
            SinkStatus::Disconnected
        } else {
            let mut j: usize = 0;
            while j < data.len()
                invariant
                    j <= data@.len(),
                    self.data@ == old(self).data@ + data@.take(j as int),
                    self.limit == old(self).limit,
                decreases data@.len() - j,
            {
                self.data.push(data[j]);
                assert(self.data@ =~= old(self).data@ + data@.take(j + 1));
                j = j + 1;
            }
            proof {
                assert(data@.take(data@.len() as int) =~= data@);
            }
            SinkStatus::Written
        }
    }
}

} // verus!
