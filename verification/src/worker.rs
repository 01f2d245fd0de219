//! A worker: a persistent unit of execution that compresses one block at a
//! time over a strict send-then-receive protocol.
//!
//! The running system backs each worker with a background thread and a pair
//! of channels; that plumbing lives outside the library.  Here the worker is
//! modelled by what the protocol observes: `pending` is set while a sent
//! block's result has not been retrieved, and the result retrieved is the
//! compression of exactly the block last sent.  A worker holds at most one
//! outstanding block, so the result is modelled as ready from the moment the
//! block is sent.

use vstd::prelude::*;

use crate::bits::write_bits;
use crate::block::generate_block_data;
use crate::block::spec_block_bits;
use crate::block::spec_block_crc;
use crate::block::BLOCK_CAPACITY;
use crate::checksum::spec_combine;

verus! {

/// A raw block handed to a worker.
pub type Work = Vec<u8>;

/// What a worker hands back: compressed bits and the block's checksum.
pub type ComputationResult = (Vec<bool>, u32);

/// One worker of the pool, identified by its index.
pub struct WorkerThread {
    pub id: usize,
    pub pending: bool,
    pub result: Option<ComputationResult>,
}

impl WorkerThread {
    /// No block outstanding, nothing buffered.
    pub open spec fn idle(self) -> bool {
        !self.pending && self.result is None
    }

    /// A block is outstanding, and the buffered result is the compression of
    /// `block`.
    pub open spec fn holds_result_for(self, block: Seq<u8>) -> bool {
        &&& self.pending
        &&& self.result is Some
        &&& self.result.unwrap().0@ == spec_block_bits(block)
        &&& self.result.unwrap().1 == spec_block_crc(block)
    }

    /// Start a worker with a fixed identity; it waits idle for work.
    pub fn spawn(id: usize) -> (r: WorkerThread)
        ensures
            r.idle(),
            r.id == id,
    {
        WorkerThread { id, pending: false, result: None }
    }

    /// Hand one raw block to the worker.  The previous result must have been
    /// retrieved: a worker never holds more than one outstanding block.
    pub fn send_work(&mut self, work_to_send: Work)
        requires
            old(self).idle(),
            1 <= work_to_send@.len() <= BLOCK_CAPACITY,
        ensures
            final(self).holds_result_for(work_to_send@),
            final(self).id == old(self).id,
    {
        self.pending = true;
        self.result = Some(generate_block_data(&work_to_send));
    }

    /// Retrieve the outstanding result: append its compressed bits to the
    /// output and fold its checksum into the running stream checksum.
    pub fn flush_work_buffer(&mut self, bit_writer: &mut Vec<bool>, total_crc: &mut u32)
        requires
            old(self).pending,
            old(self).result is Some,
        ensures
            final(self).idle(),
            final(self).id == old(self).id,
            final(bit_writer)@ == old(bit_writer)@ + old(self).result.unwrap().0@,
            *final(total_crc) == spec_combine(*old(total_crc), old(self).result.unwrap().1),
    {
        match &self.result {
            Some(r) => {
                write_bits(bit_writer, &r.0);
                *total_crc = r.1 ^ ((*total_crc << 1) | (*total_crc >> 31));
            },
            None => {
                proof {
                    assert(false);
                }
            },
        }
        self.result = None;
        self.pending = false;
    }
}

} // verus!
