//! The encoder over byte slices.

use vstd::prelude::*;

use crate::block::{le32, EOS_MAGIC};
use crate::error::Error;
use crate::frontend_bytes::{frame_body, FrontendBytes, BYTES_LIMIT};
use crate::history::HistoryTable;

verus! {

/// An encoder that keeps its history table from one input to the next.
pub struct LzfseEncoder {
    table: Option<HistoryTable>,
}

impl LzfseEncoder {
    pub closed spec fn wf(&self) -> bool {
        self.table matches Some(t) && t.wf()
    }

    pub fn new() -> (r: LzfseEncoder)
        ensures
            r.wf(),
    {
        LzfseEncoder { table: Some(HistoryTable::new()) }
    }

    /// Appends the frame for `src` to `dst`. Fails with `BufferOverflow`, and writes nothing,
    /// where `src` is longer than `BYTES_LIMIT`.
    pub fn encode_bytes(&mut self, src: &[u8], dst: &mut Vec<u8>) -> (r: Result<(), Error>)
        requires
            old(self).wf(),
        ensures
            final(self).wf(),
            r.is_err() <==> src@.len() > BYTES_LIMIT,
            r.is_err() ==> r == Err::<(), Error>(Error::BufferOverflow) && final(dst)@ == old(dst)@,
            r.is_ok() ==> exists|body: Seq<u8>|
                {
                    &&& #[trigger] (old(dst)@ + body + le32(EOS_MAGIC)) == final(dst)@
                    &&& frame_body(src@, body)
                },
    {
        if src.len() > BYTES_LIMIT {
            return Err(Error::BufferOverflow);
        }
        let table = match self.table.take() {
            Some(t) => t,
            None => HistoryTable::new(),
        };
        let mut frontend = FrontendBytes::new(table, src);
        frontend.execute(dst);
        self.table = Some(frontend.into_table());
        Ok(())
    }
}

/// Appends the frame for `src` to `dst`, with an encoder of its own.
pub fn encode_bytes(src: &[u8], dst: &mut Vec<u8>) -> (r: Result<(), Error>)
    ensures
        r.is_err() <==> src@.len() > BYTES_LIMIT,
        r.is_err() ==> r == Err::<(), Error>(Error::BufferOverflow) && final(dst)@ == old(dst)@,
        r.is_ok() ==> exists|body: Seq<u8>|
            {
                &&& #[trigger] (old(dst)@ + body + le32(EOS_MAGIC)) == final(dst)@
                &&& frame_body(src@, body)
            },
{
    let mut encoder = LzfseEncoder::new();
    encoder.encode_bytes(src, dst)
}

} // verus!
