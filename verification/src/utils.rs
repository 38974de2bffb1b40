//! The buffer in which the chunks of a message body are gathered.

use crate::buf::{
    bytes_chunk, bytes_is_empty, bytes_len, bytes_mut_extend_from_slice, bytes_mut_freeze,
    bytes_mut_from_bytes, bytes_mut_seq, bytes_new, bytes_seq, BUF_LIMIT,
};
use ntex_bytes::{Bytes, BytesMut};
use vstd::prelude::*;

verus! {

/// What has been gathered so far: nothing, one chunk as it came, or several
/// chunks copied together.
pub enum Data {
    Chunk(Bytes),
    MutChunk(BytesMut),
    Empty,
}

impl View for Data {
    type V = Seq<u8>;

    /// The bytes gathered so far.
    open spec fn view(&self) -> Seq<u8> {
        match self {
            Data::Chunk(data) => bytes_seq(data),
            Data::MutChunk(data) => bytes_mut_seq(data),
            Data::Empty => Seq::empty(),
        }
    }
}

impl Data {
    /// Hands out what has been gathered and starts anew.
    pub fn get(&mut self) -> (all: Bytes)
        ensures
            bytes_seq(&all) == old(self)@,
            final(self)@ == Seq::<u8>::empty(),
            *final(self) is Empty,
    {
        let mut taken = Data::Empty;
        core::mem::swap(self, &mut taken);
        match taken {
            Data::Chunk(data) => data,
            Data::MutChunk(data) => bytes_mut_freeze(data),
            Data::Empty => bytes_new(),
        }
    }

    /// Adds a chunk behind what has been gathered. An empty chunk changes
    /// nothing, and is taken whatever has been gathered; any other chunk
    /// must fit in one buffer together with what is there.
    pub fn push(&mut self, data: Bytes)
        requires
            bytes_seq(&data).len() > 0 ==> old(self)@.len() + bytes_seq(&data).len()
                <= BUF_LIMIT,
        ensures
            final(self)@ == old(self)@ + bytes_seq(&data),
    {
        if !bytes_is_empty(&data) {
            let mut taken = Data::Empty;
            core::mem::swap(self, &mut taken);
            *self = match taken {
                Data::Chunk(d) => {
                    let mut d = bytes_mut_from_bytes(d);
                    bytes_mut_extend_from_slice(&mut d, bytes_chunk(&data));
                    Data::MutChunk(d)
                },
                Data::MutChunk(mut d) => {
                    bytes_mut_extend_from_slice(&mut d, bytes_chunk(&data));
                    Data::MutChunk(d)
                },
                Data::Empty => {
                    assert(Seq::<u8>::empty() + bytes_seq(&data) =~= bytes_seq(&data));
                    Data::Chunk(data)
                },
            };
        } else {
            assert(self@ + bytes_seq(&data) =~= self@);
        }
    }

    /// The number of bytes gathered so far.
    pub fn len(&self) -> (n: usize)
        ensures
            n == self@.len(),
    {
        match self {
            Data::Chunk(data) => bytes_len(data),
            Data::MutChunk(data) => crate::buf::bytes_mut_len(data),
            Data::Empty => 0,
        }
    }
}

} // verus!
