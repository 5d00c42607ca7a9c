//! The single-byte-delimiter chunker: one source read per call, then a
//! backward search of the newly read region for the delimiter.

use crate::search::{
    byte_split, has_byte, lemma_last_byte_end_unique, rfind_byte,
};
use crate::source::ByteSource;
use vstd::pervasive::VecAdditionalExecFns;
use vstd::prelude::*;
use vstd::slice::slice_subrange;

verus! {

/// Why a chunking call produced no bytes: the source is exhausted, or a
/// read failed; the failure's cause is kept as text.
#[derive(Debug, PartialEq)]
pub enum ReaderErr {
    Finished,
    IoError(String),
}

/// Splits a byte stream into chunks that end at a delimiter byte, carrying
/// the bytes after the last delimiter of each read over to the next call.
pub struct CsvChunker {
    leftover_chunk: Vec<u8>,
    line_change_symbol: u8,
}

impl CsvChunker {
    /// The bytes read but not yet ended by a delimiter, to be placed at the
    /// front of the next chunk.
    pub closed spec fn leftover(&self) -> Seq<u8> {
        self.leftover_chunk@
    }

    /// The delimiter byte.
    pub closed spec fn symbol(&self) -> u8 {
        self.line_change_symbol
    }

    pub fn new(line_change_symbol: u8) -> (r: Self)
        ensures
            r.leftover() == Seq::<u8>::empty(),
            r.symbol() == line_change_symbol,
    {
        let r = CsvChunker { leftover_chunk: Vec::new(), line_change_symbol };
        proof {
            assert(r.leftover() =~= Seq::<u8>::empty());
        }
        r
    }

    /// One chunking step: place the leftover at the front of
    /// `write_buffer`, read once from `reader` into the space behind it,
    /// and split the newly read region after its last delimiter byte. The
    /// bytes before the split, together with the leftover, form the chunk
    /// `write_buffer[..produced]`; the bytes after it become the new
    /// leftover. At end of data a non-empty leftover is flushed as a final
    /// chunk; `Finished` is returned only when nothing is left at all.
    pub fn read_and_write<R: ByteSource>(
        &mut self,
        reader: &mut R,
        write_buffer: &mut Vec<u8>,
    ) -> (r: Result<usize, ReaderErr>)
        requires
            old(self).leftover().len() < old(write_buffer)@.len(),
        ensures
            final(self).symbol() == old(self).symbol(),
            final(write_buffer)@.len() == old(write_buffer)@.len(),
            match r {
                Ok(produced) => ({
                    let consumed = old(reader).remaining().len() - final(reader).remaining().len();
                    let region = old(reader).remaining().take(consumed as int);
                    let data = old(self).leftover() + region;
                    let sp = byte_split(region, old(self).symbol());
                    &&& 0 <= consumed <= old(reader).remaining().len()
                    &&& final(reader).remaining() == old(reader).remaining().skip(
                        consumed as int,
                    )
                    &&& consumed <= old(write_buffer)@.len() - old(self).leftover().len()
                    &&& produced == old(self).leftover().len() + sp
                    &&& final(self).leftover() == region.skip(sp)
                    &&& produced + final(self).leftover().len() == data.len()
                    &&& produced <= final(write_buffer)@.len()
                    &&& final(write_buffer)@.subrange(0, produced as int) == data.take(
                        produced as int,
                    )
                    &&& (consumed == 0 ==> old(reader).remaining().len() == 0 && old(
                        self,
                    ).leftover().len() > 0)
                    &&& (final(self).leftover().len() > 0 ==> produced > 0 && final(write_buffer)@[produced - 1] == old(self).symbol() && !has_byte(
                        final(self).leftover(),
                        old(self).symbol(),
                    ))
                }),
                Err(e) => ({
                    &&& final(self).leftover() == old(self).leftover()
                    &&& match e {
                        ReaderErr::Finished => {
                            &&& old(reader).remaining().len() == 0
                            &&& final(reader).remaining().len() == 0
                            &&& old(self).leftover().len() == 0
                        },
                        ReaderErr::IoError(_) => final(reader).remaining() == old(
                            reader,
                        ).remaining(),
                    }
                }),
            },
    {
        let ghost old_leftover = self.leftover_chunk@;
        let ghost sym0 = self.line_change_symbol;
        let ghost buf0 = write_buffer@;
        let ghost rem0 = reader.remaining();
        let cap = write_buffer.len();
        let leftover_size = self.leftover_chunk.len();
        let mut i: usize = 0;
        while i < leftover_size
            invariant
                i <= leftover_size,
                leftover_size == self.leftover_chunk@.len(),
                self.leftover_chunk@ == old_leftover,
                self.line_change_symbol == sym0,
                leftover_size < buf0.len(),
                cap == buf0.len(),
                write_buffer@.len() == buf0.len(),
                forall|j: int| 0 <= j < i ==> write_buffer@[j] == old_leftover[j],
                forall|j: int| i <= j < buf0.len() ==> write_buffer@[j] == buf0[j],
            decreases leftover_size - i,
        {
            let b = self.leftover_chunk[i];
            write_buffer.set(i, b);
            i = i + 1;
        }
        match reader.read_into(write_buffer, leftover_size) {
            Ok(n) => {
                proof {
                    assert(reader.remaining() =~= rem0.skip(n as int));
                }
                let ghost region = rem0.take(n as int);
                let ghost data = old_leftover + region;
                proof {
                    assert forall|j: int| 0 <= j < leftover_size implies write_buffer@[j]
                        == old_leftover[j] by {
                        assert(write_buffer@.subrange(0, leftover_size as int)[j]
                            == write_buffer@[j]);
                    }
                    assert forall|j: int| 0 <= j < n implies write_buffer@[leftover_size + j]
                        == region[j] by {
                        assert(write_buffer@.subrange(
                            leftover_size as int,
                            leftover_size + n,
                        )[j] == write_buffer@[leftover_size + j]);
                    }
                }
                if n == 0 {
                    if leftover_size > 0 {
                        self.leftover_chunk.clear();
                        proof {
                            assert(region =~= Seq::<u8>::empty());
                            assert(!has_byte(region, self.line_change_symbol));
                            assert(byte_split(region, self.line_change_symbol) == 0);
                            assert(self.leftover() =~= region.skip(0));
                            assert(write_buffer@.subrange(0, leftover_size as int) =~= data.take(
                                leftover_size as int,
                            ));
                        }
                        Ok(leftover_size)
                    } else {
                        Err(ReaderErr::Finished)
                    }
                } else {
                    let end = leftover_size + n;
                    let hay = slice_subrange(write_buffer.as_slice(), leftover_size, end);
                    proof {
                        assert(hay@ =~= region);
                    }
                    match rfind_byte(self.line_change_symbol, hay) {
                        Some(j) => {
                            let last_index = leftover_size + j + 1;
                            proof {
                                lemma_last_byte_end_unique(
                                    region,
                                    self.line_change_symbol,
                                    j as int,
                                );
                                assert(has_byte(region, self.line_change_symbol));
                                assert(byte_split(region, self.line_change_symbol) == j + 1);
                            }
                            self.leftover_chunk.clear();
                            let ghost bufr = write_buffer@;
                            let mut k = last_index;
                            while k < end
                                invariant
                                    last_index <= k <= end,
                                    end <= cap,
                                    cap == write_buffer@.len(),
                                    write_buffer@ == bufr,
                                    self.line_change_symbol == sym0,
                                    self.leftover_chunk@.len() == k - last_index,
                                    forall|m: int|
                                        0 <= m < k - last_index
                                            ==> self.leftover_chunk@[m] == write_buffer@[
                                            last_index + m
                                        ],
                                decreases end - k,
                            {
                                let b = write_buffer[k];
                                self.leftover_chunk.push(b);
                                k = k + 1;
                            }
                            proof {
                                assert(self.leftover() =~= region.skip(j + 1));
                                assert(write_buffer@.subrange(0, last_index as int) =~= data.take(
                                    last_index as int,
                                ));
                                assert(write_buffer@[last_index - 1] == region[j as int]);
                                if self.leftover().len() > 0 && has_byte(
                                    self.leftover(),
                                    self.line_change_symbol,
                                ) {
                                    let w = choose|w: int|
                                        0 <= w < self.leftover().len() && self.leftover()[w]
                                            == self.line_change_symbol;
                                    assert(region[j + 1 + w] == self.line_change_symbol);
                                }
                            }
                            Ok(last_index)
                        },
                        None => {
                            self.leftover_chunk.clear();
                            proof {
                                assert(byte_split(region, self.line_change_symbol)
                                    == region.len());
                                assert(self.leftover() =~= region.skip(region.len() as int));
                                assert(write_buffer@.subrange(0, end as int) =~= data.take(
                                    end as int,
                                ));
                            }
                            Ok(end)
                        },
                    }
                }
            },
            Err(e) => Err(ReaderErr::IoError(e)),
        }
    }
}

} // verus!
