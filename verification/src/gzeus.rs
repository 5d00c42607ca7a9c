//! The byte-sequence-delimiter chunker: each call fills the destination
//! buffer completely (or up to end of data), then searches the newly read
//! region backward for the last occurrence of the delimiter sequence.

use crate::search::{
    has_seq, lemma_last_seq_end, lemma_last_seq_end_unique, rfind_seq, seq_at, seq_split,
};
use crate::source::ByteSource;
use vstd::pervasive::VecAdditionalExecFns;
use vstd::prelude::*;
use vstd::slice::slice_subrange;
use vstd::string::{StrSliceExecFns, StringSliceAdditionalSpecFns};

verus! {

/// Why a chunking call produced no bytes: the source is exhausted, or a
/// read failed; the failure's cause is kept as text.
#[derive(Debug)]
pub enum ReaderErr {
    Finished,
    IoError(String),
    Other(String),
}

/// Splits a byte stream into chunks that end at a delimiter byte sequence,
/// carrying the bytes after the last delimiter of each fill over to the
/// next call.
pub struct CsvChunker {
    leftover_chunk: Vec<u8>,
    delimiter: Vec<u8>,
}

impl CsvChunker {
    /// A chunker is well formed when its delimiter is non-empty.
    pub open spec fn wf(&self) -> bool {
        self.delim().len() >= 1
    }

    /// The bytes read but not yet ended by a delimiter, to be placed at the
    /// front of the next chunk.
    pub closed spec fn leftover(&self) -> Seq<u8> {
        self.leftover_chunk@
    }

    /// The delimiter byte sequence.
    pub closed spec fn delim(&self) -> Seq<u8> {
        self.delimiter@
    }

    pub fn new(new_line_symbol: &str) -> (r: Self)
        requires
            new_line_symbol.spec_bytes().len() >= 1,
        ensures
            r.wf(),
            r.leftover() == Seq::<u8>::empty(),
            r.delim() == new_line_symbol.spec_bytes(),
    {
        let delimiter = new_line_symbol.as_bytes_vec();
        let r = CsvChunker { leftover_chunk: Vec::new(), delimiter };
        proof {
            assert(r.leftover() =~= Seq::<u8>::empty());
        }
        r
    }

    /// Copies the leftover to the front of `buffer`, clears it, and
    /// returns how many bytes were placed; the rest of `buffer` is the
    /// region a reader should fill.
    pub fn push_leftover_to_buffer(&mut self, buffer: &mut Vec<u8>) -> (r: usize)
        requires
            old(self).leftover().len() <= old(buffer)@.len(),
        ensures
            r == old(self).leftover().len(),
            final(self).leftover() == Seq::<u8>::empty(),
            final(self).delim() == old(self).delim(),
            final(buffer)@.len() == old(buffer)@.len(),
            final(buffer)@.subrange(0, r as int) == old(self).leftover(),
            final(buffer)@.subrange(r as int, final(buffer)@.len() as int) == old(
                buffer,
            )@.subrange(r as int, old(buffer)@.len() as int),
    {
        let ghost old_leftover = self.leftover_chunk@;
        let ghost delim0 = self.delimiter@;
        let ghost buf0 = buffer@;
        let cap = buffer.len();
        let leftover_size = self.leftover_chunk.len();
        let mut i: usize = 0;
        while i < leftover_size
            invariant
                i <= leftover_size,
                leftover_size == self.leftover_chunk@.len(),
                self.leftover_chunk@ == old_leftover,
                self.delimiter@ == delim0,
                leftover_size <= buf0.len(),
                cap == buf0.len(),
                buffer@.len() == buf0.len(),
                forall|j: int| 0 <= j < i ==> buffer@[j] == old_leftover[j],
                forall|j: int| i <= j < buf0.len() ==> buffer@[j] == buf0[j],
            decreases leftover_size - i,
        {
            let b = self.leftover_chunk[i];
            buffer.set(i, b);
            i = i + 1;
        }
        self.leftover_chunk.clear();
        proof {
            assert(buffer@.subrange(0, leftover_size as int) =~= old_leftover);
            assert(buffer@.subrange(leftover_size as int, buffer@.len() as int) =~= buf0.subrange(
                leftover_size as int,
                buf0.len() as int,
            ));
            assert(self.leftover() =~= Seq::<u8>::empty());
        }
        leftover_size
    }

    /// One chunking step: place the leftover at the front of
    /// `write_buffer`, read from `reader` until the buffer is full or the
    /// data ends, and split the newly read region after its last delimiter
    /// occurrence. The bytes before the split, together with the leftover,
    /// form the chunk `write_buffer[..produced]`; the bytes after it become
    /// the new leftover. When the data ends before the buffer is full,
    /// everything read is emitted as a final chunk; `Finished` is returned
    /// only when nothing is left at all.
    #[verifier::loop_isolation(false)]
    pub fn read_and_write<R: ByteSource>(
        &mut self,
        reader: &mut R,
        write_buffer: &mut Vec<u8>,
    ) -> (r: Result<usize, ReaderErr>)
        requires
            old(self).wf(),
            old(self).leftover().len() < old(write_buffer)@.len(),
        ensures
            final(self).delim() == old(self).delim(),
            final(write_buffer)@.len() == old(write_buffer)@.len(),
            match r {
                Ok(produced) => ({
                    let space = old(write_buffer)@.len() - old(self).leftover().len();
                    let consumed = old(reader).remaining().len() - final(reader).remaining().len();
                    let region = old(reader).remaining().take(consumed as int);
                    let data = old(self).leftover() + region;
                    let sp = if consumed == space {
                        seq_split(region, old(self).delim())
                    } else {
                        region.len() as int
                    };
                    &&& final(reader).remaining() == old(reader).remaining().skip(
                        consumed as int,
                    )
                    &&& consumed == if old(reader).remaining().len() < space {
                        old(reader).remaining().len() as int
                    } else {
                        space as int
                    }
                    &&& produced == old(self).leftover().len() + sp
                    &&& final(self).leftover() == region.skip(sp)
                    &&& produced + final(self).leftover().len() == data.len()
                    &&& produced <= final(write_buffer)@.len()
                    &&& final(write_buffer)@.subrange(0, produced as int) == data.take(
                        produced as int,
                    )
                    &&& produced > 0
                    &&& (final(self).leftover().len() > 0 ==> produced >= old(self).delim().len()
                        && final(write_buffer)@.subrange(
                        produced - old(self).delim().len(),
                        produced as int,
                    ) == old(self).delim() && !has_seq(final(self).leftover(), old(self).delim()))
                }),
                Err(e) => ({
                    &&& final(self).leftover() == Seq::<u8>::empty()
                    &&& match e {
                        ReaderErr::Finished => {
                            &&& old(reader).remaining().len() == 0
                            &&& final(reader).remaining().len() == 0
                            &&& old(self).leftover().len() == 0
                        },
                        ReaderErr::IoError(_) => final(reader).remaining() == old(
                            reader,
                        ).remaining().skip(
                            old(reader).remaining().len() - final(reader).remaining().len(),
                        ),
                        ReaderErr::Other(_) => false,
                    }
                }),
            },
    {
        let ghost lo0 = self.leftover_chunk@;
        let ghost delim0 = self.delimiter@;
        let ghost rem0 = reader.remaining();
        let leftover_size = self.push_leftover_to_buffer(write_buffer);
        let capacity = write_buffer.len();
        let space = capacity - leftover_size;
        let mut cursor: usize = 0;
        let mut eof = false;
        while cursor < space && !eof
            invariant
                cursor <= space,
                space == capacity - leftover_size,
                capacity == write_buffer@.len(),
                cursor <= rem0.len(),
                reader.remaining() == rem0.skip(cursor as int),
                eof ==> cursor == rem0.len(),
                self.leftover_chunk@.len() == 0,
                self.delimiter@ == delim0,
                delim0.len() >= 1,
                leftover_size == lo0.len(),
                forall|j: int| 0 <= j < leftover_size ==> write_buffer@[j] == lo0[j],
                forall|j: int|
                    0 <= j < cursor ==> #[trigger] write_buffer@[leftover_size + j] == rem0[j],
            decreases space - cursor, (if eof { 0int } else { 1int }),
        {
            let ghost rem_here = reader.remaining();
            let ghost buf_here = write_buffer@;
            match reader.read_into(write_buffer, leftover_size + cursor) {
                Ok(n) => {
                    if n == 0 {
                        eof = true;
                        proof {
                            assert(rem_here.len() == 0);
                            assert(rem0.len() - cursor == 0);
                            assert forall|j: int| 0 <= j < capacity implies
                                #[trigger] write_buffer@[j] == buf_here[j] by {
                                if j < leftover_size + cursor {
                                    assert(write_buffer@.subrange(
                                        0,
                                        leftover_size + cursor,
                                    )[j] == write_buffer@[j]);
                                } else {
                                    assert(write_buffer@.subrange(
                                        leftover_size + cursor,
                                        capacity as int,
                                    )[j - leftover_size - cursor] == write_buffer@[j]);
                                }
                            }
                        }
                    } else {
                        proof {
                            assert forall|j: int| 0 <= j < leftover_size implies write_buffer@[j]
                                == lo0[j] by {
                                assert(write_buffer@.subrange(
                                    0,
                                    leftover_size + cursor,
                                )[j] == write_buffer@[j]);
                                assert(buf_here[j] == lo0[j]);
                            }
                            assert forall|j: int| 0 <= j < cursor + n implies
                                #[trigger] write_buffer@[leftover_size + j] == rem0[j] by {
                                if j < cursor {
                                    assert(write_buffer@.subrange(
                                        0,
                                        leftover_size + cursor,
                                    )[leftover_size + j] == write_buffer@[leftover_size + j]);
                                    assert(buf_here[leftover_size + j] == rem0[j]);
                                } else {
                                    assert(write_buffer@.subrange(
                                        leftover_size + cursor,
                                        leftover_size + cursor + n,
                                    )[j - cursor] == write_buffer@[leftover_size + j]);
                                    assert(rem_here[j - cursor] == rem0[j]);
                                }
                            }
                            assert(reader.remaining() =~= rem0.skip(cursor + n));
                        }
                        cursor = cursor + n;
                    }
                },
                Err(e) => {
                    proof {
                        assert(reader.remaining() =~= rem0.skip(
                            rem0.len() - reader.remaining().len(),
                        ));
                    }
                    return Err(ReaderErr::IoError(e));
                },
            }
        }
        let ghost region = rem0.take(cursor as int);
        let ghost data = lo0 + region;
        proof {
            assert forall|j: int| 0 <= j < cursor implies region[j] == write_buffer@[leftover_size
                + j] by {
                assert(write_buffer@[leftover_size + j] == rem0[j]);
            }
        }
        if cursor < space {
            // end of data before the buffer was full: emit everything read
            if leftover_size + cursor > 0 {
                proof {
                    assert(cursor == rem0.len());
                    assert(region.skip(region.len() as int) =~= Seq::<u8>::empty());
                    assert(self.leftover() =~= region.skip(region.len() as int));
                    assert(write_buffer@.subrange(0, leftover_size + cursor) =~= data.take(
                        leftover_size + cursor,
                    ));
                }
                Ok(leftover_size + cursor)
            } else {
                proof {
                    assert(self.leftover() =~= Seq::<u8>::empty());
                }
                Err(ReaderErr::Finished)
            }
        } else {
            let hay = slice_subrange(write_buffer.as_slice(), leftover_size, capacity);
            proof {
                assert(hay@ =~= region);
            }
            match rfind_seq(hay, self.delimiter.as_slice()) {
                Some(j) => {
                    let last_index = j + self.delimiter.len();
                    proof {
                        lemma_last_seq_end_unique(region, delim0, j as int);
                        assert(has_seq(region, delim0));
                        assert(seq_split(region, delim0) == j + delim0.len());
                        lemma_last_seq_end(region, delim0);
                    }
                    let ghost bufr = write_buffer@;
                    let produced = leftover_size + last_index;
                    let mut k = leftover_size + last_index;
                    let fill_end = capacity;
                    while k < fill_end
                        invariant
                            produced <= k <= fill_end,
                            fill_end == write_buffer@.len(),
                            write_buffer@ == bufr,
                            produced == leftover_size + last_index,
                            self.delimiter@ == delim0,
                            self.leftover_chunk@.len() == k - produced,
                            forall|m: int|
                                0 <= m < k - produced ==> self.leftover_chunk@[m]
                                    == write_buffer@[produced + m],
                        decreases fill_end - k,
                    {
                        let b = write_buffer[k];
                        self.leftover_chunk.push(b);
                        k = k + 1;
                    }
                    proof {
                        assert(self.leftover() =~= region.skip(j + delim0.len()));
                        assert(write_buffer@.subrange(0, produced as int) =~= data.take(
                            produced as int,
                        ));
                        assert(write_buffer@.subrange(
                            produced - delim0.len(),
                            produced as int,
                        ) =~= region.subrange(j as int, j + delim0.len()));
                        if self.leftover().len() > 0 && has_seq(self.leftover(), delim0) {
                            let w = choose|w: int| seq_at(self.leftover(), delim0, w);
                            assert(region.subrange(
                                j + delim0.len() + w,
                                j + delim0.len() + w + delim0.len(),
                            ) =~= self.leftover().subrange(w, w + delim0.len()));
                            assert(seq_at(region, delim0, j + delim0.len() + w));
                        }
                    }
                    Ok(produced)
                },
                None => {
                    proof {
                        assert(seq_split(region, delim0) == region.len());
                        assert(self.leftover() =~= region.skip(region.len() as int));
                        assert(write_buffer@.subrange(0, leftover_size + cursor) =~= data.take(
                            leftover_size + cursor,
                        ));
                    }
                    Ok(leftover_size + cursor)
                },
            }
        }
    }
}

} // verus!
