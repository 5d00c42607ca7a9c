//! Read sessions: a stateful iterator over one chunker bound to one source
//! and one destination buffer, tracking whether iteration has started,
//! whether the source is exhausted, and counters. Concatenating the chunks
//! a session returns until it is finished reproduces the source's bytes.

use crate::gzcsv_core;
use crate::gzeus;
use crate::search::{lemma_last_byte_end, lemma_last_seq_end};
use crate::source::ByteSource;
use vstd::string::StringSliceAdditionalSpecFns;
use vstd::prelude::*;

verus! {

/// A session over the single-byte-delimiter chunker: one source read per
/// chunk request.
pub struct StreamSession<R: ByteSource> {
    chunker: gzcsv_core::CsvChunker,
    reader: R,
    chunk_buffer: Vec<u8>,
    started: bool,
    finished: bool,
    n_reads: usize,
    bytes_decompressed: usize,
    emitted: Ghost<Seq<u8>>,
    source0: Ghost<Seq<u8>>,
}

impl<R: ByteSource> StreamSession<R> {
    /// Everything the session has returned so far, concatenated.
    pub closed spec fn emitted_bytes(&self) -> Seq<u8> {
        self.emitted@
    }

    /// The whole byte stream the source would produce, fixed at
    /// construction.
    pub closed spec fn source_bytes(&self) -> Seq<u8> {
        self.source0@
    }

    /// What the source will still produce.
    pub closed spec fn source_remaining(&self) -> Seq<u8> {
        self.reader.remaining()
    }

    /// The bytes carried over from the last read, not yet returned.
    pub closed spec fn pending(&self) -> Seq<u8> {
        self.chunker.leftover()
    }

    /// The destination buffer's size: the configured capacity plus its
    /// headroom.
    pub closed spec fn capacity(&self) -> int {
        self.chunk_buffer@.len() as int
    }

    /// The delimiter byte.
    pub closed spec fn symbol(&self) -> u8 {
        self.chunker.symbol()
    }

    pub closed spec fn started_spec(&self) -> bool {
        self.started
    }

    pub closed spec fn finished_spec(&self) -> bool {
        self.finished
    }

    pub closed spec fn n_reads_spec(&self) -> int {
        self.n_reads as int
    }

    pub closed spec fn bytes_spec(&self) -> int {
        self.bytes_decompressed as int
    }

    /// The session's invariant: what was returned, what is carried over
    /// and what the source still holds always add up to the source's whole
    /// stream, and a finished session holds nothing back.
    pub open spec fn wf(&self) -> bool {
        &&& self.pending().len() < self.capacity()
        &&& self.emitted_bytes() + self.pending() + self.source_remaining() == self.source_bytes()
        &&& (self.finished_spec() ==> self.pending().len() == 0 && self.source_remaining().len()
            == 0)
    }

    /// A session over `source`, with a destination buffer of
    /// `buffer_size` bytes plus a quarter of headroom for the leftover
    /// carry-over.
    pub fn new(source: R, buffer_size: usize, line_change_symbol: u8) -> (r: Self)
        requires
            buffer_size >= 1,
            buffer_size + buffer_size / 4 <= usize::MAX,
        ensures
            r.wf(),
            r.source_bytes() == source.remaining(),
            r.source_remaining() == source.remaining(),
            r.emitted_bytes() == Seq::<u8>::empty(),
            r.pending() == Seq::<u8>::empty(),
            r.capacity() == buffer_size + buffer_size / 4,
            r.symbol() == line_change_symbol,
            !r.started_spec(),
            !r.finished_spec(),
            r.n_reads_spec() == 0,
            r.bytes_spec() == 0,
    {
        let ghost src = source.remaining();
        let chunk_buffer: Vec<u8> = vec![0u8; buffer_size + buffer_size / 4];
        let r = StreamSession {
            chunker: gzcsv_core::CsvChunker::new(line_change_symbol),
            reader: source,
            chunk_buffer,
            started: false,
            finished: false,
            n_reads: 0,
            bytes_decompressed: 0,
            emitted: Ghost(Seq::empty()),
            source0: Ghost(src),
        };
        proof {
            assert(r.emitted_bytes() + r.pending() + r.source_remaining() =~= src);
        }
        r
    }

    pub fn is_finished(&self) -> (r: bool)
        ensures
            r == self.finished_spec(),
    {
        self.finished
    }

    pub fn has_started(&self) -> (r: bool)
        ensures
            r == self.started_spec(),
    {
        self.started
    }

    pub fn n_reads(&self) -> (r: usize)
        ensures
            r == self.n_reads_spec(),
    {
        self.n_reads
    }

    pub fn bytes_decompressed(&self) -> (r: usize)
        ensures
            r == self.bytes_spec(),
    {
        self.bytes_decompressed
    }

    /// The next chunk. Empty exactly once the session becomes finished and
    /// on every call thereafter; a non-empty chunk whose bytes are carried
    /// over into a later chunk ends at the delimiter.
    #[verifier::loop_isolation(false)]
    #[verifier::rlimit(60)]
    #[verifier::spinoff_prover]
    pub fn read_chunk(&mut self) -> (r: Result<Vec<u8>, gzcsv_core::ReaderErr>)
        requires
            old(self).wf(),
        ensures
            final(self).started_spec(),
            final(self).source_bytes() == old(self).source_bytes(),
            final(self).capacity() == old(self).capacity(),
            final(self).symbol() == old(self).symbol(),
            match r {
                Ok(chunk) => ({
                    &&& final(self).wf()
                    &&& chunk@.len() <= old(self).capacity()
                    &&& final(self).emitted_bytes() == old(self).emitted_bytes() + chunk@
                    &&& (old(self).finished_spec() ==> final(self).finished_spec() && chunk@.len()
                        == 0 && final(self).n_reads_spec() == old(self).n_reads_spec() && final(self).bytes_spec() == old(self).bytes_spec() && final(self).emitted_bytes() == old(
                        self,
                    ).emitted_bytes())
                    &&& (!old(self).finished_spec() ==> {
                        &&& (final(self).finished_spec() <==> chunk@.len() == 0)
                        &&& (final(self).finished_spec() ==> final(self).emitted_bytes() == final(self).source_bytes() && final(self).n_reads_spec() == old(self).n_reads_spec()
                            && final(self).bytes_spec() == old(self).bytes_spec())
                        &&& (!final(self).finished_spec() ==> chunk@.len() > 0 && final(self).n_reads_spec() == (if old(self).n_reads_spec() < usize::MAX {
                            old(self).n_reads_spec() + 1
                        } else {
                            old(self).n_reads_spec()
                        }) && final(self).bytes_spec() == (if old(self).bytes_spec() + chunk@.len()
                            <= usize::MAX {
                            old(self).bytes_spec() + chunk@.len()
                        } else {
                            usize::MAX as int
                        }))
                        &&& (final(self).pending().len() > 0 ==> chunk@.len() > 0 && chunk@[
                            chunk@.len() - 1
                        ] == old(self).symbol())
                    })
                }),
                Err(e) => ({
                    &&& e is IoError
                    &&& !old(self).finished_spec()
                    &&& final(self).finished_spec() == old(self).finished_spec()
                    &&& final(self).n_reads_spec() == old(self).n_reads_spec()
                    &&& final(self).bytes_spec() == old(self).bytes_spec()
                    &&& final(self).emitted_bytes() == old(self).emitted_bytes()
                }),
            },
    {
        self.started = true;
        if self.finished {
            return Ok(Vec::new());
        }
        let ghost pend0 = self.chunker.leftover();
        let ghost rem0 = self.reader.remaining();
        let ghost emit0 = self.emitted@;
        let ghost sym = self.chunker.symbol();
        match self.chunker.read_and_write(&mut self.reader, &mut self.chunk_buffer) {
            Ok(produced) => {
                let ghost consumed = rem0.len() - self.reader.remaining().len();
                let ghost region = rem0.take(consumed as int);
                let ghost data = pend0 + region;
                proof {
                    lemma_last_byte_end(region, sym);
                    assert(produced >= 1);
                }
                let mut chunk: Vec<u8> = Vec::new();
                let mut i: usize = 0;
                while i < produced
                    invariant
                        i <= produced,
                        chunk@ =~= self.chunk_buffer@.subrange(0, i as int),
                    decreases produced - i,
                {
                    let b = self.chunk_buffer[i];
                    chunk.push(b);
                    i = i + 1;
                }
                if self.n_reads < usize::MAX {
                    self.n_reads = self.n_reads + 1;
                }
                if produced <= usize::MAX - self.bytes_decompressed {
                    self.bytes_decompressed = self.bytes_decompressed + produced;
                } else {
                    self.bytes_decompressed = usize::MAX;
                }
                proof {
                    self.emitted@ = emit0 + chunk@;
                    assert(chunk@ =~= data.take(produced as int));
                    assert(self.chunker.leftover() =~= data.skip(produced as int));
                    assert(data.take(produced as int) + data.skip(produced as int) =~= data);
                    assert(region + self.reader.remaining() =~= rem0);
                    assert(self.emitted@ + self.pending() + self.source_remaining()
                        =~= emit0 + pend0 + rem0);
                    assert(self.emitted@ + self.pending() + self.source_remaining()
                        == self.source0@);
                }
                Ok(chunk)
            },
            Err(e) => {
                match e {
                    gzcsv_core::ReaderErr::Finished => {
                        self.finished = true;
                        proof {
                            assert(self.emitted@ + self.pending() + self.source_remaining()
                                =~= emit0 + pend0 + rem0);
                            assert(self.emitted_bytes() =~= self.emitted_bytes() + Seq::<
                                u8,
                            >::empty());
                        }
                        Ok(Vec::new())
                    },
                    gzcsv_core::ReaderErr::IoError(s) => Err(gzcsv_core::ReaderErr::IoError(s)),
                }
            },
        }
    }
}

/// Concatenation invariant: a finished, well-formed session has returned,
/// in order, exactly the bytes its source produces.
pub proof fn lemma_stream_session_complete<R: ByteSource>(s: &StreamSession<R>)
    requires
        s.wf(),
        s.finished_spec(),
    ensures
        s.emitted_bytes() == s.source_bytes(),
{
    assert(s.emitted_bytes() + s.pending() + s.source_remaining() =~= s.emitted_bytes());
}

/// A session over the byte-sequence-delimiter chunker: each chunk request
/// fills the whole destination buffer before searching, unless the data
/// ends first.
pub struct FillSession<R: ByteSource> {
    chunker: gzeus::CsvChunker,
    reader: R,
    chunk_buffer: Vec<u8>,
    started: bool,
    finished: bool,
    n_reads: usize,
    bytes_decompressed: usize,
    emitted: Ghost<Seq<u8>>,
    source0: Ghost<Seq<u8>>,
}

impl<R: ByteSource> FillSession<R> {
    /// Everything the session has returned so far, concatenated.
    pub closed spec fn emitted_bytes(&self) -> Seq<u8> {
        self.emitted@
    }

    /// The whole byte stream the source would produce, fixed at
    /// construction.
    pub closed spec fn source_bytes(&self) -> Seq<u8> {
        self.source0@
    }

    /// What the source will still produce.
    pub closed spec fn source_remaining(&self) -> Seq<u8> {
        self.reader.remaining()
    }

    /// The bytes carried over from the last fill, not yet returned.
    pub closed spec fn pending(&self) -> Seq<u8> {
        self.chunker.leftover()
    }

    /// The destination buffer's size: the configured capacity plus its
    /// headroom.
    pub closed spec fn capacity(&self) -> int {
        self.chunk_buffer@.len() as int
    }

    /// The delimiter byte sequence.
    pub closed spec fn delim(&self) -> Seq<u8> {
        self.chunker.delim()
    }

    pub closed spec fn started_spec(&self) -> bool {
        self.started
    }

    pub closed spec fn finished_spec(&self) -> bool {
        self.finished
    }

    pub closed spec fn n_reads_spec(&self) -> int {
        self.n_reads as int
    }

    pub closed spec fn bytes_spec(&self) -> int {
        self.bytes_decompressed as int
    }

    /// The session's invariant: what was returned, what is carried over
    /// and what the source still holds always add up to the source's whole
    /// stream, and a finished session holds nothing back.
    pub open spec fn wf(&self) -> bool {
        &&& self.delim().len() >= 1
        &&& self.pending().len() < self.capacity()
        &&& self.emitted_bytes() + self.pending() + self.source_remaining() == self.source_bytes()
        &&& (self.finished_spec() ==> self.pending().len() == 0 && self.source_remaining().len()
            == 0)
    }

    /// A session over `source`, with a destination buffer of
    /// `buffer_size` bytes plus a fixed headroom for the leftover
    /// carry-over.
    pub fn new(source: R, buffer_size: usize, new_line_symbol: &str) -> (r: Self)
        requires
            new_line_symbol.spec_bytes().len() >= 1,
            buffer_size + 4096 <= usize::MAX,
        ensures
            r.wf(),
            r.source_bytes() == source.remaining(),
            r.source_remaining() == source.remaining(),
            r.emitted_bytes() == Seq::<u8>::empty(),
            r.pending() == Seq::<u8>::empty(),
            r.capacity() == buffer_size + 4096,
            r.delim() == new_line_symbol.spec_bytes(),
            !r.started_spec(),
            !r.finished_spec(),
            r.n_reads_spec() == 0,
            r.bytes_spec() == 0,
    {
        let ghost src = source.remaining();
        let chunk_buffer: Vec<u8> = vec![0u8; buffer_size + 4096];
        let r = FillSession {
            chunker: gzeus::CsvChunker::new(new_line_symbol),
            reader: source,
            chunk_buffer,
            started: false,
            finished: false,
            n_reads: 0,
            bytes_decompressed: 0,
            emitted: Ghost(Seq::empty()),
            source0: Ghost(src),
        };
        proof {
            assert(r.emitted_bytes() + r.pending() + r.source_remaining() =~= src);
        }
        r
    }

    pub fn is_finished(&self) -> (r: bool)
        ensures
            r == self.finished_spec(),
    {
        self.finished
    }

    pub fn has_started(&self) -> (r: bool)
        ensures
            r == self.started_spec(),
    {
        self.started
    }

    pub fn n_reads(&self) -> (r: usize)
        ensures
            r == self.n_reads_spec(),
    {
        self.n_reads
    }

    pub fn bytes_decompressed(&self) -> (r: usize)
        ensures
            r == self.bytes_spec(),
    {
        self.bytes_decompressed
    }

    /// The next chunk. Empty exactly once the session becomes finished and
    /// on every call thereafter; a non-empty chunk whose bytes are carried
    /// over into a later chunk ends at the delimiter sequence.
    #[verifier::loop_isolation(false)]
    #[verifier::rlimit(60)]
    pub fn read_chunk(&mut self) -> (r: Result<Vec<u8>, gzeus::ReaderErr>)
        requires
            old(self).wf(),
        ensures
            final(self).started_spec(),
            final(self).source_bytes() == old(self).source_bytes(),
            final(self).capacity() == old(self).capacity(),
            final(self).delim() == old(self).delim(),
            match r {
                Ok(chunk) => ({
                    &&& final(self).wf()
                    &&& chunk@.len() <= old(self).capacity()
                    &&& final(self).emitted_bytes() == old(self).emitted_bytes() + chunk@
                    &&& (old(self).finished_spec() ==> final(self).finished_spec() && chunk@.len()
                        == 0 && final(self).n_reads_spec() == old(self).n_reads_spec() && final(self).bytes_spec() == old(self).bytes_spec() && final(self).emitted_bytes() == old(self).emitted_bytes())
                    &&& (!old(self).finished_spec() ==> {
                        &&& (final(self).finished_spec() <==> chunk@.len() == 0)
                        &&& (final(self).finished_spec() ==> final(self).emitted_bytes() == final(self).source_bytes() && final(self).n_reads_spec() == old(self).n_reads_spec()
                            && final(self).bytes_spec() == old(self).bytes_spec())
                        &&& (!final(self).finished_spec() ==> chunk@.len() > 0 && final(self).n_reads_spec() == (if old(self).n_reads_spec() < usize::MAX {
                            old(self).n_reads_spec() + 1
                        } else {
                            old(self).n_reads_spec()
                        }) && final(self).bytes_spec() == (if old(self).bytes_spec() + chunk@.len()
                            <= usize::MAX {
                            old(self).bytes_spec() + chunk@.len()
                        } else {
                            usize::MAX as int
                        }))
                        &&& (final(self).pending().len() > 0 ==> chunk@.len() >= old(self).delim().len() && chunk@.subrange(
                            chunk@.len() - old(self).delim().len(),
                            chunk@.len() as int,
                        ) == old(self).delim())
                    })
                }),
                Err(e) => ({
                    &&& e is IoError
                    &&& !old(self).finished_spec()
                    &&& final(self).finished_spec() == old(self).finished_spec()
                    &&& final(self).n_reads_spec() == old(self).n_reads_spec()
                    &&& final(self).bytes_spec() == old(self).bytes_spec()
                    &&& final(self).emitted_bytes() == old(self).emitted_bytes()
                }),
            },
    {
        self.started = true;
        if self.finished {
            return Ok(Vec::new());
        }
        let ghost pend0 = self.chunker.leftover();
        let ghost rem0 = self.reader.remaining();
        let ghost emit0 = self.emitted@;
        let ghost dl = self.chunker.delim();
        match self.chunker.read_and_write(&mut self.reader, &mut self.chunk_buffer) {
            Ok(produced) => {
                let ghost consumed = rem0.len() - self.reader.remaining().len();
                let ghost region = rem0.take(consumed as int);
                let ghost data = pend0 + region;
                proof {
                    lemma_last_seq_end(region, dl);
                }
                let mut chunk: Vec<u8> = Vec::new();
                let mut i: usize = 0;
                while i < produced
                    invariant
                        i <= produced,
                        chunk@ =~= self.chunk_buffer@.subrange(0, i as int),
                    decreases produced - i,
                {
                    let b = self.chunk_buffer[i];
                    chunk.push(b);
                    i = i + 1;
                }
                if self.n_reads < usize::MAX {
                    self.n_reads = self.n_reads + 1;
                }
                if produced <= usize::MAX - self.bytes_decompressed {
                    self.bytes_decompressed = self.bytes_decompressed + produced;
                } else {
                    self.bytes_decompressed = usize::MAX;
                }
                proof {
                    self.emitted@ = emit0 + chunk@;
                    assert(chunk@ =~= data.take(produced as int));
                    assert(self.chunker.leftover() =~= data.skip(produced as int));
                    assert(data.take(produced as int) + data.skip(produced as int) =~= data);
                    assert(region + self.reader.remaining() =~= rem0);
                    assert(self.emitted@ + self.pending() + self.source_remaining()
                        =~= emit0 + pend0 + rem0);
                    assert(self.emitted@ + self.pending() + self.source_remaining()
                        == self.source0@);
                    if self.pending().len() > 0 {
                        assert(chunk@.subrange(
                            chunk@.len() - dl.len(),
                            chunk@.len() as int,
                        ) =~= self.chunk_buffer@.subrange(produced - dl.len(), produced as int));
                    }
                }
                Ok(chunk)
            },
            Err(e) => {
                match e {
                    gzeus::ReaderErr::Finished => {
                        self.finished = true;
                        proof {
                            assert(self.emitted@ + self.pending() + self.source_remaining()
                                =~= emit0 + pend0 + rem0);
                            assert(self.emitted_bytes() =~= self.emitted_bytes() + Seq::<
                                u8,
                            >::empty());
                        }
                        Ok(Vec::new())
                    },
                    gzeus::ReaderErr::IoError(s) => Err(gzeus::ReaderErr::IoError(s)),
                    gzeus::ReaderErr::Other(s) => Err(gzeus::ReaderErr::Other(s)),
                }
            },
        }
    }

    /// One raw read: fill the buffer once from the source, return what was
    /// read, and finish the session. Any leftover carried by the chunker is
    /// not part of the result, so the concatenation invariant is kept only
    /// when nothing was pending and the read drained the source.
    #[verifier::loop_isolation(false)]
    pub fn read_full(&mut self) -> (r: Result<Vec<u8>, gzeus::ReaderErr>)
        requires
            old(self).wf(),
        ensures
            final(self).started_spec(),
            final(self).source_bytes() == old(self).source_bytes(),
            final(self).capacity() == old(self).capacity(),
            final(self).delim() == old(self).delim(),
            final(self).pending() == old(self).pending(),
            match r {
                Ok(chunk) => ({
                    &&& final(self).finished_spec()
                    &&& chunk@.len() <= old(self).capacity()
                    &&& chunk@ == old(self).source_remaining().take(chunk@.len() as int)
                    &&& final(self).source_remaining() == old(self).source_remaining().skip(
                        chunk@.len() as int,
                    )
                    &&& final(self).emitted_bytes() == old(self).emitted_bytes() + chunk@
                    &&& (chunk@.len() == 0 ==> old(self).source_remaining().len() == 0)
                    &&& final(self).n_reads_spec() == (if old(self).n_reads_spec() < usize::MAX {
                        old(self).n_reads_spec() + 1
                    } else {
                        old(self).n_reads_spec()
                    })
                    &&& final(self).bytes_spec() == (if old(self).bytes_spec() + chunk@.len()
                        <= usize::MAX {
                        old(self).bytes_spec() + chunk@.len()
                    } else {
                        usize::MAX as int
                    })
                    &&& (old(self).pending().len() == 0 && final(self).source_remaining().len()
                        == 0 ==> final(self).wf())
                }),
                Err(e) => ({
                    &&& e is IoError
                    &&& final(self).finished_spec() == old(self).finished_spec()
                    &&& final(self).n_reads_spec() == old(self).n_reads_spec()
                    &&& final(self).bytes_spec() == old(self).bytes_spec()
                    &&& final(self).emitted_bytes() == old(self).emitted_bytes()
                }),
            },
    {
        self.started = true;
        let ghost rem0 = self.reader.remaining();
        let ghost emit0 = self.emitted@;
        match self.reader.read_into(&mut self.chunk_buffer, 0) {
            Ok(n) => {
                let mut chunk: Vec<u8> = Vec::new();
                let mut i: usize = 0;
                while i < n
                    invariant
                        i <= n,
                        n <= self.chunk_buffer@.len(),
                        chunk@ =~= self.chunk_buffer@.subrange(0, i as int),
                    decreases n - i,
                {
                    let b = self.chunk_buffer[i];
                    chunk.push(b);
                    i = i + 1;
                }
                if self.n_reads < usize::MAX {
                    self.n_reads = self.n_reads + 1;
                }
                if n <= usize::MAX - self.bytes_decompressed {
                    self.bytes_decompressed = self.bytes_decompressed + n;
                } else {
                    self.bytes_decompressed = usize::MAX;
                }
                self.finished = true;
                proof {
                    self.emitted@ = emit0 + chunk@;
                    assert(chunk@ =~= rem0.take(n as int));
                    if self.pending().len() == 0 && self.source_remaining().len() == 0 {
                        assert(rem0.take(n as int) + rem0.skip(n as int) =~= rem0);
                        assert(rem0.skip(n as int) =~= Seq::<u8>::empty());
                        assert(chunk@ =~= rem0);
                        assert(self.emitted@ + self.pending() + self.source_remaining()
                            =~= emit0 + Seq::<u8>::empty() + rem0);
                    }
                }
                Ok(chunk)
            },
            Err(s) => Err(gzeus::ReaderErr::IoError(s)),
        }
    }
}

/// Concatenation invariant: a finished, well-formed session has returned,
/// in order, exactly the bytes its source produces.
pub proof fn lemma_fill_session_complete<R: ByteSource>(s: &FillSession<R>)
    requires
        s.wf(),
        s.finished_spec(),
    ensures
        s.emitted_bytes() == s.source_bytes(),
{
    assert(s.emitted_bytes() + s.pending() + s.source_remaining() =~= s.emitted_bytes());
}

} // verus!
