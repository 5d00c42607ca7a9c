//! A source capability that decompresses a gzip byte sequence held in
//! memory. The decompression itself is done by flate2; this module states
//! its interface: the decoded stream is a function of the compressed bytes
//! alone, named `gunzip_of`.

use crate::source::ByteSource;
use flate2::bufread::MultiGzDecoder;
use std::io::Cursor;
use std::io::Read;
use vstd::prelude::*;

verus! {

#[verifier::external_type_specification]
#[verifier::external_body]
#[verifier::reject_recursive_types(T)]
pub struct ExCursor<T>(Cursor<T>);

#[verifier::external_type_specification]
#[verifier::external_body]
#[verifier::reject_recursive_types(R)]
pub struct ExMultiGzDecoder<R>(MultiGzDecoder<R>);

/// The byte stream that gzip decompression of `compressed` yields: the
/// decompressed data of all members of the stream, concatenated.
pub uninterp spec fn gunzip_of(compressed: Seq<u8>) -> Seq<u8>;

/// A source that yields the decompressed bytes of a gzip stream held in
/// memory. `remaining()` is what decompression of the whole stream yields,
/// minus what reads have already consumed.
pub struct GzipSource {
    decoder: MultiGzDecoder<Cursor<Vec<u8>>>,
    compressed: Ghost<Seq<u8>>,
    consumed: Ghost<int>,
}

/// Relies on std::io::Cursor::new: wraps the vector so it can be read.
#[verifier::external_body]
fn new_cursor(data: Vec<u8>) -> Cursor<Vec<u8>> {
    Cursor::new(data)
}

/// Relies on flate2::bufread::MultiGzDecoder::new: a decoder over the
/// bytes read from the cursor.
#[verifier::external_body]
fn new_decoder(r: Cursor<Vec<u8>>) -> MultiGzDecoder<Cursor<Vec<u8>>> {
    MultiGzDecoder::new(r)
}

impl GzipSource {
    #[verifier::type_invariant]
    spec fn inv(&self) -> bool {
        0 <= self.consumed@ <= gunzip_of(self.compressed@).len()
    }

    /// The compressed bytes this source was built over.
    pub closed spec fn compressed_bytes(&self) -> Seq<u8> {
        self.compressed@
    }

    pub fn new(compressed: Vec<u8>) -> (r: Self)
        ensures
            r.compressed_bytes() == compressed@,
            r.remaining() == gunzip_of(compressed@),
    {
        let ghost c = compressed@;
        let cursor = new_cursor(compressed);
        let decoder = new_decoder(cursor);
        let r = GzipSource { decoder, compressed: Ghost(c), consumed: Ghost(0int) };
        proof {
            assert(r.remaining() =~= gunzip_of(c));
        }
        r
    }

    /// Relies on flate2's MultiGzDecoder (through std::io::Read): each read
    /// fills `buf[start..start + n]` with the next `n` bytes of the decoded
    /// stream, leaves the rest of `buf` alone, returns zero only at the end
    /// of the decoded stream (or when offered no space), and fails on
    /// malformed input.
    #[verifier::external_body]
    fn read_decoded(&mut self, buf: &mut Vec<u8>, start: usize) -> (r: Result<usize, String>)
        requires
            start <= old(buf)@.len(),
            0 <= old(self).consumed@ <= gunzip_of(old(self).compressed@).len(),
        ensures
            final(buf)@.len() == old(buf)@.len(),
            final(self).compressed@ == old(self).compressed@,
            match r {
                Ok(n) => {
                    &&& n <= old(buf)@.len() - start
                    &&& old(self).consumed@ + n <= gunzip_of(old(self).compressed@).len()
                    &&& final(self).consumed@ == old(self).consumed@ + n
                    &&& final(buf)@.subrange(0, start as int) == old(buf)@.subrange(
                        0,
                        start as int,
                    )
                    &&& final(buf)@.subrange(start as int, start + n) == gunzip_of(
                        old(self).compressed@,
                    ).subrange(old(self).consumed@, old(self).consumed@ + n)
                    &&& final(buf)@.subrange(start + n, final(buf)@.len() as int) == old(
                        buf,
                    )@.subrange(start + n, old(buf)@.len() as int)
                    &&& (n == 0 ==> old(self).consumed@ == gunzip_of(
                        old(self).compressed@,
                    ).len() || start == old(buf)@.len())
                },
                Err(_) => final(self).consumed@ == old(self).consumed@,
            },
    {
        match self.decoder.read(&mut buf[start..]) {
            Ok(n) => Ok(n),
            Err(e) => Err(e.to_string()),
        }
    }
}

impl ByteSource for GzipSource {
    closed spec fn remaining(&self) -> Seq<u8> {
        gunzip_of(self.compressed@).skip(self.consumed@)
    }

    fn read_into(&mut self, buf: &mut Vec<u8>, start: usize) -> (r: Result<usize, String>) {
        proof {
            use_type_invariant(&*self);
        }
        let ghost rem0 = self.remaining();
        let ghost c0 = self.consumed@;
        let r = self.read_decoded(buf, start);
        proof {
            if let Ok(n) = r {
                assert(self.remaining() =~= rem0.skip(n as int));
                assert(buf@.subrange(start as int, start + n) =~= rem0.take(n as int));
            }
        }
        r
    }
}

} // verus!
