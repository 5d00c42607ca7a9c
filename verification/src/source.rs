//! The source capability: the minimal read interface a byte producer must
//! implement to be chunked, and a verified in-memory source.

use vstd::prelude::*;

verus! {

/// A producer of bytes. `remaining()` models the bytes the source will
/// still yield, in order; a read takes some prefix of them.
pub trait ByteSource: Sized {
    /// The bytes the source will still produce, in order.
    spec fn remaining(&self) -> Seq<u8>;

    /// Read up to `buf.len() - start` bytes into `buf[start..]`. Returns the
    /// number of bytes read; zero means end of data whenever space remained.
    fn read_into(&mut self, buf: &mut Vec<u8>, start: usize) -> (r: Result<usize, String>)
        requires
            start <= old(buf)@.len(),
        ensures
            final(buf)@.len() == old(buf)@.len(),
            match r {
                Ok(n) => {
                    &&& n <= old(buf)@.len() - start
                    &&& n <= old(self).remaining().len()
                    &&& final(self).remaining() == old(self).remaining().skip(n as int)
                    &&& final(buf)@.subrange(0, start as int) == old(buf)@.subrange(
                        0,
                        start as int,
                    )
                    &&& final(buf)@.subrange(start as int, start + n) == old(
                        self,
                    ).remaining().take(n as int)
                    &&& final(buf)@.subrange(start + n, final(buf)@.len() as int) == old(
                        buf,
                    )@.subrange(start + n, old(buf)@.len() as int)
                    &&& (n == 0 ==> old(self).remaining().len() == 0 || start == old(buf)@.len())
                },
                Err(_) => final(self).remaining() == old(self).remaining(),
            },
    ;
}

/// A source that yields the bytes of a vector, at most `step` bytes per
/// read. A bounded `step` models a stream whose physical reads return less
/// than the space offered.
pub struct MemSource {
    data: Vec<u8>,
    pos: usize,
    step: usize,
}

impl MemSource {
    #[verifier::type_invariant]
    spec fn inv(&self) -> bool {
        self.pos <= self.data@.len() && self.step >= 1
    }

    /// The most bytes one read will return.
    pub closed spec fn step_bytes(&self) -> int {
        self.step as int
    }

    /// A source over `data` that fills all the space each read is offered.
    pub fn new(data: Vec<u8>) -> (r: Self)
        ensures
            r.remaining() == data@,
            r.step_bytes() == usize::MAX,
    {
        let r = MemSource { data, pos: 0, step: usize::MAX };
        proof {
            assert(r.remaining() =~= r.data@);
        }
        r
    }

    /// A source over `data` that yields at most `step` bytes per read.
    pub fn with_step(data: Vec<u8>, step: usize) -> (r: Self)
        requires
            step >= 1,
        ensures
            r.remaining() == data@,
            r.step_bytes() == step,
    {
        let r = MemSource { data, pos: 0, step };
        proof {
            assert(r.remaining() =~= r.data@);
        }
        r
    }
}

impl ByteSource for MemSource {
    closed spec fn remaining(&self) -> Seq<u8> {
        self.data@.skip(self.pos as int)
    }

    fn read_into(&mut self, buf: &mut Vec<u8>, start: usize) -> (r: Result<usize, String>)
        ensures
            final(self).step_bytes() == old(self).step_bytes(),
            ({
                let avail = old(self).remaining().len() as int;
                let space = old(buf)@.len() - start;
                let most = if avail < space {
                    avail
                } else {
                    space
                };
                let want = if old(self).step_bytes() < most {
                    old(self).step_bytes()
                } else {
                    most
                };
                r matches Ok(m) && m == want
            }),
    {
        proof {
            use_type_invariant(&*self);
        }
        let avail = self.data.len() - self.pos;
        let space = buf.len() - start;
        let mut n = if avail < space {
            avail
        } else {
            space
        };
        if self.step < n {
            n = self.step;
        }
        let ghost buf0 = buf@;
        let ghost old_rem = self.remaining();
        let mut i: usize = 0;
        while i < n
            invariant
                i <= n,
                n <= avail,
                n <= space,
                avail == self.data@.len() - self.pos,
                space == buf0.len() - start,
                buf0.len() <= usize::MAX,
                self.data@.len() <= usize::MAX,
                self.inv(),
                buf@.len() == buf0.len(),
                forall|j: int| 0 <= j < start ==> buf@[j] == buf0[j],
                forall|j: int| 0 <= j < i ==> #[trigger] buf@[start + j] == self.data@[self.pos
                    + j],
                forall|j: int| start + i <= j < buf0.len() ==> buf@[j] == buf0[j],
            decreases n - i,
        {
            let b = self.data[self.pos + i];
            buf.set(start + i, b);
            i = i + 1;
        }
        proof {
            assert(buf@.subrange(0, start as int) =~= buf0.subrange(0, start as int));
            assert forall|j: int| 0 <= j < n implies old_rem.take(n as int)[j] == buf@[start
                + j] by {
                assert(buf@[start + j] == self.data@[self.pos + j]);
            }
            assert(buf@.subrange(start as int, start + n) =~= old_rem.take(n as int));
            assert(buf@.subrange(start + n, buf@.len() as int) =~= buf0.subrange(
                start + n,
                buf0.len() as int,
            ));
        }
        let ghost rem_after = old_rem.skip(n as int);
        self.pos = self.pos + n;
        proof {
            assert(self.remaining() =~= rem_after);
        }
        Ok(n)
    }
}

} // verus!
