//! Random access to the bytes of a source.

use vstd::prelude::*;

verus! {

/// Random-access byte reader over an MP4 source.
///
/// The library never opens a file; callers pass an implementor. Returning
/// `Ok(0)` for a non-empty buffer means that `offset` is at or past the end
/// of the source. A reader may fail at any call unless it is `reliable`.
pub trait ReadAt {
    /// The bytes of the source. A source that says nothing of them has none.
    open spec fn content(&self) -> Seq<u8> {
        Seq::empty()
    }

    /// Whether the reader never reports an error.
    open spec fn reliable(&self) -> bool {
        false
    }

    /// Copies bytes from `offset` on into the front of `buf` and returns how
    /// many were copied.
    fn read_at(&self, offset: u64, buf: &mut [u8]) -> (r: std::io::Result<usize>)
        ensures
            final(buf)@.len() == old(buf)@.len(),
            self.reliable() ==> r is Ok,
            match r {
                Ok(n) => {
                    &&& n <= old(buf)@.len()
                    &&& n == 0 <==> (old(buf)@.len() == 0 || offset >= self.content().len())
                    &&& n == 0 ==> final(buf)@ == old(buf)@
                    &&& n > 0 ==> {
                        &&& offset + n <= self.content().len()
                        &&& offset + n <= u64::MAX
                        &&& final(buf)@ == self.content().subrange(offset as int, offset + n)
                            + old(buf)@.subrange(n as int, old(buf)@.len() as int)
                    }
                },
                Err(_) => true,
            },
    ;
}

/// The smaller of two lengths.
fn smaller(a: usize, b: usize) -> (r: usize)
    ensures
        r == if a < b { a } else { b },
{
    if a < b { a } else { b }
}

/// Copies bytes of `src` from `offset` on into the front of `buf`.
fn read_at_bytes(src: &[u8], offset: u64, buf: &mut [u8]) -> (n: usize)
    ensures
        final(buf)@.len() == old(buf)@.len(),
        offset >= src@.len() ==> n == 0,
        offset < src.len() ==> n == if old(buf)@.len() < src@.len() - offset {
            old(buf)@.len() as int
        } else {
            src@.len() - offset
        },
        n == 0 ==> final(buf)@ == old(buf)@,
        n > 0 ==> offset + n <= src.len(),
        n > 0 ==> final(buf)@ == src@.subrange(offset as int, offset + n) + old(buf)@.subrange(
            n as int,
            old(buf)@.len() as int,
        ),
{
    if offset >= src.len() as u64 {
        return 0;
    }
    let off: usize = offset as usize;
    let n: usize = smaller(buf.len(), src.len() - off);
    let mut i: usize = 0;
    while i < n
        invariant
            0 <= i <= n,
            n <= old(buf)@.len(),
            off + n <= src.len(),
            buf@.len() == old(buf)@.len(),
            buf@ =~= src@.subrange(off as int, off + i) + old(buf)@.subrange(
                i as int,
                old(buf)@.len() as int,
            ),
        decreases n - i,
    {
        buf[i] = src[off + i];
        i += 1;
    }
    n
}

/// A byte slice as a source. It never fails.
pub struct SliceReader<'a>(pub &'a [u8]);

impl<'a> ReadAt for SliceReader<'a> {
    open spec fn content(&self) -> Seq<u8> {
        self.0@
    }

    open spec fn reliable(&self) -> bool {
        true
    }

    /// Copies as many bytes as `buf` holds, or all that are left from `offset`
    /// on where those are fewer.
    fn read_at(&self, offset: u64, buf: &mut [u8]) -> (r: std::io::Result<usize>)
        ensures
            r matches Ok(n) && n == if offset >= self.0@.len() {
                0
            } else if old(buf)@.len() < self.0@.len() - offset {
                old(buf)@.len() as int
            } else {
                self.0@.len() - offset
            },
    {
        Ok(read_at_bytes(self.0, offset, buf))
    }
}

} // verus!
