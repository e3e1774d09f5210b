//! BLAKE3-256 digests of a source.

use vstd::prelude::*;

use crate::bytes::zeros;
use crate::error::{source_failed, IoError, PackagerError};
use crate::read_at::ReadAt;

verus! {

/// Bytes hashed at a time.
pub const HASH_BUF_SIZE: usize = 0x1_0000;

/// `blake3::Hasher`, the incremental hasher.
#[verifier::external_type_specification]
#[verifier::external_body]
pub struct ExHasher(blake3::Hasher);

/// The bytes that a `blake3::Hasher` in the default (unkeyed) mode was given
/// since it was made; `None` for a hasher in any other mode.
pub uninterp spec fn hasher_input(h: blake3::Hasher) -> Option<Seq<u8>>;

/// The 32-byte default-length BLAKE3 digest of `data`.
pub uninterp spec fn blake3_digest(data: Seq<u8>) -> [u8; 32];

/// Calls `blake3::Hasher::new`: a hasher in the default mode that was given
/// nothing yet.
#[verifier::external_body]
fn new_hasher() -> (r: blake3::Hasher)
    ensures
        hasher_input(r) == Some(Seq::<u8>::empty()),
{
    blake3::Hasher::new()
}

/// Calls `blake3::Hasher::update`: `data` is added after what the hasher was
/// given before. The hasher counts its input in 64 bits.
#[verifier::external_body]
fn update_hasher(h: &mut blake3::Hasher, data: &[u8])
    requires
        hasher_input(*old(h)) is Some,
        hasher_input(*old(h))->0.len() + data@.len() <= u64::MAX,
    ensures
        hasher_input(*final(h)) == Some(hasher_input(*old(h))->0 + data@),
{
    h.update(data);
}

/// Calls `blake3::Hasher::finalize`: the digest of all bytes that the hasher
/// was given, however they were split into updates.
#[verifier::external_body]
fn finalize_hasher(h: &blake3::Hasher) -> (r: [u8; 32])
    requires
        hasher_input(*h) is Some,
    ensures
        r@ == blake3_digest(hasher_input(*h)->0)@,
{
    *h.finalize().as_bytes()
}

/// The digest of the first `len` bytes of `src`, if they are all there.
pub open spec fn source_digest(src: Seq<u8>, len: int) -> Result<Seq<u8>, PackagerError> {
    if len <= src.len() {
        Ok(blake3_digest(src.take(len))@)
    } else {
        Err(
            PackagerError::Io(
                IoError::SourceTruncated {
                    offset: src.len() as u64,
                    remaining: (len - src.len()) as u64,
                },
            ),
        )
    }
}

/// Hashes the first `len` bytes of a source, a buffer at a time.
pub fn blake3_of_source<R: ReadAt + ?Sized>(reader: &R, len: u64) -> (r: Result<
    [u8; 32],
    PackagerError,
>)
    ensures
        match r {
            Ok(digest) => source_digest(reader.content(), len as int) == Ok::<_, PackagerError>(
                digest@,
            ),
            Err(e) => {
                ||| source_digest(reader.content(), len as int) == Err::<Seq<u8>, _>(e)
                ||| (!reader.reliable() && source_failed(r))
            },
        },
{
    let ghost src = reader.content();
    let mut hasher: blake3::Hasher = new_hasher();
    let mut buf: Vec<u8> = zeros(HASH_BUF_SIZE);
    let mut pos: u64 = 0;
    assert(src.take(0) =~= Seq::<u8>::empty());
    while pos < len
        invariant
            src == reader.content(),
            buf@.len() == HASH_BUF_SIZE,
            pos <= len,
            pos <= src.len(),
            hasher_input(hasher) == Some(src.take(pos as int)),
        decreases len - pos,
    {
        let left: u64 = len - pos;
        let want: usize = if left < HASH_BUF_SIZE as u64 { left as usize } else { HASH_BUF_SIZE };
        let (chunk, _) = buf.as_mut_slice().split_at_mut(want);
        match reader.read_at(pos, chunk) {
            Err(e) => return Err(PackagerError::Io(IoError::Source(e))),
            Ok(n) => {
                if n == 0 {
                    return Err(
                        PackagerError::Io(IoError::SourceTruncated { offset: pos, remaining: left }),
                    );
                }
                let piece: &[u8] = &buf.as_slice()[0..n];
                update_hasher(&mut hasher, piece);
                proof {
                    assert(piece@ =~= src.subrange(pos as int, pos + n));
                    assert(src.take(pos as int) + piece@ =~= src.take(pos + n));
                }
                pos = pos + n as u64;
            },
        }
    }
    Ok(finalize_hasher(&hasher))
}

} // verus!
