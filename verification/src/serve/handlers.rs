//! What requests are answered with.
//!
//! - `GET /v/:id/playlist.m3u8`: the playlist that the index holds, else one
//!   rendered from it.
//! - `GET /v/:id/init.mp4`: the init segment of the index.
//! - `GET /v/:id/:filename`: a media segment where the name is
//!   `seg_NNNN.m4s` (four or more decimal digits, from 0001 on); otherwise
//!   there is no such resource.

use vstd::prelude::*;
use vstd::string::StringSliceAdditionalSpecFns;

use crate::bytes::{ascii, push_bytes};
use crate::error::{packager_text, source_failed, PackagerError};
use crate::fmp4::media::{media_segment, samples_data, segment_parts, write_media_segment};
use crate::index::builder::{
    built, index_of, law_built_image_opens, law_every_segment_of_a_built_index_is_served,
};
use crate::index::format::{SampleEntry, SegmentEntry};
use crate::index::view::{lemma_opened_never_blames_the_source, opened, IndexModel, IndexView};
use crate::playlist::decimal::digits;
use crate::playlist::m3u8::{all_ticks, playlist, segment_name, write_media_playlist};
use crate::read_at::ReadAt;
use crate::segment::duration::SegmentDuration;
use crate::serve::api_error::{api_result, packager_log, ApiError, ApiModel};

verus! {

/// Minimum number of digits in a segment name. It matches the names in the
/// playlist, so that `seg_1.m4s` does not alias `seg_0001.m4s`.
pub const SEG_MIN_DIGITS: usize = 4;

/// Bytes of a response body that are handed on at a time.
pub const BODY_CHUNK_SIZE: usize = 0x1_0000;

/// Status and headers of a reply with a resource.
#[derive(Debug, Clone, Copy)]
pub struct ResponseHead {
    pub status: u16,
    pub content_type: &'static str,
    pub cache_control: &'static str,
}

/// The head of a playlist reply.
pub fn playlist_head() -> (r: ResponseHead)
    ensures
        r.status == 200,
        r.content_type@ == "application/vnd.apple.mpegurl"@,
        r.cache_control@ == "public, max-age=300"@,
{
    ResponseHead {
        status: 200,
        content_type: "application/vnd.apple.mpegurl",
        cache_control: "public, max-age=300",
    }
}

/// The head of an init-segment or media-segment reply. These never change.
pub fn segment_head() -> (r: ResponseHead)
    ensures
        r.status == 200,
        r.content_type@ == "video/mp4"@,
        r.cache_control@ == "public, max-age=31536000, immutable"@,
{
    ResponseHead {
        status: 200,
        content_type: "video/mp4",
        cache_control: "public, max-age=31536000, immutable",
    }
}

/// The number that ASCII digits denote.
pub open spec fn number(text: Seq<u8>) -> nat
    decreases text.len(),
{
    if text.len() == 0 {
        0
    } else {
        number(text.drop_last()) * 10 + (text.last() - 48) as nat
    }
}

/// All bytes are ASCII digits.
pub open spec fn all_digits(text: Seq<u8>) -> bool {
    forall|i: int| 0 <= i < text.len() ==> 48 <= #[trigger] text[i] <= 57
}

/// What stands between `seg_` and `.m4s` in a name, if it has that shape.
pub open spec fn name_body(name: Seq<u8>) -> Option<Seq<u8>> {
    let n = name.len() as int;
    if n >= 8 && name.take(4) == ascii("seg_"@) && name.skip(n - 4) == ascii(".m4s"@) {
        Some(name.subrange(4, n - 4))
    } else {
        None
    }
}

/// The segment, counted from 0, that a file name denotes: at least four
/// digits, not zero, and no more than `u32::MAX`.
pub open spec fn named_segment(name: Seq<u8>) -> Option<u32> {
    match name_body(name) {
        None => None,
        Some(body) => if body.len() >= SEG_MIN_DIGITS && all_digits(body) && 1 <= number(body)
            <= u32::MAX {
            Some((number(body) - 1) as u32)
        } else {
            None
        },
    }
}

proof fn lemma_number_grows(text: Seq<u8>, k: int)
    requires
        0 <= k <= text.len(),
        all_digits(text),
    ensures
        number(text.take(k)) <= number(text),
    decreases text.len() - k,
{
    if k < text.len() {
        assert(text.take(k + 1).drop_last() =~= text.take(k));
        assert(48 <= text[k] <= 57);
        lemma_number_grows(text, k + 1);
    } else {
        assert(text.take(k) =~= text);
    }
}

/// Whether the four bytes from `at` on are as given.
fn four_at(name: &[u8], at: usize, b: [u8; 4]) -> (r: bool)
    requires
        at + 4 <= name.len(),
    ensures
        r == (name@.subrange(at as int, at + 4) == b@),
{
    let same = name[at] == b[0] && name[at + 1] == b[1] && name[at + 2] == b[2] && name[at + 3]
        == b[3];
    proof {
        let part = name@.subrange(at as int, at + 4);
        if same {
            assert(part =~= b@);
        } else if part == b@ {
            assert(part[0] == b@[0] && part[1] == b@[1] && part[2] == b@[2] && part[3] == b@[3]);
        }
    }
    same
}

/// Reads the segment, counted from 0, out of a file name.
pub fn parse_segment_idx(filename: &str) -> (r: Option<u32>)
    ensures
        r == named_segment(filename.spec_bytes()),
{
    let name: &[u8] = filename.as_bytes();
    let n: usize = name.len();
    if n < 8 {
        return None;
    }
    let prefix: [u8; 4] = [0x73, 0x65, 0x67, 0x5f];
    let suffix: [u8; 4] = [0x2e, 0x6d, 0x34, 0x73];
    proof {
        reveal_strlit("seg_");
        reveal_strlit(".m4s");
        assert(prefix@ =~= ascii("seg_"@));
        assert(suffix@ =~= ascii(".m4s"@));
        assert(name@.take(4) =~= name@.subrange(0, 4));
        assert(name@.skip(n - 4) =~= name@.subrange(n - 4, n as int));
    }
    if !four_at(name, 0, prefix) || !four_at(name, n - 4, suffix) {
        return None;
    }
    let ghost body = name@.subrange(4, n - 4);
    if n - 8 < SEG_MIN_DIGITS {
        return None;
    }
    let mut value: u64 = 0;
    let mut i: usize = 4;
    assert(body.take(0) =~= Seq::<u8>::empty());
    // The number keeps growing, so past the limit only the digits matter.
    while i < n - 4
        invariant
            12 <= n == name@.len(),
            4 <= i <= n - 4,
            name@ == filename.spec_bytes(),
            body == name@.subrange(4, n - 4),
            name_body(name@) == Some(body),
            all_digits(body.take(i - 4)),
            value <= u32::MAX,
            value == number(body.take(i - 4)),
        decreases n - i,
    {
        let b: u8 = name[i];
        if b < 48 || b > 57 {
            assert(body[i - 4] == b);
            return None;
        }
        proof {
            assert(body.take(i - 3).drop_last() =~= body.take(i - 4));
            assert forall|k: int| 0 <= k < i - 3 implies 48 <= #[trigger] body.take(i - 3)[k]
                <= 57 by {
                if k < i - 4 {
                    assert(body.take(i - 4)[k] == body.take(i - 3)[k]);
                }
            }
        }
        value = value * 10 + (b - 48) as u64;
        if value > u32::MAX as u64 {
            proof {
                if all_digits(body) {
                    lemma_number_grows(body, i - 3);
                }
            }
            return None;
        }
        i += 1;
    }
    assert(body.take(n - 8) =~= body);
    if value == 0 {
        return None;
    }
    Some((value - 1) as u32)
}

/// Digits denote the number that they were made from.
proof fn lemma_digits_number(n: nat, width: nat)
    ensures
        all_digits(digits(n, width)),
        number(digits(n, width)) == n,
        digits(n, width).len() >= width,
        digits(n, width).len() >= 1,
    decreases n, width,
{
    let d = digits(n, width);
    if n < 10 && width <= 1 {
        reveal_with_fuel(number, 2);
        assert(d.drop_last() =~= Seq::<u8>::empty());
    } else {
        let w = if width > 0 { (width - 1) as nat } else { 0 };
        lemma_digits_number(n / 10, w);
        let init = digits(n / 10, w);
        assert(d.drop_last() =~= init);
        assert forall|i: int| 0 <= i < d.len() implies 48 <= #[trigger] d[i] <= 57 by {
            if i < init.len() {
                assert(d[i] == init[i]);
            }
        }
    }
}

/// The names that a playlist gives its segments lead back to them.
pub proof fn law_playlist_names_lead_to_their_segments(n: nat)
    requires
        1 <= n <= u32::MAX,
    ensures
        named_segment(segment_name(n)) == Some((n - 1) as u32),
{
    reveal_strlit("seg_");
    reveal_strlit(".m4s");
    lemma_digits_number(n, 4);
    let name = segment_name(n);
    let body = digits(n, 4);
    let len = name.len() as int;
    assert(name.take(4) =~= ascii("seg_"@));
    assert(name.skip(len - 4) =~= ascii(".m4s"@));
    assert(name.subrange(4, len - 4) =~= body);
}

/// An internal error for a packager error that is not the byte source's.
pub open spec fn refused(action: Seq<char>, id: Seq<char>, e: PackagerError) -> ApiModel {
    ApiModel::Internal(packager_log(action, id, packager_text(e, Seq::empty())))
}

/// The body of a playlist reply.
pub open spec fn playlist_reply(idx: Seq<u8>, id: Seq<char>) -> Result<Seq<u8>, ApiModel> {
    match opened(idx) {
        Err(e) => Err(refused("open idx for playlist"@, id, e)),
        Ok(index) => match index.playlist {
            Some(text) => Ok(text),
            None => match playlist(index) {
                Err(e) => Err(refused("write playlist"@, id, e)),
                Ok(text) => Ok(text),
            },
        },
    }
}

/// The body of an init-segment reply.
pub open spec fn init_reply(idx: Seq<u8>, id: Seq<char>) -> Result<Seq<u8>, ApiModel> {
    match opened(idx) {
        Err(e) => Err(refused("open idx for init"@, id, e)),
        Ok(index) => Ok(index.init_segment),
    }
}

/// Whether a segment request is admitted, and then the size of its buffer.
pub open spec fn admission(idx: Seq<u8>, id: Seq<char>, segment_idx: u32) -> Result<
    u32,
    ApiModel,
> {
    match opened(idx) {
        Err(e) => Err(refused("open idx for segment"@, id, e)),
        Ok(index) => if segment_idx >= index.segments.len() {
            Err(ApiModel::NotFound)
        } else {
            Ok(index.max_segment_size)
        },
    }
}

/// The body of a media-segment reply over a source that does not fail.
pub open spec fn segment_reply(idx: Seq<u8>, id: Seq<char>, segment_idx: u32, src: Seq<u8>) -> Result<
    Seq<u8>,
    ApiModel,
> {
    match opened(idx) {
        Err(e) => Err(refused("open idx for segment"@, id, e)),
        Ok(index) => match media_segment(index, segment_idx, src) {
            Ok(bytes) => Ok(bytes),
            Err(PackagerError::SegmentIndexOutOfRange { idx: _, count: _ }) => Err(
                ApiModel::NotFound,
            ),
            Err(e) => Err(refused("assemble segment"@, id, e)),
        },
    }
}

/// A body that was returned, as a sequence.
pub open spec fn body_result(r: Result<Vec<u8>, ApiError>) -> Result<Seq<u8>, ApiModel> {
    match r {
        Ok(v) => Ok(v@),
        Err(e) => Err(e@),
    }
}

/// A copy of `data`.
fn copy_of(data: &[u8]) -> (r: Vec<u8>)
    ensures
        r@ == data@,
{
    let mut out: Vec<u8> = Vec::new();
    push_bytes(&mut out, data);
    assert(out@ =~= data@);
    out
}

/// The playlist of an archive: the one that its index holds, else one that is
/// rendered from it.
pub fn playlist_body(idx_bytes: &[u8], id: &str) -> (r: Result<Vec<u8>, ApiError>)
    ensures
        body_result(r) == playlist_reply(idx_bytes@, id@),
{
    proof {
        lemma_opened_never_blames_the_source(idx_bytes@);
        if let Ok(index) = opened(idx_bytes@) {
            lemma_ticks_never_blame_the_source(index.segments, index.video_samples);
        }
    }
    match IndexView::open(idx_bytes) {
        Err(e) => Err(ApiError::internal_packager("open idx for playlist", id, e)),
        Ok(view) => match view.playlist_bytes() {
            Some(text) => Ok(copy_of(text)),
            None => {
                let mut out: Vec<u8> = Vec::new();
                match write_media_playlist(&view, &mut out) {
                    Ok(_) => {
                        assert(out@ =~= playlist(view@)->Ok_0);
                        Ok(out)
                    },
                    Err(e) => Err(ApiError::internal_packager("write playlist", id, e)),
                }
            },
        },
    }
}

/// The init segment of an archive.
pub fn init_body(idx_bytes: &[u8], id: &str) -> (r: Result<Vec<u8>, ApiError>)
    ensures
        body_result(r) == init_reply(idx_bytes@, id@),
{
    proof {
        lemma_opened_never_blames_the_source(idx_bytes@);
    }
    match IndexView::open(idx_bytes) {
        Err(e) => Err(ApiError::internal_packager("open idx for init", id, e)),
        Ok(view) => Ok(copy_of(view.init_segment_bytes())),
    }
}

/// Decides whether a segment request may ask for a permit, and how large a
/// buffer it will need. The buffer is allocated after the permit is granted,
/// so that permits bound the memory in flight.
pub fn admit_segment(idx_bytes: &[u8], id: &str, segment_idx: u32) -> (r: Result<u32, ApiError>)
    ensures
        api_result(r) == admission(idx_bytes@, id@, segment_idx),
{
    proof {
        lemma_opened_never_blames_the_source(idx_bytes@);
    }
    match IndexView::open(idx_bytes) {
        Err(e) => Err(ApiError::internal_packager("open idx for segment", id, e)),
        Ok(view) => {
            if segment_idx >= view.segment_count() {
                return Err(ApiError::NotFound);
            }
            Ok(view.max_segment_size())
        },
    }
}

/// What became of the wait for a permit.
#[derive(Debug, Clone, Copy, PartialEq, Eq, Structural)]
pub enum PermitOutcome {
    Granted,
    /// The admission gate was shut down.
    Closed,
    /// The wait took too long.
    TimedOut,
}

/// Decides how a request goes on after the wait for a permit. Only a timeout
/// is answered with "try again".
pub fn permit_decision(outcome: PermitOutcome) -> (r: Result<(), ApiError>)
    ensures
        api_result(r) == match outcome {
            PermitOutcome::Granted => Ok(()),
            PermitOutcome::Closed => Err(ApiModel::Internal("admission semaphore closed"@)),
            PermitOutcome::TimedOut => Err(ApiModel::ServiceUnavailable),
        },
{
    match outcome {
        PermitOutcome::Granted => Ok(()),
        PermitOutcome::Closed => Err(ApiError::Internal("admission semaphore closed".to_owned())),
        PermitOutcome::TimedOut => Err(ApiError::ServiceUnavailable),
    }
}

/// Assembles a media segment of an archive. `capacity` is the size that was
/// determined on admission.
pub fn segment_body<R: ReadAt + ?Sized>(
    idx_bytes: &[u8],
    id: &str,
    segment_idx: u32,
    source: &R,
    capacity: u32,
) -> (r: Result<Vec<u8>, ApiError>)
    ensures
        source.reliable() ==> body_result(r) == segment_reply(
            idx_bytes@,
            id@,
            segment_idx,
            source.content(),
        ),
        r matches Ok(bytes) ==> segment_reply(idx_bytes@, id@, segment_idx, source.content())
            == Ok::<_, ApiModel>(bytes@),
        opened(idx_bytes@) is Err ==> body_result(r) == segment_reply(
            idx_bytes@,
            id@,
            segment_idx,
            source.content(),
        ),
        r matches Err(e) ==> match opened(idx_bytes@) {
            Ok(index) if segment_idx >= index.segments.len() => e@ is NotFound,
            _ => e@ is Internal,
        },
        opened(idx_bytes@) matches Ok(index) && segment_idx >= index.segments.len() ==> r is Err,
{
    proof {
        lemma_opened_never_blames_the_source(idx_bytes@);
    }
    match IndexView::open(idx_bytes) {
        Err(e) => Err(ApiError::internal_packager("open idx for segment", id, e)),
        Ok(view) => {
            let mut out: Vec<u8> = Vec::with_capacity(capacity as usize);
            let result = write_media_segment(&view, segment_idx, source, &mut out);
            match result {
                Ok(_) => {
                    assert(out@ =~= media_segment(view@, segment_idx, source.content())->Ok_0);
                    Ok(out)
                },
                Err(PackagerError::SegmentIndexOutOfRange { idx: _, count: _ }) => Err(
                    ApiError::NotFound,
                ),
                Err(e) => {
                    proof {
                        lemma_segment_never_blames_the_source(
                            view@,
                            segment_idx,
                            source.content(),
                        );
                    }
                    Err(ApiError::internal_packager("assemble segment", id, e))
                },
            }
        },
    }
}

/// What a media segment should be never depends on a failing byte source.
proof fn lemma_segment_never_blames_the_source(index: IndexModel, idx: u32, src: Seq<u8>)
    ensures
        !source_failed(media_segment(index, idx, src)),
{
    match segment_parts(index, idx) {
        Err(_) => {},
        Ok(parts) => {
            lemma_samples_never_blame_the_source(src, parts.video.samples);
            lemma_samples_never_blame_the_source(src, parts.audio.samples);
        },
    }
}

proof fn lemma_ticks_never_blame_the_source(
    segments: Seq<SegmentEntry>,
    samples: Seq<SampleEntry>,
)
    ensures
        !source_failed(all_ticks(segments, samples)),
    decreases segments.len(),
{
    if segments.len() > 0 {
        lemma_ticks_never_blame_the_source(segments.drop_last(), samples);
    }
}

proof fn lemma_samples_never_blame_the_source(
    src: Seq<u8>,
    samples: Seq<SampleEntry>,
)
    ensures
        !source_failed(samples_data(src, samples)),
    decreases samples.len(),
{
    if samples.len() > 0 {
        lemma_samples_never_blame_the_source(src, samples.drop_last());
    }
}

/// An archive that was built from a source answers for all that its playlist
/// lists: segment name `n` denotes a segment that is admitted, the segment is
/// assembled, and it fits the buffer that admission announced. Past the last
/// name there is nothing.
pub proof fn law_built_archives_answer_every_listed_segment(
    src: Seq<u8>,
    source_len: u64,
    nominal: SegmentDuration,
    id: Seq<char>,
    n: nat,
)
    requires
        built(src, source_len, nominal) is Ok,
        built(src, source_len, nominal)->Ok_0.len() <= usize::MAX,
        1 <= n <= u32::MAX,
    ensures
        ({
            let idx = built(src, source_len, nominal)->Ok_0;
            let count = index_of(src, source_len, nominal)->Ok_0.segments.len();
            let i = named_segment(segment_name(n))->0;
            &&& named_segment(segment_name(n)) is Some
            &&& n <= count ==> {
                &&& admission(idx, id, i) is Ok
                &&& segment_reply(idx, id, i, src) is Ok
                &&& segment_reply(idx, id, i, src)->Ok_0.len() <= admission(idx, id, i)->Ok_0
            }
            &&& n > count ==> admission(idx, id, i) == Err::<u32, _>(ApiModel::NotFound)
        }),
{
    law_playlist_names_lead_to_their_segments(n);
    law_built_image_opens(src, source_len, nominal);
    law_every_segment_of_a_built_index_is_served(src, source_len, nominal);
    let index = index_of(src, source_len, nominal)->Ok_0;
    let i = (n - 1) as u32;
    if n <= index.segments.len() {
        assert(media_segment(index, i, src) is Ok);
    }
}

/// A response body that is handed on in pieces of at most 64 KiB.
///
/// With more than one piece, the body is not done before the client has taken
/// all but the last of them; so a permit that is released with the body is
/// held while a slow client drains it. Each piece is a copy, so that no piece
/// in flight keeps the whole body in memory.
#[derive(Debug)]
pub struct ChunkedBody {
    pub source: Vec<u8>,
    pub pos: usize,
}

/// The pieces of a body from `pos` on.
pub open spec fn pieces(source: Seq<u8>, pos: int) -> Seq<Seq<u8>>
    decreases source.len() - pos,
{
    if pos >= source.len() {
        Seq::empty()
    } else {
        let end = piece_end(source, pos);
        seq![source.subrange(pos, end)] + pieces(source, end)
    }
}

/// Where the piece that starts at `pos` ends.
pub open spec fn piece_end(source: Seq<u8>, pos: int) -> int {
    if source.len() - pos < BODY_CHUNK_SIZE {
        source.len() as int
    } else {
        pos + BODY_CHUNK_SIZE
    }
}

/// Pieces, one after the other.
pub open spec fn joined(parts: Seq<Seq<u8>>) -> Seq<u8>
    decreases parts.len(),
{
    if parts.len() == 0 {
        Seq::empty()
    } else {
        parts[0] + joined(parts.drop_first())
    }
}

/// The pieces of a body make up the body, and none is empty or too large.
pub proof fn law_pieces_make_up_the_body(source: Seq<u8>, pos: int)
    requires
        0 <= pos <= source.len(),
    ensures
        joined(pieces(source, pos)) == source.skip(pos),
        forall|i: int|
            0 <= i < pieces(source, pos).len() ==> 0 < (#[trigger] pieces(source, pos)[i]).len()
                <= BODY_CHUNK_SIZE,
    decreases source.len() - pos,
{
    let all = pieces(source, pos);
    if pos < source.len() {
        let end = piece_end(source, pos);
        law_pieces_make_up_the_body(source, end);
        let rest = pieces(source, end);
        assert(all.drop_first() =~= rest);
        assert(source.subrange(pos, end) + source.skip(end) =~= source.skip(pos));
        assert forall|i: int| 0 <= i < all.len() implies 0 < (#[trigger] all[i]).len()
            <= BODY_CHUNK_SIZE by {
            if i > 0 {
                assert(all[i] == rest[i - 1]);
            }
        }
    } else {
        assert(source.skip(pos) =~= Seq::<u8>::empty());
    }
}

impl ChunkedBody {
    /// The pieces that are left.
    pub open spec fn left(&self) -> Seq<Seq<u8>> {
        pieces(self.source@, self.pos as int)
    }

    /// A body of which nothing was handed on yet.
    pub fn new(source: Vec<u8>) -> (r: ChunkedBody)
        ensures
            r.source@ == source@,
            r.pos == 0,
    {
        ChunkedBody { source, pos: 0 }
    }

    /// The number of bytes that are left.
    pub fn remaining(&self) -> (r: usize)
        ensures
            r == if self.pos < self.source@.len() { self.source@.len() - self.pos } else { 0 },
    {
        if self.pos < self.source.len() {
            self.source.len() - self.pos
        } else {
            0
        }
    }

    /// Whether nothing is left.
    pub fn is_end_stream(&self) -> (r: bool)
        ensures
            r == (self.left().len() == 0),
    {
        self.pos >= self.source.len()
    }

    /// The next piece, or `None` at the end.
    pub fn next_chunk(&mut self) -> (r: Option<Vec<u8>>)
        ensures
            final(self).source@ == old(self).source@,
            match r {
                None => old(self).left().len() == 0 && final(self).pos == old(self).pos,
                Some(piece) => {
                    &&& old(self).left().len() > 0
                    &&& piece@ == old(self).left()[0]
                    &&& final(self).left() == old(self).left().drop_first()
                },
            },
    {
        let len: usize = self.source.len();
        if self.pos >= len {
            return None;
        }
        let pos: usize = self.pos;
        let left: usize = len - pos;
        let take: usize = if left < BODY_CHUNK_SIZE { left } else { BODY_CHUNK_SIZE };
        let piece: Vec<u8> = copy_of(&self.source.as_slice()[pos..pos + take]);
        self.pos = pos + take;
        assert(old(self).left().drop_first() =~= self.left());
        Some(piece)
    }
}

} // verus!
