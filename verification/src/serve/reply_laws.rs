//! What the origin answers, and how it is sized.

use vstd::prelude::*;

use crate::bytes::ascii;
use crate::error::PackagerError;
use crate::fmp4::init::init_segment;
use crate::fmp4::media::{lemma_segment_failures_are_io, media_segment};
use crate::fmp4::media_laws::stands;
use crate::index::builder::{
    built, index_of, law_built_image_opens, law_built_index_describes_its_source,
    newline_padded,
};
use crate::index::view::{opened, IndexModel};
use crate::playlist::m3u8::playlist;
use crate::playlist::playlist_laws::decimal_value;
use crate::segment::duration::SegmentDuration;
use crate::serve::api_error::{reply_for, ApiModel};
use crate::serve::config::{
    audit_text, auto_inflight, auto_open, digits_only, digits_value, host_text, is_digit,
    is_space, kb_bytes, line_at, line_bytes, line_end, mem_total_from, number_fault, parsed,
    resolved, trimmed, trimmed_end, trimmed_start, Config, ConfigFault, HostInputs, ResolveArgs,
    Source, WaitTime,
};
use crate::serve::handlers::{
    admission, all_digits, init_reply, named_segment, number, piece_end, pieces, playlist_reply,
    segment_reply,
};
use crate::serve::registry::{
    has_key, id_fault, key_index, load_outcome, pair_fault, touched, FileOutcome, LoadStep,
};
use crate::text::decimal_text;

verus! {

/// The playlist reply for a built archive is the playlist of its index, byte
/// for byte from its first tag on, and behind it nothing but newlines up to a
/// multiple of 8.
pub proof fn law_built_archives_answer_with_their_playlist(
    src: Seq<u8>,
    source_len: u64,
    nominal: SegmentDuration,
    id: Seq<char>,
)
    requires
        built(src, source_len, nominal) is Ok,
        built(src, source_len, nominal)->Ok_0.len() <= usize::MAX,
    ensures
        ({
            let idx = built(src, source_len, nominal)->Ok_0;
            let index = index_of(src, source_len, nominal)->Ok_0;
            let text = playlist(index)->Ok_0;
            let body = playlist_reply(idx, id)->Ok_0;
            &&& playlist(index) is Ok
            &&& playlist_reply(idx, id) is Ok
            &&& stands(body, 0, text)
            &&& stands(body, 0, ascii("#EXTM3U\n#EXT-X-VERSION:7\n"@))
            &&& body.len() % 8 == 0
            &&& body.len() < text.len() + 8
            &&& forall|i: int| text.len() <= i < body.len() ==> #[trigger] body[i] == 10
        }),
{
    law_built_image_opens(src, source_len, nominal);
    law_built_index_describes_its_source(src, source_len, nominal);
    lemma_padded_playlist(
        built(src, source_len, nominal)->Ok_0,
        id,
        index_of(src, source_len, nominal)->Ok_0,
    );
}

/// A stored playlist that was padded with newlines is answered as it is.
proof fn lemma_padded_playlist(idx: Seq<u8>, id: Seq<char>, index: IndexModel)
    requires
        opened(idx) == Ok::<_, PackagerError>(index),
        playlist(index) is Ok,
        index.playlist == Some(newline_padded(playlist(index)->Ok_0)),
    ensures
        ({
            let text = playlist(index)->Ok_0;
            let body = playlist_reply(idx, id)->Ok_0;
            &&& playlist_reply(idx, id) is Ok
            &&& stands(body, 0, text)
            &&& stands(body, 0, ascii("#EXTM3U\n#EXT-X-VERSION:7\n"@))
            &&& body.len() % 8 == 0
            &&& body.len() < text.len() + 8
            &&& forall|i: int| text.len() <= i < body.len() ==> #[trigger] body[i] == 10
        }),
{
    let text = playlist(index)->Ok_0;
    let body = playlist_reply(idx, id)->Ok_0;
    assert(body == newline_padded(text));
    assert(body.subrange(0, text.len() as int) =~= text);
    reveal_strlit("#EXTM3U\n#EXT-X-VERSION:7\n");
    reveal_strlit(
        "#EXTM3U\n#EXT-X-VERSION:7\n#EXT-X-INDEPENDENT-SEGMENTS\n#EXT-X-TARGETDURATION:",
    );
    assert(body.subrange(0, 25) =~= ascii("#EXTM3U\n#EXT-X-VERSION:7\n"@));
}

/// The init and segment replies for a built archive are what its index and its
/// source make: its init segment, and media segment `i` for every `i` that it
/// lists.
pub proof fn law_built_archives_answer_with_their_segments(
    src: Seq<u8>,
    source_len: u64,
    nominal: SegmentDuration,
    id: Seq<char>,
    i: u32,
)
    requires
        built(src, source_len, nominal) is Ok,
        built(src, source_len, nominal)->Ok_0.len() <= usize::MAX,
    ensures
        ({
            let idx = built(src, source_len, nominal)->Ok_0;
            let index = index_of(src, source_len, nominal)->Ok_0;
            &&& init_segment(index) is Ok
            &&& init_reply(idx, id) == Ok::<_, ApiModel>(init_segment(index)->Ok_0)
            &&& media_segment(index, i, src) matches Ok(bytes) ==> segment_reply(idx, id, i, src)
                == Ok::<_, ApiModel>(bytes)
            &&& i >= index.segments.len() ==> segment_reply(idx, id, i, src) == Err::<
                Seq<u8>,
                _,
            >(ApiModel::NotFound)
        }),
{
    law_built_image_opens(src, source_len, nominal);
    law_built_index_describes_its_source(src, source_len, nominal);
}

/// An index that opens is answered from: its stored playlist, or else one that
/// is rendered from it; its init segment; and a segment exactly if it lists
/// it, with the room that it announces.
pub proof fn law_open_indexes_are_answered_from(
    idx: Seq<u8>,
    id: Seq<char>,
    i: u32,
    src: Seq<u8>,
)
    requires
        opened(idx) is Ok,
    ensures
        ({
            let index = opened(idx)->Ok_0;
            &&& index.playlist matches Some(text) ==> playlist_reply(idx, id) == Ok::<
                _,
                ApiModel,
            >(text)
            &&& index.playlist is None ==> (playlist(index) matches Ok(text) ==> playlist_reply(
                idx,
                id,
            ) == Ok::<_, ApiModel>(text))
            &&& init_reply(idx, id) == Ok::<_, ApiModel>(index.init_segment)
            &&& admission(idx, id, i) == if i < index.segments.len() {
                Ok::<u32, ApiModel>(index.max_segment_size)
            } else {
                Err(ApiModel::NotFound)
            }
            &&& media_segment(index, i, src) matches Ok(bytes) ==> segment_reply(idx, id, i, src)
                == Ok::<_, ApiModel>(bytes)
            &&& segment_reply(idx, id, i, src) is Ok ==> media_segment(index, i, src) is Ok
            &&& segment_reply(idx, id, i, src) == Err::<Seq<u8>, _>(ApiModel::NotFound) <==> i
                >= index.segments.len()
        }),
{
    let index = opened(idx)->Ok_0;
    if i < index.segments.len() {
        lemma_segment_failures_are_io(index, i, src);
    }
}

/// A fault of the server is never taken for one of the client: an index that
/// does not open is answered as an internal error, whatever is asked of it.
pub proof fn law_broken_indexes_are_internal_errors(
    idx: Seq<u8>,
    id: Seq<char>,
    i: u32,
    src: Seq<u8>,
)
    requires
        opened(idx) is Err,
    ensures
        playlist_reply(idx, id) is Err && playlist_reply(idx, id)->Err_0 is Internal,
        init_reply(idx, id) is Err && init_reply(idx, id)->Err_0 is Internal,
        admission(idx, id, i) is Err && admission(idx, id, i)->Err_0 is Internal,
        segment_reply(idx, id, i, src) is Err && segment_reply(idx, id, i, src)->Err_0 is Internal,
{
}

proof fn lemma_number_is_decimal(text: Seq<u8>)
    ensures
        number(text) == decimal_value(text) || !all_digits(text),
    decreases text.len(),
{
    if text.len() > 0 && all_digits(text) {
        let before = text.drop_last();
        assert forall|i: int| 0 <= i < before.len() implies 48 <= #[trigger] before[i] <= 57 by {
            assert(before[i] == text[i]);
        }
        lemma_number_is_decimal(before);
    }
}

/// A file name denotes a segment exactly if it is `seg_`, at least four decimal
/// digits, and `.m4s`, and the digits count it from 1.
pub proof fn law_segment_names(name: Seq<u8>)
    ensures
        ({
            let n = name.len() as int;
            let body = name.subrange(4, n - 4);
            let shaped = n >= 12 && name[0] == 0x73 && name[1] == 0x65 && name[2] == 0x67
                && name[3] == 0x5f && name[n - 4] == 0x2e && name[n - 3] == 0x6d && name[n - 2]
                == 0x34 && name[n - 1] == 0x73 && forall|i: int|
                4 <= i < n - 4 ==> 0x30 <= #[trigger] name[i] <= 0x39;
            match named_segment(name) {
                Some(i) => shaped && decimal_value(body) == i + 1,
                None => !shaped || decimal_value(body) == 0 || decimal_value(body) > 0xffff_ffff,
            }
        }),
{
    let n = name.len() as int;
    reveal_strlit("seg_");
    reveal_strlit(".m4s");
    if n >= 8 {
        let body = name.subrange(4, n - 4);
        let head = name.take(4);
        let tail = name.skip(n - 4);
        if head == ascii("seg_"@) {
            assert(head[0] == name[0] && head[1] == name[1] && head[2] == name[2] && head[3]
                == name[3]);
        } else if name[0] == 0x73 && name[1] == 0x65 && name[2] == 0x67 && name[3] == 0x5f {
            assert(head =~= ascii("seg_"@));
        }
        if tail == ascii(".m4s"@) {
            assert(tail[0] == name[n - 4] && tail[1] == name[n - 3] && tail[2] == name[n - 2]
                && tail[3] == name[n - 1]);
        } else if name[n - 4] == 0x2e && name[n - 3] == 0x6d && name[n - 2] == 0x34 && name[n - 1]
            == 0x73 {
            assert(tail =~= ascii(".m4s"@));
        }
        lemma_number_is_decimal(body);
        if all_digits(body) {
            assert forall|i: int| 4 <= i < n - 4 implies 0x30 <= #[trigger] name[i] <= 0x39 by {
                assert(body[i - 4] == name[i]);
            }
        } else if forall|i: int| 4 <= i < n - 4 ==> 0x30 <= #[trigger] name[i] <= 0x39 {
            assert forall|i: int| 0 <= i < body.len() implies 48 <= #[trigger] body[i] <= 57 by {
                assert(body[i] == name[i + 4]);
            }
        }
    }
}

/// An id is accepted exactly if it has 1 to 64 bytes, each an ASCII letter, a
/// digit, an underscore or a hyphen.
pub proof fn law_ids(id: Seq<u8>)
    ensures
        id_fault(id) is None <==> 1 <= id.len() <= 64 && forall|i: int|
            0 <= i < id.len() ==> {
                ||| 0x30 <= #[trigger] id[i] <= 0x39
                ||| 0x41 <= id[i] <= 0x5a
                ||| 0x61 <= id[i] <= 0x7a
                ||| id[i] == 0x5f
                ||| id[i] == 0x2d
            },
{
}

/// What an error is answered with: 400, 404, 503 or 500, and only the 503 asks
/// the client to try again, after a second.
pub proof fn law_error_replies(reason: &'static str, detail: Seq<char>)
    ensures
        reply_for(ApiModel::BadRequest(reason)).status == 400,
        reply_for(ApiModel::NotFound).status == 404,
        reply_for(ApiModel::ServiceUnavailable).status == 503,
        reply_for(ApiModel::Internal(detail)).status == 500,
        reply_for(ApiModel::ServiceUnavailable).retry_after is Some,
        reply_for(ApiModel::ServiceUnavailable).retry_after->0@ == "1"@,
        reply_for(ApiModel::BadRequest(reason)).retry_after is None,
        reply_for(ApiModel::NotFound).retry_after is None,
        reply_for(ApiModel::Internal(detail)).retry_after is None,
        reply_for(ApiModel::BadRequest(reason)).body@ == "bad request"@,
        reply_for(ApiModel::NotFound).body@ == "not found"@,
        reply_for(ApiModel::ServiceUnavailable).body@ == "service unavailable"@,
        reply_for(ApiModel::Internal(detail)).body@ == "internal server error"@,
{
}

/// A load takes its steps in order, each only after the one before it has
/// succeeded. Only an index that is missing, or is no file, is the client's
/// mistake.
pub proof fn law_loads_go_step_by_step(
    step: LoadStep,
    outcome: FileOutcome,
    id: Seq<char>,
    path: Seq<char>,
)
    ensures
        outcome is Done ==> load_outcome(step, outcome, id, path) == Ok::<_, ApiModel>(
            match step {
                LoadStep::StatIdx => LoadStep::OpenIdx,
                LoadStep::OpenIdx => LoadStep::MapIdx,
                LoadStep::MapIdx => LoadStep::OpenMp4,
                LoadStep::OpenMp4 => LoadStep::MapMp4,
                LoadStep::MapMp4 => LoadStep::Check,
                LoadStep::Check => LoadStep::Check,
            },
        ),
        load_outcome(step, outcome, id, path) == Err::<LoadStep, _>(ApiModel::NotFound) <==> step
            == LoadStep::StatIdx && (outcome is NotAFile || outcome is Absent),
        outcome is Failed || outcome is Absent && step != LoadStep::StatIdx ==> load_outcome(
            step,
            outcome,
            id,
            path,
        ) is Err && load_outcome(step, outcome, id, path)->Err_0 is Internal,
{
}

/// An archive is served exactly if its index opens where it lies and records
/// the length of the source that is there; all else is an internal error.
pub proof fn law_pairs_are_checked(idx: Seq<u8>, mp4_len: u64, id: Seq<char>)
    ensures
        pair_fault(idx, true, mp4_len, id) is None <==> opened(idx) is Ok
            && opened(idx)->Ok_0.source_mp4_len == mp4_len,
        pair_fault(idx, false, mp4_len, id) is Some,
        forall|aligned: bool|
            (#[trigger] pair_fault(idx, aligned, mp4_len, id)) matches Some(e) ==> e is Internal,
{
}

/// Every piece of a body but the last has 65536 bytes, so that a body takes as
/// few of them as possible.
pub proof fn law_pieces_are_full(source: Seq<u8>, pos: int)
    requires
        0 <= pos <= source.len(),
    ensures
        forall|i: int|
            0 <= i < pieces(source, pos).len() - 1 ==> (#[trigger] pieces(source, pos)[i]).len()
                == 65536,
        pieces(source, pos).len() == 0 <==> pos == source.len(),
        forall|i: int|
            0 <= i < pieces(source, pos).len() ==> #[trigger] pieces(source, pos)[i]
                == source.subrange(
                pos + 65536 * i,
                if pos + 65536 * (i + 1) < source.len() {
                    pos + 65536 * (i + 1)
                } else {
                    source.len() as int
                },
            ),
    decreases source.len() - pos,
{
    if pos < source.len() {
        let all = pieces(source, pos);
        let end = piece_end(source, pos);
        law_pieces_are_full(source, end);
        let rest = pieces(source, end);
        assert forall|i: int| 0 <= i < all.len() - 1 implies (#[trigger] all[i]).len() == 65536 by {
            if i > 0 {
                assert(all[i] == rest[i - 1]);
            }
        }
        assert forall|i: int| 0 <= i < all.len() implies #[trigger] all[i] == source.subrange(
            pos + 65536 * i,
            if pos + 65536 * (i + 1) < source.len() {
                pos + 65536 * (i + 1)
            } else {
                source.len() as int
            },
        ) by {
            if i > 0 {
                assert(all[i] == rest[i - 1]);
            }
        }
    }
}

/// A use moves an archive to the front and leaves the others in their order.
pub proof fn law_uses_keep_the_order_of_the_others(
    items: Seq<(Seq<char>, u64)>,
    key: Seq<char>,
    i: int,
)
    requires
        0 <= i < items.len(),
        items[i].0 == key,
        forall|k: int| 0 <= k < i ==> (#[trigger] items[k]).0 != key,
    ensures
        touched(items, key).len() == items.len(),
        touched(items, key)[0] == items[i],
        forall|k: int| 0 <= k < i ==> touched(items, key)[k + 1] == #[trigger] items[k],
        forall|k: int| i < k < items.len() ==> touched(items, key)[k] == #[trigger] items[k],
{
    lemma_key_index_is(items, key, i);
}

proof fn lemma_key_index_is(items: Seq<(Seq<char>, u64)>, key: Seq<char>, i: int)
    requires
        0 <= i < items.len(),
        items[i].0 == key,
        forall|k: int| 0 <= k < i ==> (#[trigger] items[k]).0 != key,
    ensures
        key_index(items, key) == i,
        has_key(items, key),
    decreases items.len(),
{
    if i > 0 {
        assert(items[0].0 != key);
        let rest = items.drop_first();
        assert forall|k: int| 0 <= k < i - 1 implies (#[trigger] rest[k]).0 != key by {
            assert(items[k + 1].0 != key);
        }
        lemma_key_index_is(rest, key, i - 1);
    }
}

/// A derived registry has as many archives as two mappings each fit beside the
/// reserve of 2048, but no fewer than 64 and no more than 100000.
pub proof fn law_registries_are_sized_by_mappings(max_map_count: usize)
    ensures
        ({
            let n = auto_open(max_map_count);
            &&& 64 <= n <= 100000
            &&& n > 64 ==> 2 * n + 2048 <= max_map_count
            &&& n < 100000 ==> max_map_count < 2 * (n + 1) + 2048
        }),
{
}

/// A derived number of segments in flight is as many as 32 MiB each fit in a
/// twentieth of the memory, but no fewer than 64 and no more than 4096.
pub proof fn law_segments_in_flight_are_sized_by_memory(mem_total: u64)
    ensures
        ({
            let n = auto_inflight(mem_total);
            &&& 64 <= n <= 4096
            &&& n > 64 ==> 20 * n * 33554432 <= mem_total
            &&& n < 4096 ==> mem_total < 20 * (n + 1) * 33554432
        }),
{
}

/// A flag decides its knob, else the host does, else fixed values do; and the
/// configuration says which. Directories and address are taken as they are
/// given, and the wait is 5 seconds unless a flag says otherwise.
pub proof fn law_flags_come_first(args: ResolveArgs, host: HostInputs)
    requires
        resolved(args, host) is Ok,
    ensures
        ({
            let c = resolved(args, host)->Ok_0;
            &&& c.media_dir == args.media_dir
            &&& c.index_dir == args.index_dir
            &&& c.bind == args.bind
            &&& match args.max_open_archives {
                Some(n) => c.max_open_archives == n && c.max_open_archives_source == Source::Flag,
                None => match host {
                    HostInputs::Linux { max_map_count, mem_total: _ } => {
                        &&& c.max_open_archives == auto_open(max_map_count)
                        &&& c.max_open_archives_source == Source::Auto
                    },
                    HostInputs::Fallback => {
                        &&& c.max_open_archives == 1024
                        &&& c.max_open_archives_source == Source::Fallback
                    },
                },
            }
            &&& match args.max_inflight_segments {
                Some(n) => c.max_inflight_segments == n && c.max_inflight_segments_source
                    == Source::Flag,
                None => match host {
                    HostInputs::Linux { max_map_count: _, mem_total } => {
                        &&& c.max_inflight_segments == auto_inflight(mem_total)
                        &&& c.max_inflight_segments_source == Source::Auto
                    },
                    HostInputs::Fallback => {
                        &&& c.max_inflight_segments == 64
                        &&& c.max_inflight_segments_source == Source::Fallback
                    },
                },
            }
            &&& match args.permit_wait_timeout {
                Some(Ok(t)) => c.permit_wait_timeout == t,
                Some(Err(_)) => false,
                None => c.permit_wait_timeout == (WaitTime { secs: 5, nanos: 0 }),
            }
            &&& match host {
                HostInputs::Linux { max_map_count, mem_total } => {
                    &&& c.host_max_map_count == Some(max_map_count)
                    &&& c.host_mem_total_bytes == Some(mem_total)
                },
                HostInputs::Fallback => c.host_max_map_count is None
                    && c.host_mem_total_bytes is None,
            }
        }),
{
}

/// A configuration is refused exactly if the host reports fewer mappings than
/// two for each archive and 2048 more, or the wait of a flag is not one.
pub proof fn law_refused_configurations(args: ResolveArgs, host: HostInputs)
    ensures
        ({
            let low = match host {
                HostInputs::Linux { max_map_count, mem_total: _ } => {
                    let n = match args.max_open_archives {
                        Some(n) => n as int,
                        None => auto_open(max_map_count),
                    };
                    max_map_count < 2 * n + 2048
                },
                HostInputs::Fallback => false,
            };
            let no_wait = args.permit_wait_timeout matches Some(Err(_));
            resolved(args, host) is Err <==> low || no_wait
        }),
{
}

/// Trimmed text is the text without white space at its ends, and with nothing
/// else taken away.
pub proof fn law_trimming(s: Seq<char>)
    ensures
        trimmed(s).len() > 0 ==> !is_space(trimmed(s)[0]) && !is_space(trimmed(s).last()),
        exists|a: int, b: int|
            {
                &&& 0 <= a <= b <= s.len()
                &&& trimmed(s) == #[trigger] s.subrange(a, b)
                &&& forall|i: int| 0 <= i < a ==> is_space(#[trigger] s[i])
                &&& forall|i: int| b <= i < s.len() ==> is_space(#[trigger] s[i])
            },
{
    let a = lemma_trimmed_start(s);
    let rest = s.skip(a);
    let n = lemma_trimmed_end(rest);
    assert(trimmed(s) =~= s.subrange(a, a + n));
    assert forall|i: int| a + n <= i < s.len() implies is_space(#[trigger] s[i]) by {
        assert(rest[i - a] == s[i]);
    }
    if n > 0 {
        assert(trimmed(s)[0] == rest[0]);
    }
}

proof fn lemma_trimmed_start(s: Seq<char>) -> (a: int)
    ensures
        0 <= a <= s.len(),
        trimmed_start(s) == s.skip(a),
        forall|i: int| 0 <= i < a ==> is_space(#[trigger] s[i]),
        a < s.len() ==> !is_space(s[a]),
    decreases s.len(),
{
    if s.len() > 0 && is_space(s[0]) {
        let a = lemma_trimmed_start(s.drop_first());
        assert(s.drop_first().skip(a) =~= s.skip(a + 1));
        assert forall|i: int| 0 <= i < a + 1 implies is_space(#[trigger] s[i]) by {
            if i > 0 {
                assert(s.drop_first()[i - 1] == s[i]);
            }
        }
        if a + 1 < s.len() {
            assert(s.drop_first()[a] == s[a + 1]);
        }
        a + 1
    } else {
        assert(s.skip(0) =~= s);
        0
    }
}

proof fn lemma_trimmed_end(s: Seq<char>) -> (n: int)
    ensures
        0 <= n <= s.len(),
        trimmed_end(s) == s.take(n),
        forall|i: int| n <= i < s.len() ==> is_space(#[trigger] s[i]),
        n > 0 ==> !is_space(s[n - 1]),
    decreases s.len(),
{
    if s.len() > 0 && is_space(s.last()) {
        let n = lemma_trimmed_end(s.drop_last());
        assert(s.drop_last().take(n) =~= s.take(n));
        assert forall|i: int| n <= i < s.len() implies is_space(#[trigger] s[i]) by {
            if i < s.len() - 1 {
                assert(s.drop_last()[i] == s[i]);
            }
        }
        n
    } else {
        assert(s.take(s.len() as int) =~= s);
        s.len() as int
    }
}

/// A `MemTotal` line counts kibibytes.
pub proof fn law_memory_is_counted_in_kibibytes(line: Seq<char>, kb: u64)
    ensures
        kb <= 0x3f_ffff_ffff_ffff ==> kb_bytes(line, Ok(kb)) == Ok::<_, ConfigFault>(
            (kb * 1024) as u64,
        ),
        kb > 0x3f_ffff_ffff_ffff ==> kb_bytes(line, Ok(kb)) is Err,
{
}

/// Where the line that starts at `from` ends.
proof fn lemma_line_end(s: Seq<char>, from: int, end: int)
    requires
        0 <= from <= end <= s.len(),
        forall|i: int| from <= i < end ==> #[trigger] s[i] != '\n',
        end < s.len() ==> s[end] == '\n',
    ensures
        line_end(s, from) == end,
    decreases end - from,
{
    if from < end {
        assert(s[from] != '\n');
        lemma_line_end(s, from + 1, end);
    }
}

/// Text is read line by line: a line goes up to a line feed, with a carriage
/// return in front of it or not, or to the end of the text. The first line
/// that starts with `MemTotal:` counts, and others are passed over.
pub proof fn law_memory_is_looked_for_line_by_line(s: Seq<char>, from: int, end: int)
    requires
        0 <= from <= end <= s.len(),
        from < s.len(),
        forall|i: int| from <= i < end ==> #[trigger] s[i] != '\n',
        end < s.len() ==> s[end] == '\n',
    ensures
        ({
            let cr = end < s.len() && end > from && s[end - 1] == '\r';
            let line = s.subrange(from, if cr { end - 1 } else { end });
            let found = line.len() >= 9 && line.subrange(0, 9) == "MemTotal:"@;
            &&& line_at(s, from) == line
            &&& found ==> mem_total_from(s, from) == line_bytes(line)
            &&& !found && end < s.len() ==> mem_total_from(s, from) == mem_total_from(s, end + 1)
            &&& !found && end == s.len() ==> mem_total_from(s, from) == Err::<u64, _>(
                ConfigFault::MemTotalMissing,
            )
        }),
{
    lemma_line_end(s, from, end);
    let line = line_at(s, from);
    if line.len() >= 9 {
        assert(line.take(9) =~= line.subrange(0, 9));
    }
}

/// A `MemTotal` line gives a number in front of `kB`, with white space around
/// either or not.
pub proof fn law_memory_lines(line: Seq<char>, text: Seq<char>)
    requires
        line.len() >= 9,
        trimmed(line.subrange(9, line.len() as int)) == text + seq!['k', 'B'],
    ensures
        ({
            let number = trimmed(text);
            &&& parsed(number, u64::MAX as nat) matches Some(kb) ==> line_bytes(line) == kb_bytes(
                line,
                Ok(kb as u64),
            )
            &&& parsed(number, u64::MAX as nat) is None ==> line_bytes(line) == Err::<u64, _>(
                ConfigFault::MemTotalUnreadable(line, number_fault(number, u64::MAX as nat)),
            )
        }),
{
    let rest = text + seq!['k', 'B'];
    assert(line.skip(9) =~= line.subrange(9, line.len() as int));
    assert(rest.take(rest.len() - 2) =~= text);
}

/// The number that decimal digits denote.
pub open spec fn decimal_number(text: Seq<char>) -> nat
    decreases text.len(),
{
    if text.len() == 0 {
        0
    } else {
        10 * decimal_number(text.drop_last()) + (text.last() as u32 - 0x30) as nat
    }
}

/// Whether text is decimal digits and nothing else.
pub open spec fn decimal_digits(text: Seq<char>) -> bool {
    text.len() > 0 && forall|i: int| 0 <= i < text.len() ==> 48 <= (#[trigger] text[i]) as u32 <= 57
}

/// A number is decimal digits, with a plus sign in front or not, up to a
/// limit; anything else is none.
pub proof fn law_numbers_are_read_in_decimal(s: Seq<char>, max: nat)
    ensures
        ({
            let body = if s.len() > 0 && s[0] == '+' { s.subrange(1, s.len() as int) } else { s };
            match parsed(s, max) {
                Some(n) => decimal_digits(body) && n == decimal_number(body) && n <= max,
                None => !decimal_digits(body) || decimal_number(body) > max,
            }
        }),
{
    let body = if s.len() > 0 && s[0] == '+' { s.subrange(1, s.len() as int) } else { s };
    if s.len() > 0 && s[0] == '+' {
        assert(s.drop_first() =~= body);
    }
    lemma_digits_value(body);
    assert(decimal_digits(body) <==> body.len() > 0 && digits_only(body)) by {
        lemma_decimal_digits(body);
    }
}

proof fn lemma_decimal_digits(text: Seq<char>)
    ensures
        decimal_digits(text) <==> text.len() > 0 && digits_only(text),
{
    if decimal_digits(text) {
        assert forall|i: int| 0 <= i < text.len() implies is_digit(#[trigger] text[i]) by {}
    }
    if digits_only(text) {
        assert forall|i: int| 0 <= i < text.len() implies 48 <= (#[trigger] text[i]) as u32
            <= 57 by {
            assert(is_digit(text[i]));
        }
    }
}

proof fn lemma_digits_value(body: Seq<char>)
    ensures
        digits_value(body) == decimal_number(body),
    decreases body.len(),
{
    if body.len() > 0 {
        lemma_digits_value(body.drop_last());
    }
}

/// Whether a text says something somewhere.
pub open spec fn says(text: Seq<char>, part: Seq<char>) -> bool {
    exists|at: int|
        0 <= at && at + part.len() <= text.len() && #[trigger] text.subrange(at, at + part.len())
            == part
}

proof fn lemma_says(text: Seq<char>, before: Seq<char>, part: Seq<char>, after: Seq<char>)
    requires
        text == before + part + after,
    ensures
        says(text, part),
{
    let at = before.len() as int;
    assert(text.subrange(at, at + part.len()) =~= part);
}

/// What a source is called.
pub open spec fn source_name(source: Source) -> Seq<char> {
    match source {
        Source::Auto => "auto"@,
        Source::Flag => "flag"@,
        Source::Fallback => "fallback"@,
    }
}

/// What the audit line says of each setting.
pub open spec fn audit_parts(c: Config, wait: Seq<char>) -> Seq<Seq<char>> {
    seq![
        "audit: cmafly-serve config bind="@ + c.bind@ + " media_dir="@,
        " media_dir="@ + c.media_dir@ + " index_dir="@,
        " index_dir="@ + c.index_dir@ + " max_open_archives="@,
        " max_open_archives="@ + decimal_text(c.max_open_archives as nat) + " ("@ + source_name(c.max_open_archives_source) + ") max_inflight_segments="@,
        ") max_inflight_segments="@ + decimal_text(c.max_inflight_segments as nat) + " ("@ + source_name(c.max_inflight_segments_source) + ") permit_wait_timeout="@,
        ") permit_wait_timeout="@ + wait + "s host: "@,
        "s host: "@ + host_text(c.host_max_map_count, c.host_mem_total_bytes),
    ]
}

/// The audit line records every setting under its name: the address, both
/// directories, both knobs with where they came from, the wait, and what the
/// host reports.
pub proof fn law_audit_line_records_every_setting(c: Config, wait: Seq<char>)
    ensures
        forall|i: int| 0 <= i < 7 ==> says(audit_text(c, wait), #[trigger] audit_parts(c, wait)[i]),
        c.host_max_map_count is Some && c.host_mem_total_bytes is Some ==> host_text(
            c.host_max_map_count,
            c.host_mem_total_bytes,
        ) == "vm.max_map_count="@ + decimal_text(c.host_max_map_count->0 as nat)
            + " MemTotal_bytes="@ + decimal_text(c.host_mem_total_bytes->0 as nat),
{
    let parts = audit_parts(c, wait);
    let a0 = "audit: cmafly-serve config bind="@;
    let a1 = c.bind@;
    let a2 = " media_dir="@;
    let a3 = c.media_dir@;
    let a4 = " index_dir="@;
    let a5 = c.index_dir@;
    let a6 = " max_open_archives="@;
    let a7 = decimal_text(c.max_open_archives as nat);
    let a8 = " ("@;
    let a9 = source_name(c.max_open_archives_source);
    let a10 = ") max_inflight_segments="@;
    let a11 = decimal_text(c.max_inflight_segments as nat);
    let a12 = " ("@;
    let a13 = source_name(c.max_inflight_segments_source);
    let a14 = ") permit_wait_timeout="@;
    let a15 = wait;
    let a16 = "s host: "@;
    let a17 = host_text(c.host_max_map_count, c.host_mem_total_bytes);
    let l1 = a0;
    let l2 = l1 + a1;
    let l3 = l2 + a2;
    let l4 = l3 + a3;
    let l5 = l4 + a4;
    let l6 = l5 + a5;
    let l7 = l6 + a6;
    let l8 = l7 + a7;
    let l9 = l8 + a8;
    let l10 = l9 + a9;
    let l11 = l10 + a10;
    let l12 = l11 + a11;
    let l13 = l12 + a12;
    let l14 = l13 + a13;
    let l15 = l14 + a14;
    let l16 = l15 + a15;
    let l17 = l16 + a16;
    let l18 = l17 + a17;
    let p0 = a0 + a1 + a2;
    lemma_says_end3(Seq::<char>::empty(), a0, a1, a2);
    assert(Seq::<char>::empty() + a0 + a1 + a2 =~= l3);
    lemma_says_grows(l3, a3, p0);
    lemma_says_grows(l4, a4, p0);
    lemma_says_grows(l5, a5, p0);
    lemma_says_grows(l6, a6, p0);
    lemma_says_grows(l7, a7, p0);
    lemma_says_grows(l8, a8, p0);
    lemma_says_grows(l9, a9, p0);
    lemma_says_grows(l10, a10, p0);
    lemma_says_grows(l11, a11, p0);
    lemma_says_grows(l12, a12, p0);
    lemma_says_grows(l13, a13, p0);
    lemma_says_grows(l14, a14, p0);
    lemma_says_grows(l15, a15, p0);
    lemma_says_grows(l16, a16, p0);
    lemma_says_grows(l17, a17, p0);
    let p1 = a2 + a3 + a4;
    lemma_says_end3(l2, a2, a3, a4);
    lemma_says_grows(l5, a5, p1);
    lemma_says_grows(l6, a6, p1);
    lemma_says_grows(l7, a7, p1);
    lemma_says_grows(l8, a8, p1);
    lemma_says_grows(l9, a9, p1);
    lemma_says_grows(l10, a10, p1);
    lemma_says_grows(l11, a11, p1);
    lemma_says_grows(l12, a12, p1);
    lemma_says_grows(l13, a13, p1);
    lemma_says_grows(l14, a14, p1);
    lemma_says_grows(l15, a15, p1);
    lemma_says_grows(l16, a16, p1);
    lemma_says_grows(l17, a17, p1);
    let p2 = a4 + a5 + a6;
    lemma_says_end3(l4, a4, a5, a6);
    lemma_says_grows(l7, a7, p2);
    lemma_says_grows(l8, a8, p2);
    lemma_says_grows(l9, a9, p2);
    lemma_says_grows(l10, a10, p2);
    lemma_says_grows(l11, a11, p2);
    lemma_says_grows(l12, a12, p2);
    lemma_says_grows(l13, a13, p2);
    lemma_says_grows(l14, a14, p2);
    lemma_says_grows(l15, a15, p2);
    lemma_says_grows(l16, a16, p2);
    lemma_says_grows(l17, a17, p2);
    let p3 = a6 + a7 + a8 + a9 + a10;
    lemma_says_end5(l6, a6, a7, a8, a9, a10);
    lemma_says_grows(l11, a11, p3);
    lemma_says_grows(l12, a12, p3);
    lemma_says_grows(l13, a13, p3);
    lemma_says_grows(l14, a14, p3);
    lemma_says_grows(l15, a15, p3);
    lemma_says_grows(l16, a16, p3);
    lemma_says_grows(l17, a17, p3);
    let p4 = a10 + a11 + a12 + a13 + a14;
    lemma_says_end5(l10, a10, a11, a12, a13, a14);
    lemma_says_grows(l15, a15, p4);
    lemma_says_grows(l16, a16, p4);
    lemma_says_grows(l17, a17, p4);
    let p5 = a14 + a15 + a16;
    lemma_says_end3(l14, a14, a15, a16);
    lemma_says_grows(l17, a17, p5);
    let p6 = a16 + a17;
    lemma_says_end2(l16, a16, a17);
    assert(audit_text(c, wait) == l18);
    assert forall|i: int| 0 <= i < 7 implies says(l18, #[trigger] parts[i]) by {
        assert(parts[0] == p0 && parts[1] == p1 && parts[2] == p2 && parts[3] == p3 && parts[4]
            == p4 && parts[5] == p5 && parts[6] == p6);
    }
}

proof fn lemma_says_grows(text: Seq<char>, more: Seq<char>, part: Seq<char>)
    requires
        says(text, part),
    ensures
        says(text + more, part),
{
    let at = choose|at: int|
        0 <= at && at + part.len() <= text.len() && #[trigger] text.subrange(at, at + part.len())
            == part;
    assert((text + more).subrange(at, at + part.len()) =~= text.subrange(at, at + part.len()));
}

proof fn lemma_says_end2(text: Seq<char>, a: Seq<char>, b: Seq<char>)
    ensures
        says(text + a + b, a + b),
{
    assert(text + a + b =~= text + (a + b) + Seq::<char>::empty());
    lemma_says(text + a + b, text, a + b, Seq::empty());
}

proof fn lemma_says_end3(text: Seq<char>, a: Seq<char>, b: Seq<char>, c: Seq<char>)
    ensures
        says(text + a + b + c, a + b + c),
{
    assert(text + a + b + c =~= text + (a + b + c) + Seq::<char>::empty());
    lemma_says(text + a + b + c, text, a + b + c, Seq::empty());
}

proof fn lemma_says_end5(
    text: Seq<char>,
    a: Seq<char>,
    b: Seq<char>,
    c: Seq<char>,
    d: Seq<char>,
    e: Seq<char>,
)
    ensures
        says(text + a + b + c + d + e, a + b + c + d + e),
{
    assert(text + a + b + c + d + e =~= text + (a + b + c + d + e) + Seq::<char>::empty());
    lemma_says(text + a + b + c + d + e, text, a + b + c + d + e, Seq::empty());
}

} // verus!
