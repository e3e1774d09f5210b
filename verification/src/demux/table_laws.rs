//! What the sample tables of a track mean.
//!
//! The laws speak of the bytes of the tables and of the rows of the track,
//! and follow the wording of ISO/IEC 14496-12. Where a table lists runs, the
//! laws take the numbers at which the runs start as an argument.

use vstd::prelude::*;

use crate::bytes::{be_u32_at, lemma_be_u32_within};
use crate::demux::moov::{ByteRange, ChunkOffsets, SampleTableLocs};
use crate::demux::sample_table::{
    assembled, chunk_rows, chunk_samples, co64_rule, cts_column, ctts_rule, entries,
    expanded_runs, full_box_table, rows_of_chunks, run_total, run_values, samples_per_chunk,
    size_sum, source_chunk_offsets, source_sizes, source_table, stco_rule, stsc_entry_fault,
    stsc_fault, stsc_rule, stss_rule, stsz_sizes, stts_rule, sync_column, tables, walked,
    Columns, EntryRule, RawSampleEntry, TablesModel,
};
use crate::error::PackagerError;

verus! {

/// Whether `starts` are the numbers at which runs of the given lengths start,
/// one after the other from 0 on, followed by the number past the last run.
pub open spec fn run_starts(starts: Seq<int>, lengths: Seq<u32>) -> bool {
    &&& starts.len() == lengths.len() + 1
    &&& starts[0] == 0
    &&& forall|r: int| 0 <= r < lengths.len() ==> #[trigger] starts[r + 1] == starts[r] + lengths[r]
}

/// The lengths of runs.
pub open spec fn lengths_of<T>(runs: Seq<(u32, T)>) -> Seq<u32> {
    runs.map_values(|run: (u32, T)| run.0)
}

/// Starts of runs do not descend.
proof fn lemma_starts_ascend(starts: Seq<int>, lengths: Seq<u32>, a: int, b: int)
    requires
        run_starts(starts, lengths),
        0 <= a <= b < starts.len(),
    ensures
        0 <= starts[a] <= starts[b],
    decreases b,
{
    if a < b {
        lemma_starts_ascend(starts, lengths, a, b - 1);
        assert(starts[(b - 1) + 1] == starts[b - 1] + lengths[b - 1]);
    } else if a > 0 {
        lemma_starts_ascend(starts, lengths, a - 1, b - 1);
        assert(starts[(b - 1) + 1] == starts[b - 1] + lengths[b - 1]);
    }
}

proof fn lemma_run_values<T>(runs: Seq<(u32, T)>, starts: Seq<int>)
    requires
        run_starts(starts, lengths_of(runs)),
    ensures
        run_total(runs) == starts.last(),
        run_values(runs).len() == starts.last(),
        forall|r: int, i: int|
            #![trigger starts[r], run_values(runs)[i]]
            0 <= r < runs.len() && starts[r] <= i < starts[r + 1] ==> run_values(runs)[i]
                == runs[r].1,
    decreases runs.len(),
{
    let lengths = lengths_of(runs);
    if runs.len() > 0 {
        let n = runs.len() as int;
        let before = runs.drop_last();
        let starts_before = starts.drop_last();
        assert(lengths_of(before) =~= lengths.drop_last());
        assert forall|r: int| 0 <= r < before.len() implies #[trigger] starts_before[r + 1]
            == starts_before[r] + lengths_of(before)[r] by {
            assert(starts[r + 1] == starts[r] + lengths[r]);
        }
        lemma_run_values(before, starts_before);
        assert(starts[(n - 1) + 1] == starts[n - 1] + lengths[n - 1]);
        assert forall|r: int, i: int|
            #![trigger starts[r], run_values(runs)[i]]
            0 <= r < runs.len() && starts[r] <= i < starts[r + 1] implies run_values(runs)[i]
            == runs[r].1 by {
            lemma_starts_ascend(starts, lengths, 0, r);
            if r < n - 1 {
                lemma_starts_ascend(starts, lengths, r + 1, n - 1);
                assert(starts_before[r] == starts[r]);
                assert(run_values(runs)[i] == run_values(before)[i]);
            }
        }
    }
}

/// Runs are expanded in order: sample `i` gets the value of the run in which
/// it falls, counting from the first run. They must cover all `n` samples and
/// no more.
pub proof fn law_runs_are_expanded_in_order<T>(
    runs: Seq<(u32, T)>,
    starts: Seq<int>,
    n: nat,
    exceed: &'static str,
    disagree: &'static str,
)
    requires
        run_starts(starts, lengths_of(runs)),
    ensures
        match expanded_runs(runs, n, exceed, disagree) {
            Ok(values) => {
                &&& starts.last() == n
                &&& values.len() == n
                &&& forall|r: int, i: int|
                    #![trigger starts[r], values[i]]
                    0 <= r < runs.len() && starts[r] <= i < starts[r + 1] ==> values[i]
                        == runs[r].1
            },
            Err(PackagerError::SampleTableInconsistent(reason)) => {
                ||| starts.last() > n && reason == exceed
                ||| starts.last() < n && reason == disagree
            },
            Err(_) => false,
        },
{
    lemma_run_values(runs, starts);
}

/// Whether entry `r` of a sample-to-chunk table speaks of chunk `chunk`,
/// counted from 0. Entries count chunks from 1, and each one holds up to the
/// next.
pub open spec fn speaks_of(stsc: Seq<(u32, u32, u32)>, r: int, chunk: int) -> bool {
    &&& 0 <= r < stsc.len()
    &&& stsc[r].0 <= chunk + 1
    &&& r + 1 < stsc.len() ==> chunk + 1 < stsc[r + 1].0
}

/// Whether a sample-to-chunk table speaks of each of the chunks: it starts
/// with the first one, ascends, and names none that is not there.
pub open spec fn covers_chunks(stsc: Seq<(u32, u32, u32)>, chunk_count: nat) -> bool {
    if stsc.len() == 0 {
        chunk_count == 0
    } else {
        &&& stsc[0].0 == 1
        &&& forall|i: int| 0 < i < stsc.len() ==> stsc[i - 1].0 < (#[trigger] stsc[i]).0
        &&& forall|i: int| 0 <= i < stsc.len() ==> (#[trigger] stsc[i]).0 <= chunk_count
    }
}

proof fn lemma_chunk_samples(stsc: Seq<(u32, u32, u32)>, r: int, chunk: int)
    requires
        speaks_of(stsc, r, chunk),
        forall|i: int| 0 < i < stsc.len() ==> stsc[i - 1].0 < (#[trigger] stsc[i]).0,
    ensures
        chunk_samples(stsc, chunk) == stsc[r].1,
    decreases stsc.len(),
{
    let n = stsc.len() as int;
    if r < n - 1 {
        assert(stsc.last().0 > chunk + 1) by {
            lemma_stsc_ascends(stsc, r + 1, n - 1);
        }
        let before = stsc.drop_last();
        assert forall|i: int| 0 < i < before.len() implies before[i - 1].0 < (
        #[trigger] before[i]).0 by {
            assert(stsc[i - 1].0 < stsc[i].0);
        }
        lemma_chunk_samples(before, r, chunk);
    }
}

proof fn lemma_stsc_ascends(stsc: Seq<(u32, u32, u32)>, a: int, b: int)
    requires
        0 <= a <= b < stsc.len(),
        forall|i: int| 0 < i < stsc.len() ==> stsc[i - 1].0 < (#[trigger] stsc[i]).0,
    ensures
        stsc[a].0 <= stsc[b].0,
    decreases b,
{
    if a < b {
        lemma_stsc_ascends(stsc, a, b - 1);
        assert(stsc[b - 1].0 < stsc[b].0);
    }
}

proof fn lemma_stsc_fault_none(stsc: Seq<(u32, u32, u32)>, chunk_count: nat, n: nat)
    requires
        n <= stsc.len(),
    ensures
        stsc_fault(stsc, chunk_count, n) is None <==> forall|i: int|
            0 <= i < n ==> (#[trigger] stsc_entry_fault(stsc, chunk_count, i)) is None,
        stsc_fault(stsc, chunk_count, n) matches Some(e) ==> e is SampleTableInconsistent,
    decreases n,
{
    if n > 0 {
        lemma_stsc_fault_none(stsc, chunk_count, (n - 1) as nat);
    }
}

/// A chunk holds as many samples as the entry that speaks of it says. A table
/// is accepted exactly where it speaks of all chunks and no others.
pub proof fn law_chunks_hold_what_their_entry_says(
    stsc: Seq<(u32, u32, u32)>,
    chunk_count: nat,
)
    ensures
        match samples_per_chunk(stsc, chunk_count) {
            Ok(counts) => {
                &&& covers_chunks(stsc, chunk_count)
                &&& counts.len() == chunk_count
                &&& forall|r: int, c: int|
                    0 <= c < chunk_count && #[trigger] speaks_of(stsc, r, c) ==> counts[c]
                        == stsc[r].1
            },
            Err(e) => !covers_chunks(stsc, chunk_count) && e is SampleTableInconsistent,
        },
{
    if stsc.len() > 0 && stsc[0].0 == 1 {
        lemma_stsc_fault_none(stsc, chunk_count, stsc.len());
        if covers_chunks(stsc, chunk_count) {
            assert forall|i: int| 0 <= i < stsc.len() implies (#[trigger] stsc_entry_fault(
                stsc,
                chunk_count,
                i,
            )) is None by {
                if i + 1 < stsc.len() {
                    assert(stsc[(i + 1) - 1].0 < stsc[i + 1].0);
                }
            }
        } else if stsc_fault(stsc, chunk_count, stsc.len()) is None {
            assert forall|i: int| 0 < i < stsc.len() implies stsc[i - 1].0 < (
            #[trigger] stsc[i]).0 by {
                assert(stsc_entry_fault(stsc, chunk_count, i - 1) is None);
            }
            assert forall|i: int| 0 <= i < stsc.len() implies (#[trigger] stsc[i]).0
                <= chunk_count by {
                assert(stsc_entry_fault(stsc, chunk_count, i) is None);
            }
        }
        if covers_chunks(stsc, chunk_count) {
            assert forall|r: int, c: int|
                0 <= c < chunk_count && #[trigger] speaks_of(stsc, r, c) implies chunk_samples(
                stsc,
                c,
            ) == stsc[r].1 by {
                lemma_chunk_samples(stsc, r, c);
            }
        }
    }
}

/// Whether `counts` says of each chunk how many samples it holds.
pub open spec fn chunk_counts(
    counts: Seq<u32>,
    stsc: Seq<(u32, u32, u32)>,
    chunk_count: nat,
) -> bool {
    &&& counts.len() == chunk_count
    &&& forall|r: int, c: int|
        0 <= c < chunk_count && #[trigger] speaks_of(stsc, r, c) ==> counts[c] == stsc[r].1
}

/// The entry that speaks of a chunk.
proof fn lemma_some_entry_speaks(stsc: Seq<(u32, u32, u32)>, chunk_count: nat, c: int) -> (r: int)
    requires
        covers_chunks(stsc, chunk_count),
        0 <= c < chunk_count,
    ensures
        speaks_of(stsc, r, c),
{
    lemma_entry_below(stsc, c, stsc.len() - 1)
}

proof fn lemma_entry_below(stsc: Seq<(u32, u32, u32)>, c: int, r: int) -> (found: int)
    requires
        0 <= r < stsc.len(),
        0 <= c,
        stsc[0].0 == 1,
        r + 1 < stsc.len() ==> c + 1 < stsc[r + 1].0,
    ensures
        speaks_of(stsc, found, c),
    decreases r,
{
    if stsc[r].0 <= c + 1 {
        r
    } else {
        lemma_entry_below(stsc, c, r - 1)
    }
}

/// The counts of a table that covers its chunks are the only ones.
proof fn lemma_counts_unique(counts: Seq<u32>, stsc: Seq<(u32, u32, u32)>, chunk_count: nat)
    requires
        covers_chunks(stsc, chunk_count),
        chunk_counts(counts, stsc, chunk_count),
    ensures
        samples_per_chunk(stsc, chunk_count) == Ok::<_, PackagerError>(counts),
{
    law_chunks_hold_what_their_entry_says(stsc, chunk_count);
    let own = samples_per_chunk(stsc, chunk_count)->Ok_0;
    assert forall|c: int| 0 <= c < chunk_count implies own[c] == counts[c] by {
        let r = lemma_some_entry_speaks(stsc, chunk_count, c);
        assert(speaks_of(stsc, r, c));
    }
    assert(own =~= counts);
}

/// Whether `offset` is the offset of sample `k`, the samples of each chunk
/// lying back to back from the offset of the chunk on.
pub open spec fn lies_in_chunk(
    rows: Seq<RawSampleEntry>,
    k: int,
    first: int,
    chunk_offset: u64,
) -> bool {
    rows[k].offset == if k == first {
        chunk_offset as int
    } else {
        rows[k - 1].offset + rows[k - 1].size
    }
}

proof fn lemma_chunk_rows_lie(cols: Columns, first: int, offset: int, count: nat)
    requires
        chunk_rows(cols, first, offset, count) is Ok,
        0 <= offset,
        0 <= first,
    ensures
        ({
            let rows = chunk_rows(cols, first, offset, count)->Ok_0;
            &&& rows.len() == count
            &&& first + count <= cols.sizes.len() || count == 0
            &&& forall|j: int|
                0 <= j < count ==> (#[trigger] rows[j]).offset == offset + size_sum(
                    cols.sizes,
                    first,
                    first + j,
                ) && rows[j].size == cols.sizes[first + j] && rows[j].dts_delta
                    == cols.dts_deltas[first + j] && rows[j].cts_offset == cols.cts_offsets[first
                    + j] && rows[j].is_sync == cols.sync[first + j]
        }),
    decreases count,
{
    if count > 0 {
        lemma_chunk_rows_lie(cols, first, offset, (count - 1) as nat);
        let before = chunk_rows(cols, first, offset, (count - 1) as nat)->Ok_0;
        let rows = chunk_rows(cols, first, offset, count)->Ok_0;
        assert forall|j: int| 0 <= j < count implies (#[trigger] rows[j]).offset == offset
            + size_sum(cols.sizes, first, first + j) && rows[j].size == cols.sizes[first + j]
            && rows[j].dts_delta == cols.dts_deltas[first + j] && rows[j].cts_offset
            == cols.cts_offsets[first + j] && rows[j].is_sync == cols.sync[first + j] by {
            if j < count - 1 {
                assert(rows[j] == before[j]);
            }
        }
    }
}

/// Whether row `k` takes its columns from where sample `k` has them.
spec fn takes_columns(row: RawSampleEntry, cols: Columns, k: int) -> bool {
    &&& row.size == cols.sizes[k]
    &&& row.dts_delta == cols.dts_deltas[k]
    &&& row.cts_offset == cols.cts_offsets[k]
    &&& row.is_sync == cols.sync[k]
}

proof fn lemma_rows_lie(
    cols: Columns,
    counts: Seq<u32>,
    chunk_offsets: Seq<u64>,
    starts: Seq<int>,
    n: nat,
)
    requires
        counts.len() == chunk_offsets.len(),
        run_starts(starts, counts),
        n <= counts.len(),
        rows_of_chunks(cols, counts, chunk_offsets, n) is Ok,
    ensures
        ({
            let rows = rows_of_chunks(cols, counts, chunk_offsets, n)->Ok_0;
            &&& rows.len() == starts[n as int]
            &&& forall|k: int| 0 <= k < rows.len() ==> takes_columns(#[trigger] rows[k], cols, k)
            &&& forall|c: int, k: int|
                #![trigger starts[c], rows[k]]
                0 <= c < n && starts[c] <= k < starts[c + 1] ==> lies_in_chunk(
                    rows,
                    k,
                    starts[c],
                    chunk_offsets[c],
                )
        }),
    decreases n,
{
    if n > 0 {
        lemma_rows_lie(cols, counts, chunk_offsets, starts, (n - 1) as nat);
        let before = rows_of_chunks(cols, counts, chunk_offsets, (n - 1) as nat)->Ok_0;
        let first = before.len() as int;
        let offset = chunk_offsets[n - 1] as int;
        let count = counts[n - 1] as nat;
        lemma_chunk_rows_lie(cols, first, offset, count);
        let more = chunk_rows(cols, first, offset, count)->Ok_0;
        let rows = rows_of_chunks(cols, counts, chunk_offsets, n)->Ok_0;
        assert(starts[(n - 1) + 1] == starts[n - 1] + counts[n - 1]);
        assert(rows == before + more);
        assert forall|k: int| 0 <= k < rows.len() implies takes_columns(
            #[trigger] rows[k],
            cols,
            k,
        ) by {
            if k < first {
                assert(rows[k] == before[k]);
            } else {
                assert(rows[k] == more[k - first]);
            }
        }
        assert forall|c: int, k: int|
            #![trigger starts[c], rows[k]]
            0 <= c < n && starts[c] <= k < starts[c + 1] implies lies_in_chunk(
            rows,
            k,
            starts[c],
            chunk_offsets[c],
        ) by {
            lemma_starts_ascend(starts, counts, 0, c);
            if c < n - 1 {
                lemma_starts_ascend(starts, counts, c + 1, n - 1);
                assert(rows[k] == before[k]);
                assert(lies_in_chunk(before, k, starts[c], chunk_offsets[c]));
                if k != starts[c] {
                    assert(rows[k - 1] == before[k - 1]);
                }
            } else {
                assert(rows[k] == more[k - first]);
                if k > first {
                    assert(rows[k - 1] == more[k - 1 - first]);
                    assert(size_sum(cols.sizes, first, k) == size_sum(cols.sizes, first, k - 1)
                        + cols.sizes[k - 1]);
                }
            }
        }
    }
}

/// Each sample of a track gets one row, and the row says what the tables say
/// of that sample: its size is the one that `stsz` gives it, its duration is
/// that of the `stts` run in which it falls, its composition offset that of
/// its `ctts` run (0 without `ctts`), it is a sync sample if `stss` lists its
/// number counted from 1 (or there is no `stss`), and it lies in its chunk
/// right behind the sample before it, the first one at the chunk's offset.
#[verifier::rlimit(40)]
pub proof fn law_rows_say_what_the_tables_say(
    t: TablesModel,
    stts_starts: Seq<int>,
    ctts_starts: Seq<int>,
    counts: Seq<u32>,
    chunk_starts: Seq<int>,
)
    requires
        assembled(t) is Ok,
        run_starts(stts_starts, lengths_of(t.stts)),
        t.ctts matches Some(ctts) ==> run_starts(ctts_starts, lengths_of(ctts)),
        chunk_counts(counts, t.stsc, t.chunk_offsets.len()),
        run_starts(chunk_starts, counts),
    ensures
        ({
            let rows = assembled(t)->Ok_0;
            let n = t.sizes.len();
            &&& rows.len() == n
            &&& stts_starts.last() == n
            &&& covers_chunks(t.stsc, t.chunk_offsets.len())
            &&& chunk_starts.last() == n
            &&& t.stss matches Some(stss) ==> forall|j: int|
                0 <= j < stss.len() ==> 1 <= #[trigger] stss[j] <= n
            &&& forall|k: int| 0 <= k < n ==> (#[trigger] rows[k]).size == t.sizes[k]
            &&& forall|r: int, k: int|
                #![trigger stts_starts[r], rows[k]]
                0 <= r < t.stts.len() && stts_starts[r] <= k < stts_starts[r + 1]
                    ==> rows[k].dts_delta == t.stts[r].1
            &&& match t.ctts {
                None => forall|k: int| 0 <= k < n ==> (#[trigger] rows[k]).cts_offset == 0,
                Some(ctts) => {
                    &&& ctts_starts.last() == n
                    &&& forall|r: int, k: int|
                        #![trigger ctts_starts[r], rows[k]]
                        0 <= r < ctts.len() && ctts_starts[r] <= k < ctts_starts[r + 1]
                            ==> rows[k].cts_offset == ctts[r].1
                },
            }
            &&& match t.stss {
                None => forall|k: int| 0 <= k < n ==> (#[trigger] rows[k]).is_sync,
                Some(stss) => forall|k: int|
                    0 <= k < n ==> ((#[trigger] rows[k]).is_sync <==> exists|j: int|
                        0 <= j < stss.len() && #[trigger] stss[j] == k + 1),
            }
            &&& forall|c: int, k: int|
                #![trigger chunk_starts[c], rows[k]]
                0 <= c < t.chunk_offsets.len() && chunk_starts[c] <= k < chunk_starts[c + 1]
                    ==> rows[k].offset == if k == chunk_starts[c] {
                    t.chunk_offsets[c] as int
                } else {
                    rows[k - 1].offset + rows[k - 1].size
                }
        }),
{
    let rows = assembled(t)->Ok_0;
    let n = t.sizes.len();
    let chunk_count = t.chunk_offsets.len();
    law_chunks_hold_what_their_entry_says(t.stsc, chunk_count);
    lemma_counts_unique(counts, t.stsc, chunk_count);
    lemma_run_values(t.stts, stts_starts);
    if let Some(ctts) = t.ctts {
        lemma_run_values(ctts, ctts_starts);
    }
    let cols = Columns {
        sizes: t.sizes,
        dts_deltas: run_values(t.stts),
        cts_offsets: cts_column(t.ctts, n)->Ok_0,
        sync: sync_column(t.stss, n)->Ok_0,
    };
    lemma_rows_lie(cols, counts, t.chunk_offsets, chunk_starts, chunk_count);
    assert forall|k: int| 0 <= k < n implies (#[trigger] rows[k]).size == t.sizes[k] by {
        assert(takes_columns(rows[k], cols, k));
    }
    assert forall|r: int, k: int|
        #![trigger stts_starts[r], rows[k]]
        0 <= r < t.stts.len() && stts_starts[r] <= k < stts_starts[r + 1] implies rows[k].dts_delta
        == t.stts[r].1 by {
        lemma_starts_ascend(stts_starts, lengths_of(t.stts), 0, r);
        lemma_starts_ascend(stts_starts, lengths_of(t.stts), r + 1, t.stts.len() as int);
        assert(takes_columns(rows[k], cols, k));
        assert(run_values(t.stts)[k] == t.stts[r].1);
    }
    match t.ctts {
        None => {
            assert forall|k: int| 0 <= k < n implies (#[trigger] rows[k]).cts_offset == 0 by {
                assert(takes_columns(rows[k], cols, k));
            }
        },
        Some(ctts) => {
            assert forall|r: int, k: int|
                #![trigger ctts_starts[r], rows[k]]
                0 <= r < ctts.len() && ctts_starts[r] <= k < ctts_starts[r + 1] implies rows[k].cts_offset
                == ctts[r].1 by {
                lemma_starts_ascend(ctts_starts, lengths_of(ctts), 0, r);
                lemma_starts_ascend(ctts_starts, lengths_of(ctts), r + 1, ctts.len() as int);
                assert(takes_columns(rows[k], cols, k));
                assert(run_values(ctts)[k] == ctts[r].1);
            }
        },
    }
    match t.stss {
        None => {
            assert forall|k: int| 0 <= k < n implies (#[trigger] rows[k]).is_sync by {
                assert(takes_columns(rows[k], cols, k));
            }
        },
        Some(stss) => {
            assert forall|k: int| 0 <= k < n implies ((#[trigger] rows[k]).is_sync <==> exists|
                j: int,
            | 0 <= j < stss.len() && #[trigger] stss[j] == k + 1) by {
                assert(takes_columns(rows[k], cols, k));
            }
        },
    }
    assert forall|c: int, k: int|
        #![trigger chunk_starts[c], rows[k]]
        0 <= c < chunk_count && chunk_starts[c] <= k < chunk_starts[c + 1] implies rows[k].offset
        == if k == chunk_starts[c] {
        t.chunk_offsets[c] as int
    } else {
        rows[k - 1].offset + rows[k - 1].size
    } by {
        assert(lies_in_chunk(rows, k, chunk_starts[c], t.chunk_offsets[c]));
    }
}

proof fn lemma_chunk_rows_fit(
    cols: Columns,
    first: int,
    offset: int,
    count: nat,
    offsets: Seq<int>,
)
    requires
        0 <= first,
        first + count <= cols.sizes.len(),
        offsets.len() == cols.sizes.len(),
        count > 0 ==> offsets[first] == offset,
        forall|k: int|
            first < k < first + count ==> #[trigger] offsets[k] == offsets[k - 1] + cols.sizes[k - 1],
        forall|k: int|
            0 <= k < offsets.len() ==> #[trigger] offsets[k] + cols.sizes[k] <= u64::MAX,
    ensures
        chunk_rows(cols, first, offset, count) is Ok,
        chunk_rows(cols, first, offset, count)->Ok_0.len() == count,
        count > 0 ==> offset + size_sum(cols.sizes, first, first + count - 1) == offsets[first
            + count - 1],
    decreases count,
{
    if count > 0 {
        lemma_chunk_rows_fit(cols, first, offset, (count - 1) as nat, offsets);
        let k = first + count - 1;
        if count > 1 {
            assert(offsets[k] == offsets[k - 1] + cols.sizes[k - 1]);
            assert(size_sum(cols.sizes, first, k) == size_sum(cols.sizes, first, k - 1)
                + cols.sizes[k - 1]);
        }
        assert(offsets[k] + cols.sizes[k] <= u64::MAX);
    }
}

/// Whether `offsets` are the offsets of samples of the given sizes, each
/// chunk's samples lying back to back from the offset of the chunk on.
pub open spec fn chunk_layout(
    offsets: Seq<int>,
    sizes: Seq<u32>,
    chunk_starts: Seq<int>,
    chunk_offsets: Seq<u64>,
) -> bool {
    &&& offsets.len() == sizes.len()
    &&& forall|c: int, k: int|
        #![trigger chunk_starts[c], offsets[k]]
        0 <= c < chunk_offsets.len() && chunk_starts[c] <= k < chunk_starts[c + 1] ==> offsets[k]
            == if k == chunk_starts[c] {
            chunk_offsets[c] as int
        } else {
            offsets[k - 1] + sizes[k - 1]
        }
}

proof fn lemma_rows_fit(
    cols: Columns,
    counts: Seq<u32>,
    chunk_offsets: Seq<u64>,
    starts: Seq<int>,
    offsets: Seq<int>,
    n: nat,
)
    requires
        counts.len() == chunk_offsets.len(),
        run_starts(starts, counts),
        starts.last() == cols.sizes.len(),
        chunk_layout(offsets, cols.sizes, starts, chunk_offsets),
        forall|k: int|
            0 <= k < offsets.len() ==> #[trigger] offsets[k] + cols.sizes[k] <= u64::MAX,
        n <= counts.len(),
    ensures
        rows_of_chunks(cols, counts, chunk_offsets, n) is Ok,
        rows_of_chunks(cols, counts, chunk_offsets, n)->Ok_0.len() == starts[n as int],
    decreases n,
{
    if n > 0 {
        lemma_rows_fit(cols, counts, chunk_offsets, starts, offsets, (n - 1) as nat);
        assert(starts[(n - 1) + 1] == starts[n - 1] + counts[n - 1]);
        lemma_starts_ascend(starts, counts, 0, n - 1);
        lemma_starts_ascend(starts, counts, n as int, counts.len() as int);
        let first = starts[n - 1];
        lemma_chunk_rows_fit(
            cols,
            first,
            chunk_offsets[n - 1] as int,
            counts[n - 1] as nat,
            offsets,
        );
    }
}

/// Tables that fit together are walked: runs that cover every sample once,
/// sync samples that exist, chunks that hold every sample once, and offsets
/// within 64 bits are all it takes.
pub proof fn law_consistent_tables_are_walked(
    t: TablesModel,
    stts_starts: Seq<int>,
    ctts_starts: Seq<int>,
    counts: Seq<u32>,
    chunk_starts: Seq<int>,
    offsets: Seq<int>,
)
    requires
        run_starts(stts_starts, lengths_of(t.stts)),
        stts_starts.last() == t.sizes.len(),
        t.ctts matches Some(ctts) ==> run_starts(ctts_starts, lengths_of(ctts))
            && ctts_starts.last() == t.sizes.len(),
        t.stss matches Some(stss) ==> forall|j: int|
            0 <= j < stss.len() ==> 1 <= #[trigger] stss[j] <= t.sizes.len(),
        covers_chunks(t.stsc, t.chunk_offsets.len()),
        chunk_counts(counts, t.stsc, t.chunk_offsets.len()),
        run_starts(chunk_starts, counts),
        chunk_starts.last() == t.sizes.len(),
        chunk_layout(offsets, t.sizes, chunk_starts, t.chunk_offsets),
        forall|k: int| 0 <= k < offsets.len() ==> #[trigger] offsets[k] + t.sizes[k] <= u64::MAX,
    ensures
        assembled(t) is Ok,
{
    let n = t.sizes.len();
    lemma_run_values(t.stts, stts_starts);
    if let Some(ctts) = t.ctts {
        lemma_run_values(ctts, ctts_starts);
    }
    lemma_counts_unique(counts, t.stsc, t.chunk_offsets.len());
    let cols = Columns {
        sizes: t.sizes,
        dts_deltas: run_values(t.stts),
        cts_offsets: cts_column(t.ctts, n)->Ok_0,
        sync: sync_column(t.stss, n)->Ok_0,
    };
    lemma_rows_fit(
        cols,
        counts,
        t.chunk_offsets,
        chunk_starts,
        offsets,
        t.chunk_offsets.len(),
    );
}

proof fn lemma_entries<T>(payload: Seq<u8>, width: int, rule: EntryRule<T>, n: nat)
    ensures
        match entries(payload, width, rule, n) {
            Ok(v) => {
                &&& v.len() == n
                &&& forall|k: int|
                    #![trigger v[k]]
                    0 <= k < n ==> rule(
                        payload[0],
                        payload.subrange(8 + k * width, 8 + k * width + width),
                    ) == Ok::<_, PackagerError>(v[k])
            },
            Err(e) => exists|k: int|
                0 <= k < n && #[trigger] rule(
                    payload[0],
                    payload.subrange(8 + k * width, 8 + k * width + width),
                ) is Err,
        },
    decreases n,
{
    if n > 0 {
        lemma_entries(payload, width, rule, (n - 1) as nat);
        let last = rule(
            payload[0],
            payload.subrange(8 + (n - 1) * width, 8 + (n - 1) * width + width),
        );
        match entries(payload, width, rule, n) {
            Ok(v) => {
                let before = entries(payload, width, rule, (n - 1) as nat)->Ok_0;
                assert forall|k: int|
                    #![trigger v[k]]
                    0 <= k < n implies rule(
                    payload[0],
                    payload.subrange(8 + k * width, 8 + k * width + width),
                ) == Ok::<_, PackagerError>(v[k]) by {
                    if k < n - 1 {
                        assert(v[k] == before[k]);
                    }
                }
            },
            Err(_) => {},
        }
    }
}

/// A word of an entry is a word of the table.
proof fn lemma_entry_word(payload: Seq<u8>, from: int, width: int, at: int)
    requires
        0 <= from,
        from + width <= payload.len(),
        0 <= at,
        at + 4 <= width,
    ensures
        be_u32_at(payload.subrange(from, from + width), at) == be_u32_at(payload, from + at),
{
    lemma_be_u32_within(payload.subrange(from, from + width), at, payload, from + at);
}

/// Whether the payload of a table has the given length of entries behind its
/// version, flags and entry count, and states their number.
pub open spec fn has_entries(payload: Seq<u8>, width: int) -> bool {
    payload.len() == 8 + be_u32_at(payload, 4) * width
}

/// A `stts` table gives, for each run, the number of samples and then their
/// duration.
pub proof fn law_stts_bytes(payload: Seq<u8>)
    requires
        8 <= payload.len() <= usize::MAX,
    ensures
        match full_box_table(payload, "stts", 0, 8, stts_rule()) {
            Ok(v) => {
                &&& payload[0] == 0 && has_entries(payload, 8)
                &&& v.len() == be_u32_at(payload, 4)
                &&& forall|k: int|
                    0 <= k < v.len() ==> #[trigger] v[k] == (
                        be_u32_at(payload, 8 + 8 * k),
                        be_u32_at(payload, 12 + 8 * k),
                    )
            },
            Err(_) => payload[0] != 0 || !has_entries(payload, 8),
        },
{
    let n = be_u32_at(payload, 4) as nat;
    lemma_entries(payload, 8, stts_rule(), n);
    if payload[0] == 0 && has_entries(payload, 8) {
        if let Ok(v) = full_box_table(payload, "stts", 0, 8, stts_rule()) {
            assert forall|k: int| 0 <= k < v.len() implies #[trigger] v[k] == (
                be_u32_at(payload, 8 + 8 * k),
                be_u32_at(payload, 12 + 8 * k),
            ) by {
                lemma_entry_word(payload, 8 + k * 8, 8, 0);
                lemma_entry_word(payload, 8 + k * 8, 8, 4);
            }
        }
    }
}

/// A `ctts` table gives, for each run, the number of samples and then their
/// composition offset: unsigned in version 0, where it must fit 31 bits, and
/// in two's complement in version 1.
pub proof fn law_ctts_bytes(payload: Seq<u8>)
    requires
        8 <= payload.len() <= usize::MAX,
    ensures
        match full_box_table(payload, "ctts", 1, 8, ctts_rule()) {
            Ok(v) => {
                &&& payload[0] <= 1 && has_entries(payload, 8)
                &&& v.len() == be_u32_at(payload, 4)
                &&& forall|k: int|
                    0 <= k < v.len() ==> {
                        let word = be_u32_at(payload, 12 + 8 * k);
                        &&& (#[trigger] v[k]).0 == be_u32_at(payload, 8 + 8 * k)
                        &&& v[k].1 == if word < 0x8000_0000 {
                            word as int
                        } else {
                            word - 0x1_0000_0000
                        }
                        &&& payload[0] == 0 ==> v[k].1 >= 0
                    }
            },
            Err(_) => {
                ||| payload[0] > 1
                ||| !has_entries(payload, 8)
                ||| payload[0] == 0 && exists|k: int|
                    0 <= k < be_u32_at(payload, 4) && #[trigger] be_u32_at(payload, 12 + 8 * k)
                        >= 0x8000_0000
            },
        },
{
    let n = be_u32_at(payload, 4) as nat;
    lemma_entries(payload, 8, ctts_rule(), n);
    if payload[0] <= 1 && has_entries(payload, 8) {
        assert forall|k: int| 0 <= k < n implies be_u32_at(
            #[trigger] payload.subrange(8 + k * 8, 8 + k * 8 + 8),
            0,
        ) == be_u32_at(payload, 8 + 8 * k) && be_u32_at(
            payload.subrange(8 + k * 8, 8 + k * 8 + 8),
            4,
        ) == be_u32_at(payload, 12 + 8 * k) by {
            lemma_entry_word(payload, 8 + k * 8, 8, 0);
            lemma_entry_word(payload, 8 + k * 8, 8, 4);
        }
        match full_box_table(payload, "ctts", 1, 8, ctts_rule()) {
            Ok(v) => {
                assert forall|k: int| 0 <= k < v.len() implies {
                    let word = be_u32_at(payload, 12 + 8 * k);
                    &&& (#[trigger] v[k]).0 == be_u32_at(payload, 8 + 8 * k)
                    &&& v[k].1 == if word < 0x8000_0000 {
                        word as int
                    } else {
                        word - 0x1_0000_0000
                    }
                    &&& payload[0] == 0 ==> v[k].1 >= 0
                } by {
                    let c = payload.subrange(8 + k * 8, 8 + k * 8 + 8);
                    assert(be_u32_at(c, 0) == be_u32_at(payload, 8 + 8 * k));
                }
            },
            Err(_) => {
                let k = choose|k: int|
                    0 <= k < n && #[trigger] ctts_rule()(
                        payload[0],
                        payload.subrange(8 + k * 8, 8 + k * 8 + 8),
                    ) is Err;
                let c = payload.subrange(8 + k * 8, 8 + k * 8 + 8);
                assert(be_u32_at(c, 4) == be_u32_at(payload, 12 + 8 * k));
            },
        }
    }
}

/// A `stss` table lists the numbers of the sync samples.
pub proof fn law_stss_bytes(payload: Seq<u8>)
    requires
        8 <= payload.len() <= usize::MAX,
    ensures
        match full_box_table(payload, "stss", 0, 4, stss_rule()) {
            Ok(v) => {
                &&& payload[0] == 0 && has_entries(payload, 4)
                &&& v.len() == be_u32_at(payload, 4)
                &&& forall|k: int|
                    0 <= k < v.len() ==> #[trigger] v[k] == be_u32_at(payload, 8 + 4 * k)
            },
            Err(_) => payload[0] != 0 || !has_entries(payload, 4),
        },
{
    lemma_entries(payload, 4, stss_rule(), be_u32_at(payload, 4) as nat);
    if payload[0] == 0 && has_entries(payload, 4) {
        if let Ok(v) = full_box_table(payload, "stss", 0, 4, stss_rule()) {
            assert forall|k: int| 0 <= k < v.len() implies #[trigger] v[k] == be_u32_at(
                payload,
                8 + 4 * k,
            ) by {
                lemma_entry_word(payload, 8 + k * 4, 4, 0);
            }
        }
    }
}

/// A `stco` table lists the offsets of the chunks in 32 bits.
pub proof fn law_stco_bytes(payload: Seq<u8>)
    requires
        8 <= payload.len() <= usize::MAX,
    ensures
        match full_box_table(payload, "stco", 0, 4, stco_rule()) {
            Ok(v) => {
                &&& payload[0] == 0 && has_entries(payload, 4)
                &&& v.len() == be_u32_at(payload, 4)
                &&& forall|k: int|
                    0 <= k < v.len() ==> #[trigger] v[k] == be_u32_at(payload, 8 + 4 * k)
            },
            Err(_) => payload[0] != 0 || !has_entries(payload, 4),
        },
{
    lemma_entries(payload, 4, stco_rule(), be_u32_at(payload, 4) as nat);
    if payload[0] == 0 && has_entries(payload, 4) {
        if let Ok(v) = full_box_table(payload, "stco", 0, 4, stco_rule()) {
            assert forall|k: int| 0 <= k < v.len() implies #[trigger] v[k] == be_u32_at(
                payload,
                8 + 4 * k,
            ) by {
                lemma_entry_word(payload, 8 + k * 4, 4, 0);
            }
        }
    }
}

/// A `co64` table lists the offsets of the chunks in 64 bits, the high half
/// first.
pub proof fn law_co64_bytes(payload: Seq<u8>)
    requires
        8 <= payload.len() <= usize::MAX,
    ensures
        match full_box_table(payload, "co64", 0, 8, co64_rule()) {
            Ok(v) => {
                &&& payload[0] == 0 && has_entries(payload, 8)
                &&& v.len() == be_u32_at(payload, 4)
                &&& forall|k: int|
                    0 <= k < v.len() ==> #[trigger] v[k] == be_u32_at(payload, 8 + 8 * k)
                        * 0x1_0000_0000 + be_u32_at(payload, 12 + 8 * k)
            },
            Err(_) => payload[0] != 0 || !has_entries(payload, 8),
        },
{
    lemma_entries(payload, 8, co64_rule(), be_u32_at(payload, 4) as nat);
    if payload[0] == 0 && has_entries(payload, 8) {
        if let Ok(v) = full_box_table(payload, "co64", 0, 8, co64_rule()) {
            assert forall|k: int| 0 <= k < v.len() implies #[trigger] v[k] == be_u32_at(
                payload,
                8 + 8 * k,
            ) * 0x1_0000_0000 + be_u32_at(payload, 12 + 8 * k) by {
                lemma_entry_word(payload, 8 + k * 8, 8, 0);
                lemma_entry_word(payload, 8 + k * 8, 8, 4);
            }
        }
    }
}

/// A `stsc` table gives, for each entry, the first chunk, the samples per
/// chunk and the sample description, which must be the first.
pub proof fn law_stsc_bytes(payload: Seq<u8>)
    requires
        8 <= payload.len() <= usize::MAX,
    ensures
        match full_box_table(payload, "stsc", 0, 12, stsc_rule()) {
            Ok(v) => {
                &&& payload[0] == 0 && has_entries(payload, 12)
                &&& v.len() == be_u32_at(payload, 4)
                &&& forall|k: int|
                    0 <= k < v.len() ==> #[trigger] v[k] == (
                        be_u32_at(payload, 8 + 12 * k),
                        be_u32_at(payload, 12 + 12 * k),
                        1u32,
                    ) && be_u32_at(payload, 16 + 12 * k) == 1
            },
            Err(_) => {
                ||| payload[0] != 0
                ||| !has_entries(payload, 12)
                ||| exists|k: int|
                    0 <= k < be_u32_at(payload, 4) && #[trigger] be_u32_at(payload, 16 + 12 * k)
                        != 1
            },
        },
{
    let n = be_u32_at(payload, 4) as nat;
    lemma_entries(payload, 12, stsc_rule(), n);
    if payload[0] == 0 && has_entries(payload, 12) {
        match full_box_table(payload, "stsc", 0, 12, stsc_rule()) {
            Ok(v) => {
                assert forall|k: int| 0 <= k < v.len() implies #[trigger] v[k] == (
                    be_u32_at(payload, 8 + 12 * k),
                    be_u32_at(payload, 12 + 12 * k),
                    1u32,
                ) && be_u32_at(payload, 16 + 12 * k) == 1 by {
                    let c = payload.subrange(8 + k * 12, 8 + k * 12 + 12);
                    assert(stsc_rule()(payload[0], c) == Ok::<_, PackagerError>(v[k]));
                    lemma_entry_word(payload, 8 + k * 12, 12, 0);
                    lemma_entry_word(payload, 8 + k * 12, 12, 4);
                    lemma_entry_word(payload, 8 + k * 12, 12, 8);
                    assert(be_u32_at(c, 8) == 1);
                    assert(v[k] == (be_u32_at(c, 0), be_u32_at(c, 4), be_u32_at(c, 8)));
                }
            },
            Err(_) => {
                let k = choose|k: int|
                    0 <= k < n && #[trigger] stsc_rule()(
                        payload[0],
                        payload.subrange(8 + k * 12, 8 + k * 12 + 12),
                    ) is Err;
                lemma_entry_word(payload, 8 + k * 12, 12, 8);
                assert(be_u32_at(payload, 16 + 12 * k) != 1);
            },
        }
    }
}

/// A `stsz` table gives one size for all samples, or 0 and then one size for
/// each.
pub proof fn law_stsz_bytes(payload: Seq<u8>)
    requires
        12 <= payload.len() <= usize::MAX,
    ensures
        ({
            let common = be_u32_at(payload, 4);
            let count = be_u32_at(payload, 8);
            match stsz_sizes(payload) {
                Ok(v) => {
                    &&& payload[0] == 0
                    &&& v.len() == count
                    &&& payload.len() == if common != 0 { 12 } else { 12 + 4 * count }
                    &&& forall|k: int|
                        0 <= k < v.len() ==> #[trigger] v[k] == if common != 0 {
                            common
                        } else {
                            be_u32_at(payload, 12 + 4 * k)
                        }
                },
                Err(_) => payload[0] != 0 || payload.len() != if common != 0 {
                    12
                } else {
                    12 + 4 * count
                },
            }
        }),
{
}

/// The bytes of a range.
pub open spec fn range_bytes(src: Seq<u8>, range: ByteRange) -> Seq<u8> {
    src.subrange(range.offset as int, range.offset + range.len)
}

/// Whether a range lies in the source and holds at least `least` bytes, and
/// fits in memory.
pub open spec fn readable(src: Seq<u8>, range: ByteRange, least: int) -> bool {
    least <= range.len <= usize::MAX && range.offset + range.len <= src.len()
}

/// Each table is read from its own range of the source.
pub proof fn law_tables_are_read_from_their_ranges(src: Seq<u8>, locs: SampleTableLocs)
    ensures
        tables(src, locs) matches Ok(t) ==> {
            &&& readable(src, locs.stsz, 12)
            &&& readable(src, locs.stts, 8)
            &&& readable(src, locs.stsc, 8)
            &&& stsz_sizes(range_bytes(src, locs.stsz)) == Ok::<_, PackagerError>(t.sizes)
            &&& full_box_table(range_bytes(src, locs.stts), "stts", 0, 8, stts_rule()) == Ok::<
                _,
                PackagerError,
            >(t.stts)
            &&& full_box_table(range_bytes(src, locs.stsc), "stsc", 0, 12, stsc_rule()) == Ok::<
                _,
                PackagerError,
            >(t.stsc)
            &&& match locs.chunk_offsets {
                ChunkOffsets::Stco(range) => readable(src, range, 8) && full_box_table(
                    range_bytes(src, range),
                    "stco",
                    0,
                    4,
                    stco_rule(),
                ) == Ok::<_, PackagerError>(t.chunk_offsets),
                ChunkOffsets::Co64(range) => readable(src, range, 8) && full_box_table(
                    range_bytes(src, range),
                    "co64",
                    0,
                    8,
                    co64_rule(),
                ) == Ok::<_, PackagerError>(t.chunk_offsets),
            }
            &&& match locs.stss {
                None => t.stss is None,
                Some(range) => readable(src, range, 8) && t.stss is Some && full_box_table(
                    range_bytes(src, range),
                    "stss",
                    0,
                    4,
                    stss_rule(),
                ) == Ok::<_, PackagerError>(t.stss->0),
            }
            &&& match locs.ctts {
                None => t.ctts is None,
                Some(range) => readable(src, range, 8) && t.ctts is Some && full_box_table(
                    range_bytes(src, range),
                    "ctts",
                    1,
                    8,
                    ctts_rule(),
                ) == Ok::<_, PackagerError>(t.ctts->0),
            }
        },
        tables(src, locs) matches Ok(t) ==> walked(src, locs) == assembled(t),
        tables(src, locs) matches Err(e) ==> walked(src, locs) == Err::<
            Seq<RawSampleEntry>,
            _,
        >(e),
{
}

/// Tables that can be read are read: none is refused but for its own bytes.
pub proof fn law_readable_tables_are_read(src: Seq<u8>, locs: SampleTableLocs)
    requires
        readable(src, locs.stsz, 12),
        readable(src, locs.stts, 8),
        readable(src, locs.stsc, 8),
        stsz_sizes(range_bytes(src, locs.stsz)) is Ok,
        full_box_table(range_bytes(src, locs.stts), "stts", 0, 8, stts_rule()) is Ok,
        full_box_table(range_bytes(src, locs.stsc), "stsc", 0, 12, stsc_rule()) is Ok,
        match locs.chunk_offsets {
            ChunkOffsets::Stco(range) => readable(src, range, 8) && full_box_table(
                range_bytes(src, range),
                "stco",
                0,
                4,
                stco_rule(),
            ) is Ok,
            ChunkOffsets::Co64(range) => readable(src, range, 8) && full_box_table(
                range_bytes(src, range),
                "co64",
                0,
                8,
                co64_rule(),
            ) is Ok,
        },
        locs.stss matches Some(range) ==> readable(src, range, 8) && full_box_table(
            range_bytes(src, range),
            "stss",
            0,
            4,
            stss_rule(),
        ) is Ok,
        locs.ctts matches Some(range) ==> readable(src, range, 8) && full_box_table(
            range_bytes(src, range),
            "ctts",
            1,
            8,
            ctts_rule(),
        ) is Ok,
    ensures
        tables(src, locs) is Ok,
{
}

/// Tables are read one after the other (sizes, durations, chunks, chunk
/// offsets, sync samples, composition offsets), and the first that cannot be
/// read decides.
pub proof fn law_first_bad_table_decides(src: Seq<u8>, locs: SampleTableLocs)
    ensures
        ({
            let sizes = source_sizes(src, locs.stsz);
            let stts = source_table(src, locs.stts, "stts", 0, 8, stts_rule());
            let stsc = source_table(src, locs.stsc, "stsc", 0, 12, stsc_rule());
            let offsets = source_chunk_offsets(src, locs.chunk_offsets);
            let fails = tables(src, locs);
            &&& sizes matches Err(e) ==> fails == Err::<TablesModel, _>(e)
            &&& sizes is Ok ==> (stts matches Err(e) ==> fails == Err::<TablesModel, _>(e))
            &&& sizes is Ok && stts is Ok ==> (stsc matches Err(e) ==> fails == Err::<
                TablesModel,
                _,
            >(e))
            &&& sizes is Ok && stts is Ok && stsc is Ok ==> (offsets matches Err(e) ==> fails
                == Err::<TablesModel, _>(e))
        }),
{
}

} // verus!
