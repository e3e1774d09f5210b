//! Decisions of the offline indexer.

use vstd::prelude::*;
use vstd::string::StringExecFns;

use crate::error::PackagerError;
use crate::index::format::SampleEntry;
use crate::index::view::{opened, IndexView};

verus! {

/// There are samples, and all of them are sync samples.
pub open spec fn only_sync(samples: Seq<SampleEntry>) -> bool {
    &&& samples.len() > 0
    &&& forall|i: int| 0 <= i < samples.len() ==> (#[trigger] samples[i]).spec_is_sync()
}

/// Whether the source of an index likely had no `stss`: every video sample is
/// a sync sample. A source whose `stss` lists every sample looks the same.
pub fn all_video_samples_sync(samples: &[SampleEntry]) -> (r: bool)
    ensures
        r == only_sync(samples@),
{
    if samples.len() == 0 {
        return false;
    }
    let mut i: usize = 0;
    while i < samples.len()
        invariant
            0 <= i <= samples@.len(),
            0 < samples@.len(),
            forall|k: int| 0 <= k < i ==> (#[trigger] samples@[k]).spec_is_sync(),
        decreases samples@.len() - i,
    {
        if !samples[i].is_sync() {
            return false;
        }
        i += 1;
    }
    true
}

/// The note for the operator about an index that was just built, if there is
/// one.
pub fn sync_note(idx_bytes: &[u8]) -> (r: Result<Option<&'static str>, PackagerError>)
    ensures
        match opened(idx_bytes@) {
            Err(e) => r == Err::<Option<&'static str>, _>(e),
            Ok(index) => if only_sync(index.video_samples) {
                r matches Ok(Some(note)) && note@
                    == "note: all video samples are sync (input likely lacked stss)"@
            } else {
                r == Ok::<Option<&'static str>, PackagerError>(None)
            },
        },
{
    let view = IndexView::open(idx_bytes)?;
    if all_video_samples_sync(view.video_samples()) {
        Ok(Some("note: all video samples are sync (input likely lacked stss)"))
    } else {
        Ok(None)
    }
}

/// The path of the temporary file next to `dst`. It is in the same directory,
/// because a rename is atomic within one file system only.
pub fn tmp_sibling(dst: &str) -> (r: String)
    ensures
        r@ == dst@ + ".tmp"@,
{
    let mut path: String = dst.to_owned();
    path.append(".tmp");
    path
}

/// An index is noted exactly if it has video samples and the lowest bit of the
/// flags of each of them is set.
pub proof fn law_sync_samples_are_told_by_their_flags(samples: Seq<SampleEntry>)
    ensures
        only_sync(samples) <==> samples.len() > 0 && forall|i: int|
            0 <= i < samples.len() ==> (#[trigger] samples[i]).flags & 1u32 == 1u32,
{
    assert forall|i: int| 0 <= i < samples.len() implies ((#[trigger] samples[i]).flags & 1u32
        == 1u32 <==> samples[i].spec_is_sync()) by {
        let flags = samples[i].flags;
        assert(flags & 1u32 == 1u32 <==> flags % 2 == 1) by (bit_vector);
    }
}

} // verus!
