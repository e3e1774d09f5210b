//! Bounded least-recently-used registry of open archives.
//!
//! An archive is an `.idx` file and its `.mp4` file. The registry knows open
//! archives by a number that the caller gives out; the caller keeps what the
//! number stands for and drops it when the registry evicts it.
//!
//! Loading an archive alternates file operations and decisions. The decisions
//! are [`load_step`] and [`check_pair`]: a missing `.idx` is the client's
//! mistake, everything that fails after that is the server's.

use vstd::prelude::*;
use vstd::string::{StringExecFns, StringSliceAdditionalSpecFns};

use crate::error::packager_text;
use crate::index::view::{lemma_opened_never_blames_the_source, opened_at, IndexView};
use crate::serve::api_error::{api_result, io_log, packager_log, ApiError, ApiModel};
use crate::text::{decimal_text, push_number};

verus! {

/// The longest id, in bytes.
pub const MAX_ID_LEN: usize = 64;

/// `lru::LruCache`, a cache of bounded size that drops what was used least
/// recently.
#[verifier::external_type_specification]
#[verifier::external_body]
#[verifier::reject_recursive_types(K)]
#[verifier::reject_recursive_types(V)]
#[verifier::reject_recursive_types(S)]
pub struct ExLruCache<K, V, S>(lru::LruCache<K, V, S>);

/// The hasher of `lru::LruCache`, carried through unopened.
#[verifier::external_type_specification]
#[verifier::external_body]
pub struct ExDefaultHasher(lru::DefaultHasher);

/// The keys and values that a cache holds, most recently used first.
pub uninterp spec fn cache_items(c: lru::LruCache<String, u64>) -> Seq<(Seq<char>, u64)>;

/// The most items that a cache holds.
pub uninterp spec fn cache_limit(c: lru::LruCache<String, u64>) -> nat;

/// Where `key` stands among `items`, or their number.
pub open spec fn key_index(items: Seq<(Seq<char>, u64)>, key: Seq<char>) -> int
    decreases items.len(),
{
    if items.len() == 0 || items[0].0 == key {
        0
    } else {
        1 + key_index(items.drop_first(), key)
    }
}

/// Whether `key` is among `items`.
pub open spec fn has_key(items: Seq<(Seq<char>, u64)>, key: Seq<char>) -> bool {
    key_index(items, key) < items.len()
}

/// The value of `key`.
pub open spec fn value_of(items: Seq<(Seq<char>, u64)>, key: Seq<char>) -> Option<u64> {
    if has_key(items, key) {
        Some(items[key_index(items, key)].1)
    } else {
        None
    }
}

/// `items` with the item of `key`, if there is one, moved to the front.
pub open spec fn touched(items: Seq<(Seq<char>, u64)>, key: Seq<char>) -> Seq<(Seq<char>, u64)> {
    if has_key(items, key) {
        let i = key_index(items, key);
        seq![items[i]] + items.remove(i)
    } else {
        items
    }
}

/// `items` with a new item in front; the last one leaves where there are
/// already `limit` of them.
pub open spec fn pushed(
    items: Seq<(Seq<char>, u64)>,
    key: Seq<char>,
    value: u64,
    limit: nat,
) -> Seq<(Seq<char>, u64)> {
    if items.len() == limit {
        seq![(key, value)] + items.drop_last()
    } else {
        seq![(key, value)] + items
    }
}

/// Calls `lru::LruCache::new`: an empty cache of at most `limit` items. The
/// hash table is allocated at once, which panics on an absurd `limit`.
#[verifier::external_body]
fn new_cache(limit: usize) -> (r: lru::LruCache<String, u64>)
    requires
        0 < limit <= usize::MAX / 128,
    ensures
        cache_items(r) == Seq::<(Seq<char>, u64)>::empty(),
        cache_limit(r) == limit,
{
    lru::LruCache::new(std::num::NonZeroUsize::new(limit).unwrap_or(std::num::NonZeroUsize::MIN))
}

/// Calls `lru::LruCache::get`: the value of `key`, whose item becomes the most
/// recently used one.
#[verifier::external_body]
fn cache_get(c: &mut lru::LruCache<String, u64>, key: &str) -> (r: Option<u64>)
    ensures
        r == value_of(cache_items(*old(c)), key@),
        cache_items(*final(c)) == touched(cache_items(*old(c)), key@),
        cache_limit(*final(c)) == cache_limit(*old(c)),
{
    c.get(key).copied()
}

/// Calls `lru::LruCache::peek`: the value of `key`, without a use.
#[verifier::external_body]
fn cache_peek_value(c: &lru::LruCache<String, u64>, key: &str) -> (r: Option<u64>)
    ensures
        r == value_of(cache_items(*c), key@),
{
    c.peek(key).copied()
}

/// Calls `lru::LruCache::push` for a key that the cache does not hold: the new
/// item is the most recently used one, and where the cache was full the least
/// recently used item leaves and is returned.
#[verifier::external_body]
fn cache_push(c: &mut lru::LruCache<String, u64>, key: String, value: u64) -> (r: Option<
    (String, u64),
>)
    requires
        !has_key(cache_items(*old(c)), key@),
        cache_items(*old(c)).len() <= cache_limit(*old(c)),
        cache_limit(*old(c)) > 0,
    ensures
        cache_items(*final(c)) == pushed(
            cache_items(*old(c)),
            key@,
            value,
            cache_limit(*old(c)),
        ),
        cache_limit(*final(c)) == cache_limit(*old(c)),
        match r {
            Some((k, v)) => cache_items(*old(c)).len() == cache_limit(*old(c)) && (k@, v)
                == cache_items(*old(c)).last(),
            None => cache_items(*old(c)).len() < cache_limit(*old(c)),
        },
{
    c.push(key, value)
}

/// Calls `lru::LruCache::cap`: the most items that the cache holds.
#[verifier::external_body]
fn cache_cap(c: &lru::LruCache<String, u64>) -> (r: usize)
    ensures
        r == cache_limit(*c),
{
    c.cap().get()
}

/// What is wrong with an id, in UTF-8. The length counts before the
/// characters do.
pub open spec fn id_fault(id: Seq<u8>) -> Option<&'static str> {
    if id.len() == 0 {
        Some("empty id")
    } else if id.len() > MAX_ID_LEN {
        Some("id too long")
    } else if exists|i: int| 0 <= i < id.len() && !id_byte(#[trigger] id[i]) {
        Some("invalid id characters")
    } else {
        None
    }
}

/// A byte that an id may hold: an ASCII letter or digit, `_` or `-`.
pub open spec fn id_byte(b: u8) -> bool {
    48 <= b <= 57 || 65 <= b <= 90 || 97 <= b <= 122 || b == 95 || b == 45
}

/// Checks the shape of an id.
pub fn validate_id(id: &str) -> (r: Result<(), ApiError>)
    ensures
        api_result(r) == match id_fault(id.spec_bytes()) {
            None => Ok(()),
            Some(reason) => Err(ApiModel::BadRequest(reason)),
        },
{
    let bytes: &[u8] = id.as_bytes();
    if bytes.len() == 0 {
        return Err(ApiError::BadRequest("empty id"));
    }
    if bytes.len() > MAX_ID_LEN {
        return Err(ApiError::BadRequest("id too long"));
    }
    let mut i: usize = 0;
    while i < bytes.len()
        invariant
            0 <= i <= bytes@.len(),
            bytes@ == id.spec_bytes(),
            0 < bytes@.len() <= MAX_ID_LEN,
            forall|k: int| 0 <= k < i ==> id_byte(#[trigger] bytes@[k]),
        decreases bytes@.len() - i,
    {
        let b: u8 = bytes[i];
        if !(48 <= b && b <= 57 || 65 <= b && b <= 90 || 97 <= b && b <= 122 || b == 95 || b
            == 45) {
            return Err(ApiError::BadRequest("invalid id characters"));
        }
        i += 1;
    }
    Ok(())
}

/// What the registry does with an archive that was just opened.
#[derive(Debug)]
pub struct Inserted {
    /// The archive to use: the fresh one, or one that was there already.
    pub handle: u64,
    /// The archive that left to make room.
    pub evicted: Option<(String, u64)>,
}

/// The registry.
pub struct IndexRegistry {
    cache: lru::LruCache<String, u64>,
}

/// No key occurs twice among `items`.
pub open spec fn keys_distinct(items: Seq<(Seq<char>, u64)>) -> bool {
    forall|i: int, j: int|
        0 <= i < j < items.len() ==> (#[trigger] items[i]).0 != (#[trigger] items[j]).0
}

impl IndexRegistry {
    /// The ids and archives that the registry knows, most recently used
    /// first.
    pub closed spec fn items(&self) -> Seq<(Seq<char>, u64)> {
        cache_items(self.cache)
    }

    /// The most archives that the registry keeps.
    pub closed spec fn limit(&self) -> nat {
        cache_limit(self.cache)
    }

    /// The registry keeps at least one archive and never more than its limit,
    /// and knows each id once.
    pub open spec fn wf(&self) -> bool {
        &&& self.limit() > 0
        &&& self.items().len() <= self.limit()
        &&& keys_distinct(self.items())
    }

    /// A registry that keeps at most `max_open_archives` archives, and at
    /// least one.
    pub fn new(max_open_archives: usize) -> (r: IndexRegistry)
        requires
            max_open_archives <= usize::MAX / 128,
        ensures
            r.wf(),
            r.items() == Seq::<(Seq<char>, u64)>::empty(),
            r.limit() == if max_open_archives == 0 { 1 } else { max_open_archives as nat },
    {
        let limit: usize = if max_open_archives == 0 { 1 } else { max_open_archives };
        IndexRegistry { cache: new_cache(limit) }
    }

    /// The archive of `id`, which counts as a use.
    pub fn lookup(&mut self, id: &str) -> (r: Option<u64>)
        requires
            old(self).wf(),
        ensures
            final(self).wf(),
            r == value_of(old(self).items(), id@),
            final(self).items() == touched(old(self).items(), id@),
            final(self).limit() == old(self).limit(),
    {
        proof {
            lemma_touched(self.items(), id@);
        }
        cache_get(&mut self.cache, id)
    }

    /// Adds an archive that was just opened. Where another request was
    /// faster, its archive stays, and the fresh one is not kept.
    pub fn insert(&mut self, id: &str, fresh: u64) -> (r: Inserted)
        requires
            old(self).wf(),
        ensures
            final(self).wf(),
            final(self).limit() == old(self).limit(),
            match value_of(old(self).items(), id@) {
                Some(existing) => {
                    &&& r.handle == existing
                    &&& r.evicted is None
                    &&& final(self).items() == touched(old(self).items(), id@)
                },
                None => {
                    &&& r.handle == fresh
                    &&& final(self).items() == pushed(
                        old(self).items(),
                        id@,
                        fresh,
                        old(self).limit(),
                    )
                    &&& match r.evicted {
                        Some((k, v)) => old(self).items().len() == old(self).limit() && (k@, v)
                            == old(self).items().last(),
                        None => old(self).items().len() < old(self).limit(),
                    }
                },
            },
    {
        proof {
            lemma_touched(self.items(), id@);
            lemma_pushed(self.items(), id@, fresh, self.limit());
        }
        match cache_get(&mut self.cache, id) {
            Some(existing) => Inserted { handle: existing, evicted: None },
            None => {
                let evicted: Option<(String, u64)> = cache_push(
                    &mut self.cache,
                    id.to_owned(),
                    fresh,
                );
                Inserted { handle: fresh, evicted }
            },
        }
    }

    /// Checks the shape of `id` and looks it up. `None` means that the archive
    /// has to be loaded.
    pub fn begin_get(&mut self, id: &str) -> (r: Result<Option<u64>, ApiError>)
        requires
            old(self).wf(),
        ensures
            final(self).wf(),
            final(self).limit() == old(self).limit(),
            match id_fault(id.spec_bytes()) {
                Some(reason) => {
                    &&& api_result(r) == Err::<Option<u64>, _>(ApiModel::BadRequest(reason))
                    &&& final(self).items() == old(self).items()
                },
                None => {
                    &&& r == Ok::<_, ApiError>(value_of(old(self).items(), id@))
                    &&& final(self).items() == touched(old(self).items(), id@)
                },
            },
    {
        validate_id(id)?;
        Ok(self.lookup(id))
    }

    /// The most archives that the registry keeps.
    pub fn cache_capacity(&self) -> (r: usize)
        ensures
            r == self.limit(),
    {
        cache_cap(&self.cache)
    }

    /// Whether the registry knows `id`. This does not count as a use.
    pub fn cache_peek(&self, id: &str) -> (r: bool)
        ensures
            r == has_key(self.items(), id@),
    {
        cache_peek_value(&self.cache, id).is_some()
    }
}

/// A new key keeps the bound and the distinctness of keys.
proof fn lemma_pushed(items: Seq<(Seq<char>, u64)>, key: Seq<char>, value: u64, limit: nat)
    requires
        keys_distinct(items),
        items.len() <= limit,
        limit > 0,
    ensures
        pushed(items, key, value, limit).len() <= limit,
        !has_key(items, key) ==> keys_distinct(pushed(items, key, value, limit)),
{
    lemma_key_index(items, key);
    if !has_key(items, key) {
        let after = pushed(items, key, value, limit);
        assert forall|i: int, j: int| 0 <= i < j < after.len() implies (#[trigger] after[i]).0 != (
        #[trigger] after[j]).0 by {
            assert(after[j] == items[j - 1]);
            if i > 0 {
                assert(after[i] == items[i - 1]);
            }
        }
    }
}

/// The item of `key` stands at its index.
proof fn lemma_key_index(items: Seq<(Seq<char>, u64)>, key: Seq<char>)
    ensures
        0 <= key_index(items, key) <= items.len(),
        has_key(items, key) ==> items[key_index(items, key)].0 == key,
        forall|k: int| 0 <= k < key_index(items, key) ==> (#[trigger] items[k]).0 != key,
    decreases items.len(),
{
    if items.len() > 0 && items[0].0 != key {
        let rest = items.drop_first();
        lemma_key_index(rest, key);
        assert forall|k: int| 0 <= k < key_index(items, key) implies (#[trigger] items[k]).0
            != key by {
            if k > 0 {
                assert(items[k] == rest[k - 1]);
            }
        }
    }
}

/// A use keeps the number of items and the distinctness of keys.
proof fn lemma_touched(items: Seq<(Seq<char>, u64)>, key: Seq<char>)
    requires
        keys_distinct(items),
    ensures
        touched(items, key).len() == items.len(),
        keys_distinct(touched(items, key)),
{
    lemma_key_index(items, key);
    if has_key(items, key) {
        let at = key_index(items, key);
        let after = touched(items, key);
        assert forall|i: int, j: int| 0 <= i < j < after.len() implies (#[trigger] after[i]).0 != (
        #[trigger] after[j]).0 by {
            let from_j = if j <= at { j - 1 } else { j };
            let from_i = if i == 0 { at } else if i <= at { i - 1 } else { i };
            assert(after[j] == items[from_j]);
            assert(after[i] == items[from_i]);
            assert(from_i != from_j);
            if from_i < from_j {
                assert(items[from_i].0 != items[from_j].0);
            } else {
                assert(items[from_j].0 != items[from_i].0);
            }
        }
    }
}

/// A use makes an archive the most recently used one, and an archive that was
/// just added too.
pub proof fn law_used_archives_come_first(
    items: Seq<(Seq<char>, u64)>,
    key: Seq<char>,
    value: u64,
    limit: nat,
)
    requires
        items.len() <= limit,
        limit > 0,
    ensures
        has_key(items, key) ==> touched(items, key)[0] == (key, value_of(items, key)->0),
        pushed(items, key, value, limit)[0] == (key, value),
{
    lemma_key_index(items, key);
}

/// Only the least recently used archive leaves: whatever else was known
/// before an archive is added is known after it, in the same order.
pub proof fn law_only_the_idle_archive_is_evicted(
    items: Seq<(Seq<char>, u64)>,
    key: Seq<char>,
    value: u64,
    limit: nat,
    k: int,
)
    requires
        items.len() <= limit,
        0 <= k < items.len() - 1,
    ensures
        pushed(items, key, value, limit)[k + 1] == items[k],
{
}

/// With distinct keys, an item is what its key leads to.
proof fn lemma_value_of(items: Seq<(Seq<char>, u64)>, i: int)
    requires
        keys_distinct(items),
        0 <= i < items.len(),
    ensures
        value_of(items, items[i].0) == Some(items[i].1),
{
    lemma_key_index(items, items[i].0);
    let j = key_index(items, items[i].0);
    if j < i {
        assert(items[j].0 != items[i].0);
    } else if i < j {
        assert(items[i].0 != items[i].0);
    }
}

/// What a lookup gives back is what was inserted: after an archive is added it
/// is found under its id, and an archive that was known before is still found
/// under its own, unless it was the one to leave.
pub proof fn law_inserted_archives_are_found(
    items: Seq<(Seq<char>, u64)>,
    key: Seq<char>,
    value: u64,
    limit: nat,
    other: Seq<char>,
)
    requires
        keys_distinct(items),
        items.len() <= limit,
        limit > 0,
        !has_key(items, key),
    ensures
        value_of(pushed(items, key, value, limit), key) == Some(value),
        has_key(items, other) && !(items.len() == limit && other == items.last().0) ==> value_of(
            pushed(items, key, value, limit),
            other,
        ) == value_of(items, other),
{
    let after = pushed(items, key, value, limit);
    lemma_pushed(items, key, value, limit);
    assert(after[0] == (key, value));
    lemma_value_of(after, 0);
    if has_key(items, other) && !(items.len() == limit && other == items.last().0) {
        lemma_key_index(items, other);
        let i = key_index(items, other);
        assert(after[i + 1] == items[i]);
        lemma_value_of(after, i + 1);
    }
}

/// A use changes no archive: every id leads to what it led to before.
pub proof fn law_lookups_keep_every_archive(
    items: Seq<(Seq<char>, u64)>,
    key: Seq<char>,
    other: Seq<char>,
)
    requires
        keys_distinct(items),
    ensures
        value_of(touched(items, key), other) == value_of(items, other),
{
    lemma_touched(items, key);
    lemma_key_index(items, key);
    lemma_key_index(items, other);
    let after = touched(items, key);
    lemma_key_index(after, other);
    if has_key(items, key) {
        let at = key_index(items, key);
        if has_key(items, other) {
            let i = key_index(items, other);
            let to = if i == at { 0 } else if i < at { i + 1 } else { i };
            assert(after[to] == items[i]);
            lemma_value_of(after, to);
        } else if has_key(after, other) {
            let j = key_index(after, other);
            let from = if j == 0 { at } else if j <= at { j - 1 } else { j };
            assert(after[j] == items[from]);
            assert(items[from].0 == other);
            lemma_value_of(items, from);
        }
    }
}

/// One file operation of a load, in order.
#[derive(Debug, Clone, Copy, PartialEq, Eq, Structural)]
pub enum LoadStep {
    StatIdx,
    OpenIdx,
    MapIdx,
    OpenMp4,
    MapMp4,
    /// All file operations are done; [`check_pair`] comes next.
    Check,
}

/// How a file operation went.
#[derive(Debug)]
pub enum FileOutcome {
    /// It succeeded.
    Done,
    /// There is something at the path, but no regular file.
    NotAFile,
    /// There is nothing at the path. The text is that of the error.
    Absent(String),
    /// It failed otherwise. The text is that of the error.
    Failed(String),
}

/// What a file operation is called in the log.
pub open spec fn action_name(step: LoadStep) -> Seq<char> {
    match step {
        LoadStep::StatIdx => "stat idx"@,
        LoadStep::OpenIdx => "open idx"@,
        LoadStep::MapIdx => "mmap idx"@,
        LoadStep::OpenMp4 => "open mp4"@,
        LoadStep::MapMp4 => "mmap mp4"@,
        LoadStep::Check => "check"@,
    }
}

/// The operation after `step`.
pub open spec fn next_step(step: LoadStep) -> LoadStep {
    match step {
        LoadStep::StatIdx => LoadStep::OpenIdx,
        LoadStep::OpenIdx => LoadStep::MapIdx,
        LoadStep::MapIdx => LoadStep::OpenMp4,
        LoadStep::OpenMp4 => LoadStep::MapMp4,
        LoadStep::MapMp4 => LoadStep::Check,
        LoadStep::Check => LoadStep::Check,
    }
}

/// What follows from the outcome of a file operation on `path`: the next one,
/// or the error. Only a missing `.idx` is the client's mistake.
pub open spec fn load_outcome(
    step: LoadStep,
    outcome: FileOutcome,
    id: Seq<char>,
    path: Seq<char>,
) -> Result<LoadStep, ApiModel> {
    match outcome {
        FileOutcome::Done => Ok(next_step(step)),
        FileOutcome::NotAFile => if step == LoadStep::StatIdx {
            Err(ApiModel::NotFound)
        } else {
            Ok(next_step(step))
        },
        FileOutcome::Absent(text) => if step == LoadStep::StatIdx {
            Err(ApiModel::NotFound)
        } else if step == LoadStep::OpenMp4 {
            Err(ApiModel::Internal("source mp4 missing for `"@ + id + "`: "@ + path))
        } else {
            Err(ApiModel::Internal(io_log(action_name(step), path, text@)))
        },
        FileOutcome::Failed(text) => Err(
            ApiModel::Internal(io_log(action_name(step), path, text@)),
        ),
    }
}

/// Decides how a load goes on after a file operation on `path`.
pub fn load_step(step: LoadStep, outcome: &FileOutcome, id: &str, path: &str) -> (r: Result<
    LoadStep,
    ApiError,
>)
    ensures
        api_result(r) == load_outcome(step, *outcome, id@, path@),
{
    let (action, next) = match step {
        LoadStep::StatIdx => ("stat idx", LoadStep::OpenIdx),
        LoadStep::OpenIdx => ("open idx", LoadStep::MapIdx),
        LoadStep::MapIdx => ("mmap idx", LoadStep::OpenMp4),
        LoadStep::OpenMp4 => ("open mp4", LoadStep::MapMp4),
        LoadStep::MapMp4 => ("mmap mp4", LoadStep::Check),
        LoadStep::Check => ("check", LoadStep::Check),
    };
    match outcome {
        FileOutcome::Done => Ok(next),
        FileOutcome::NotAFile => if step == LoadStep::StatIdx {
            Err(ApiError::NotFound)
        } else {
            Ok(next)
        },
        FileOutcome::Absent(text) => if step == LoadStep::StatIdx {
            Err(ApiError::NotFound)
        } else if step == LoadStep::OpenMp4 {
            let mut log: String = String::new();
            log.append("source mp4 missing for `");
            log.append(id);
            log.append("`: ");
            log.append(path);
            assert(log@ =~= "source mp4 missing for `"@ + id@ + "`: "@ + path@);
            Err(ApiError::Internal(log))
        } else {
            Err(ApiError::internal_io_text(action, path, text.as_str()))
        },
        FileOutcome::Failed(text) => Err(
            ApiError::internal_io_text(action, path, text.as_str()),
        ),
    }
}

/// What is wrong with an archive whose files are open: the index must open,
/// at the place in memory where it was mapped, and must have been built from a
/// source of `mp4_len` bytes.
pub open spec fn pair_fault(idx: Seq<u8>, aligned: bool, mp4_len: u64, id: Seq<char>) -> Option<
    ApiModel,
> {
    match opened_at(idx, aligned) {
        Err(e) => Some(
            ApiModel::Internal(packager_log("open idx"@, id, packager_text(e, Seq::empty()))),
        ),
        Ok(index) => if index.source_mp4_len != mp4_len {
            Some(
                ApiModel::Internal(
                    "source_mp4_len mismatch for `"@ + id + "`: idx_records="@ + decimal_text(
                        index.source_mp4_len as nat,
                    ) + " mp4_actual="@ + decimal_text(mp4_len as nat),
                ),
            )
        } else {
            None
        },
    }
}

/// Checks that the index of an archive opens and matches its source. `aligned`
/// is as for [`IndexView::open_at`].
pub fn check_pair(idx_bytes: &[u8], aligned: bool, mp4_len: u64, id: &str) -> (r: Result<
    (),
    ApiError,
>)
    ensures
        api_result(r) == match pair_fault(idx_bytes@, aligned, mp4_len, id@) {
            None => Ok(()),
            Some(e) => Err(e),
        },
{
    proof {
        lemma_opened_never_blames_the_source(idx_bytes@);
    }
    match IndexView::open_at(idx_bytes, aligned) {
        Err(e) => Err(ApiError::internal_packager("open idx", id, e)),
        Ok(view) => {
            let recorded: u64 = view.source_mp4_len();
            if recorded != mp4_len {
                let mut log: String = String::new();
                log.append("source_mp4_len mismatch for `");
                log.append(id);
                log.append("`: idx_records=");
                push_number(&mut log, recorded);
                log.append(" mp4_actual=");
                push_number(&mut log, mp4_len);
                assert(log@ =~= "source_mp4_len mismatch for `"@ + id@ + "`: idx_records="@
                    + decimal_text(recorded as nat) + " mp4_actual="@ + decimal_text(
                    mp4_len as nat,
                ));
                return Err(ApiError::Internal(log));
            }
            Ok(())
        },
    }
}

} // verus!
