//! The bookkeeping of a store that keeps new bytes in memory, has them written
//! to a database in the background, and reads old ones back on demand.
//!
//! Reading and writing the database is left to the caller. Every method takes
//! what the database gave and says what it is to do next.
use crate::hash::{all_hex, content_key, is_hex_char, ContentHash};
use crate::text::{begins, begins_str, chars_of, same_text, texts};
use vstd::hash_map::StringHashMap;
use vstd::prelude::*;

verus! {

// ---------------------------------------------------------------------------
// Settings and sizes
// ---------------------------------------------------------------------------

/// The file sizes of a database.
#[derive(Clone, Copy, Debug, PartialEq, Eq, Structural)]
pub struct SqliteDiskUsage {
    /// The size of the main file in bytes.
    pub db_bytes: usize,
    /// The size of the write-ahead log in bytes.
    pub wal_bytes: usize,
    /// The size of the shared-memory file in bytes.
    pub shm_bytes: usize,
}

impl SqliteDiskUsage {
    /// All bytes together; the greatest number there is where they do not fit.
    pub fn total_bytes(self) -> (n: usize)
        ensures
            n == if self.db_bytes + self.wal_bytes + self.shm_bytes <= usize::MAX {
                self.db_bytes + self.wal_bytes + self.shm_bytes
            } else {
                usize::MAX as int
            },
    {
        self.db_bytes.saturating_add(self.wal_bytes).saturating_add(self.shm_bytes)
    }
}

/// How the store is tuned.
#[derive(Clone, Copy, Debug, PartialEq, Eq, Structural)]
pub struct SqliteConfig {
    /// Going above this many resident bytes is warned of once.
    pub soft_cap_bytes: Option<usize>,
    /// All stored bytes are kept resident when the store is opened.
    pub warm_bytes_on_open: bool,
    /// Only the stored keys are read when the store is opened. Of no effect
    /// where the bytes are kept resident.
    pub trust_hashes_on_open: bool,
    /// Above this many resident bytes, old ones leave the memory.
    pub resident_cap_bytes: Option<usize>,
    /// The write-ahead log is checkpointed after this many blobs.
    pub checkpoint_every_blobs: Option<usize>,
}

impl Default for SqliteConfig {
    fn default() -> (out: Self)
        ensures
            out == (SqliteConfig {
                soft_cap_bytes: None,
                warm_bytes_on_open: false,
                trust_hashes_on_open: false,
                resident_cap_bytes: None,
                checkpoint_every_blobs: None,
            }),
    {
        SqliteConfig {
            soft_cap_bytes: None,
            warm_bytes_on_open: false,
            trust_hashes_on_open: false,
            resident_cap_bytes: None,
            checkpoint_every_blobs: None,
        }
    }
}

// ---------------------------------------------------------------------------
// Reading by prefix
// ---------------------------------------------------------------------------

/// A prefix that can be looked up: at least eight lowercase hex digits.
pub open spec fn readable(prefix: Seq<char>) -> bool {
    prefix.len() >= 8 && all_hex(prefix)
}

/// Whether a prefix can be looked up.
pub fn is_readable(prefix: &str) -> (r: bool)
    ensures
        r == readable(prefix@),
{
    let chars = chars_of(prefix);
    if chars.len() < 8 {
        return false;
    }
    let mut i: usize = 0;
    while i < chars.len()
        invariant
            i <= chars@.len(),
            chars@ == prefix@,
            forall|k: int| 0 <= k < i ==> is_hex_char(#[trigger] prefix@[k]),
        decreases chars@.len() - i,
    {
        let u: u32 = chars[i] as u32;
        if !((0x30 <= u && u <= 0x39) || (0x61 <= u && u <= 0x66)) {
            assert(!is_hex_char(prefix@[i as int]));
            return false;
        }
        i += 1;
    }
    true
}

/// The blob that a prefix stands for, given the blobs stored under keys that
/// begin with it, at least the first two where there are more: the only one,
/// if its own hash begins with the prefix.
pub fn read_blob(prefix: &str, found: &[Vec<u8>]) -> (out: Option<Vec<u8>>)
    ensures
        match out {
            Some(bytes) => {
                &&& readable(prefix@)
                &&& found@.len() == 1
                &&& bytes@ == found@[0]@
                &&& begins(content_key(bytes@), prefix@)
            },
            None => !readable(prefix@) || found@.len() != 1 || !begins(
                content_key(found@[0]@),
                prefix@,
            ),
        },
{
    if !is_readable(prefix) || found.len() != 1 {
        return None;
    }
    let hash = ContentHash::of(found[0].as_slice());
    let key = chars_of(hash.as_str());
    if begins_str(&key, prefix) {
        Some(vstd::slice::slice_to_vec(&found[0]))
    } else {
        None
    }
}

// ---------------------------------------------------------------------------
// The model
// ---------------------------------------------------------------------------

/// Bytes in memory under their key. Bytes that were read back from the database
/// may leave the memory again; the rest may not.
pub struct BlobView {
    pub key: Seq<char>,
    pub bytes: Seq<u8>,
    pub evictable: bool,
}

/// Where a key is in memory; the number of blobs, where it is not.
pub open spec fn blob_at(blobs: Seq<BlobView>, key: Seq<char>) -> int
    decreases blobs.len(),
{
    if blobs.len() == 0 || blobs[0].key == key {
        0
    } else {
        1 + blob_at(blobs.skip(1), key)
    }
}

/// The key is in memory.
pub open spec fn in_memory(blobs: Seq<BlobView>, key: Seq<char>) -> bool {
    blob_at(blobs, key) < blobs.len()
}

/// All bytes in memory.
pub open spec fn resident(blobs: Seq<BlobView>) -> nat
    decreases blobs.len(),
{
    if blobs.len() == 0 {
        0
    } else {
        resident(blobs.drop_last()) + blobs.last().bytes.len()
    }
}

/// The first blob that may leave the memory; the number of blobs, where there
/// is none. Blobs that may leave stand in the order in which they were last
/// used.
pub open spec fn first_evictable(blobs: Seq<BlobView>) -> int
    decreases blobs.len(),
{
    if blobs.len() == 0 || blobs[0].evictable {
        0
    } else {
        1 + first_evictable(blobs.skip(1))
    }
}

/// The blobs after the use of one of them.
pub open spec fn touched(blobs: Seq<BlobView>, at: int) -> Seq<BlobView> {
    if blobs[at].evictable {
        blobs.remove(at).push(blobs[at])
    } else {
        blobs
    }
}

/// The blobs that stay in memory: while they are above the cap, the least
/// recently used of those that may leave do.
pub open spec fn capped(blobs: Seq<BlobView>, cap: Option<usize>) -> Seq<BlobView>
    decreases blobs.len(),
{
    let at = first_evictable(blobs);
    if cap is Some && resident(blobs) > cap->0 && 0 <= at < blobs.len() {
        capped(blobs.remove(at), cap)
    } else {
        blobs
    }
}

/// The state of the store.
pub struct SqliteView {
    pub blobs: Seq<BlobView>,
    pub known: Set<Seq<char>>,
    pub durability_lag: usize,
    pub dropped_writes: usize,
    pub persisted: usize,
    pub resident_evictions: usize,
    pub wal_checkpoints: usize,
    pub wal_checkpoint_failures: usize,
    pub since_checkpoint: usize,
    pub soft_cap_warned: bool,
    pub writer_loss_warned: bool,
}

/// Every blob is under its content hash, no key is there twice, every key in
/// memory is known, and the bytes in memory can be counted.
pub open spec fn sound(s: SqliteView) -> bool {
    &&& forall|i: int|
        0 <= i < s.blobs.len() ==> (#[trigger] s.blobs[i]).key == content_key(s.blobs[i].bytes)
            && s.known.contains(s.blobs[i].key)
    &&& distinct_keys(s.blobs)
    &&& resident(s.blobs) <= usize::MAX
}

/// No key is there twice.
pub open spec fn distinct_keys(blobs: Seq<BlobView>) -> bool {
    forall|i: int, j: int|
        0 <= i < j < blobs.len() ==> (#[trigger] blobs[i]).key != (#[trigger] blobs[j]).key
}

/// The resident bytes are to be warned of now.
pub open spec fn over_soft_cap(s: SqliteView, config: SqliteConfig) -> bool {
    config.soft_cap_bytes is Some && resident(s.blobs) > config.soft_cap_bytes->0
        && !s.soft_cap_warned
}

/// The state after the check of the soft cap.
pub open spec fn soft_cap_noted(s: SqliteView, config: SqliteConfig) -> SqliteView {
    SqliteView { soft_cap_warned: s.soft_cap_warned || over_soft_cap(s, config), ..s }
}

/// The state after the cap on resident bytes is enforced.
pub open spec fn cap_enforced(s: SqliteView, config: SqliteConfig) -> SqliteView {
    let kept = capped(s.blobs, config.resident_cap_bytes);
    SqliteView {
        blobs: kept,
        resident_evictions: s.resident_evictions.wrapping_add(
            (s.blobs.len() - kept.len()) as usize,
        ),
        ..s
    }
}

/// The state with one more blob in memory.
pub open spec fn with_blob(s: SqliteView, bytes: Seq<u8>, evictable: bool) -> SqliteView {
    SqliteView {
        blobs: s.blobs.push(BlobView { key: content_key(bytes), bytes, evictable }),
        known: s.known.insert(content_key(bytes)),
        ..s
    }
}

/// The state after bytes were put into the store: nothing changes where they
/// are in memory; new ones wait to be written.
pub open spec fn after_put(s: SqliteView, config: SqliteConfig, bytes: Seq<u8>) -> SqliteView {
    let key = content_key(bytes);
    if in_memory(s.blobs, key) {
        s
    } else {
        let lag = if s.known.contains(key) {
            s.durability_lag
        } else {
            s.durability_lag.wrapping_add(1)
        };
        SqliteView {
            durability_lag: lag,
            ..soft_cap_noted(with_blob(s, bytes, false), config)
        }
    }
}

/// The state after bytes were read back for a key.
pub open spec fn after_load(
    s: SqliteView,
    config: SqliteConfig,
    key: Seq<char>,
    read: Option<Seq<u8>>,
) -> SqliteView {
    match read {
        None => s,
        Some(bytes) => if content_key(bytes) != key {
            s
        } else if in_memory(s.blobs, key) {
            SqliteView { blobs: touched(s.blobs, blob_at(s.blobs, key)), ..s }
        } else {
            cap_enforced(soft_cap_noted(with_blob(s, bytes, true), config), config)
        },
    }
}

/// The state of an empty store.
pub open spec fn fresh() -> SqliteView {
    SqliteView {
        blobs: Seq::empty(),
        known: Set::empty(),
        durability_lag: 0,
        dropped_writes: 0,
        persisted: 0,
        resident_evictions: 0,
        wal_checkpoints: 0,
        wal_checkpoint_failures: 0,
        since_checkpoint: 0,
        soft_cap_warned: false,
        writer_loss_warned: false,
    }
}

/// A stored row.
#[derive(Debug)]
pub struct StoredRow {
    /// The key it is stored under.
    pub key: String,
    /// The stored bytes.
    pub bytes: Vec<u8>,
}

/// The state after a row was validated when the store was opened: a row whose
/// bytes do not hash to its key is passed over, as is a key that is known.
pub open spec fn after_row(s: SqliteView, warm: bool, key: Seq<char>, bytes: Seq<u8>) -> SqliteView {
    if content_key(bytes) != key || s.known.contains(key) {
        s
    } else if warm {
        with_blob(s, bytes, true)
    } else {
        SqliteView { known: s.known.insert(key), ..s }
    }
}

/// The state after the first `n` rows.
pub open spec fn after_rows(rows: Seq<StoredRow>, warm: bool, n: nat) -> SqliteView
    decreases n,
{
    if n == 0 {
        fresh()
    } else {
        after_row(
            after_rows(rows, warm, (n - 1) as nat),
            warm,
            rows[n - 1].key@,
            rows[n - 1].bytes@,
        )
    }
}

/// The bytes of all rows.
pub open spec fn row_bytes(rows: Seq<StoredRow>, n: nat) -> nat
    decreases n,
{
    if n == 0 {
        0
    } else {
        row_bytes(rows, (n - 1) as nat) + rows[n - 1].bytes@.len()
    }
}

/// The keys among the first `n` that are content hashes.
pub open spec fn hash_keys(keys: Seq<String>, n: nat) -> Set<Seq<char>>
    decreases n,
{
    if n == 0 {
        Set::empty()
    } else {
        let before = hash_keys(keys, (n - 1) as nat);
        let key = keys[n - 1]@;
        if key.len() == 64 && all_hex(key) {
            before.insert(key)
        } else {
            before
        }
    }
}

// ---------------------------------------------------------------------------
// Lemmas
// ---------------------------------------------------------------------------

proof fn lemma_blob_at(blobs: Seq<BlobView>, key: Seq<char>, n: int)
    requires
        0 <= n <= blobs.len(),
        forall|k: int| 0 <= k < n ==> (#[trigger] blobs[k]).key != key,
        n < blobs.len() ==> blobs[n].key == key,
    ensures
        blob_at(blobs, key) == n,
    decreases blobs.len(),
{
    if n > 0 {
        let rest = blobs.skip(1);
        assert(blobs[0].key != key);
        assert forall|k: int| 0 <= k < n - 1 implies (#[trigger] rest[k]).key != key by {
            assert(rest[k] == blobs[k + 1]);
        }
        lemma_blob_at(rest, key, n - 1);
    }
}

proof fn lemma_blob_at_is_first(blobs: Seq<BlobView>, key: Seq<char>)
    ensures
        0 <= blob_at(blobs, key) <= blobs.len(),
        in_memory(blobs, key) ==> blobs[blob_at(blobs, key)].key == key,
        forall|k: int| 0 <= k < blob_at(blobs, key) ==> (#[trigger] blobs[k]).key != key,
    decreases blobs.len(),
{
    if blobs.len() > 0 && blobs[0].key != key {
        let rest = blobs.skip(1);
        lemma_blob_at_is_first(rest, key);
        assert forall|k: int| 0 <= k < blob_at(blobs, key) implies (#[trigger] blobs[k]).key
            != key by {
            if k > 0 {
                assert(rest[k - 1] == blobs[k]);
            }
        }
        if in_memory(blobs, key) {
            assert(rest[blob_at(rest, key)] == blobs[blob_at(blobs, key)]);
        }
    }
}

proof fn lemma_first_evictable(blobs: Seq<BlobView>, n: int)
    requires
        0 <= n <= blobs.len(),
        forall|k: int| 0 <= k < n ==> !(#[trigger] blobs[k]).evictable,
        n < blobs.len() ==> blobs[n].evictable,
    ensures
        first_evictable(blobs) == n,
    decreases blobs.len(),
{
    if n > 0 {
        let rest = blobs.skip(1);
        assert(!blobs[0].evictable);
        assert forall|k: int| 0 <= k < n - 1 implies !(#[trigger] rest[k]).evictable by {
            assert(rest[k] == blobs[k + 1]);
        }
        lemma_first_evictable(rest, n - 1);
    }
}

proof fn lemma_first_is_evictable(blobs: Seq<BlobView>)
    ensures
        0 <= first_evictable(blobs) <= blobs.len(),
        first_evictable(blobs) < blobs.len() ==> blobs[first_evictable(blobs)].evictable,
        forall|k: int| 0 <= k < first_evictable(blobs) ==> !(#[trigger] blobs[k]).evictable,
    decreases blobs.len(),
{
    if blobs.len() > 0 && !blobs[0].evictable {
        let rest = blobs.skip(1);
        lemma_first_is_evictable(rest);
        assert forall|k: int| 0 <= k < first_evictable(blobs) implies !(#[trigger] blobs[k]).evictable by {
            if k > 0 {
                assert(rest[k - 1] == blobs[k]);
            }
        }
        if first_evictable(blobs) < blobs.len() {
            assert(rest[first_evictable(rest)] == blobs[first_evictable(blobs)]);
        }
    }
}

proof fn lemma_resident_remove(blobs: Seq<BlobView>, at: int)
    requires
        0 <= at < blobs.len(),
    ensures
        resident(blobs.remove(at)) == resident(blobs) - blobs[at].bytes.len(),
        resident(blobs) >= blobs[at].bytes.len(),
    decreases blobs.len(),
{
    let left = blobs.remove(at);
    if at == blobs.len() - 1 {
        assert(left =~= blobs.drop_last());
    } else {
        let before = blobs.drop_last();
        lemma_resident_remove(before, at);
        assert(left.drop_last() =~= before.remove(at));
        assert(left.last() == blobs.last());
        assert(before[at] == blobs[at]);
    }
}

proof fn lemma_resident_push(blobs: Seq<BlobView>, blob: BlobView)
    ensures
        resident(blobs.push(blob)) == resident(blobs) + blob.bytes.len(),
{
    assert(blobs.push(blob).drop_last() =~= blobs);
}

proof fn lemma_remove_sound(s: SqliteView, at: int)
    requires
        sound(s),
        0 <= at < s.blobs.len(),
    ensures
        sound((SqliteView { blobs: s.blobs.remove(at), ..s })),
{
    let left = s.blobs.remove(at);
    lemma_resident_remove(s.blobs, at);
    assert forall|i: int| 0 <= i < left.len() implies (#[trigger] left[i]).key == content_key(
        left[i].bytes,
    ) && s.known.contains(left[i].key) by {
        if i < at {
            assert(left[i] == s.blobs[i]);
        } else {
            assert(left[i] == s.blobs[i + 1]);
        }
    }
    assert forall|i: int, j: int| 0 <= i < j < left.len() implies (#[trigger] left[i]).key != (
    #[trigger] left[j]).key by {
        let x = if i < at {
            i
        } else {
            i + 1
        };
        let y = if j < at {
            j
        } else {
            j + 1
        };
        assert(left[i] == s.blobs[x]);
        assert(left[j] == s.blobs[y]);
    }
}

proof fn lemma_with_blob_sound(s: SqliteView, bytes: Seq<u8>, evictable: bool)
    requires
        sound(s),
        !in_memory(s.blobs, content_key(bytes)),
        resident(s.blobs) + bytes.len() <= usize::MAX,
    ensures
        sound(with_blob(s, bytes, evictable)),
        resident(with_blob(s, bytes, evictable).blobs) == resident(s.blobs) + bytes.len(),
{
    let now = with_blob(s, bytes, evictable);
    let blob = BlobView { key: content_key(bytes), bytes, evictable };
    lemma_resident_push(s.blobs, blob);
    lemma_blob_at_is_first(s.blobs, content_key(bytes));
    assert forall|i: int| 0 <= i < now.blobs.len() implies (#[trigger] now.blobs[i]).key
        == content_key(now.blobs[i].bytes) && now.known.contains(now.blobs[i].key) by {
        if i < s.blobs.len() {
            assert(now.blobs[i] == s.blobs[i]);
        }
    }
    assert forall|i: int, j: int| 0 <= i < j < now.blobs.len() implies (#[trigger] now.blobs[i]).key
        != (#[trigger] now.blobs[j]).key by {
        assert(now.blobs[i] == s.blobs[i]);
        if j < s.blobs.len() {
            assert(now.blobs[j] == s.blobs[j]);
        }
    }
}

proof fn lemma_touched_sound(s: SqliteView, at: int)
    requires
        sound(s),
        0 <= at < s.blobs.len(),
    ensures
        sound((SqliteView { blobs: touched(s.blobs, at), ..s })),
        resident(touched(s.blobs, at)) == resident(s.blobs),
{
    if s.blobs[at].evictable {
        let left = SqliteView { blobs: s.blobs.remove(at), ..s };
        let blob = s.blobs[at];
        lemma_remove_sound(s, at);
        lemma_resident_remove(s.blobs, at);
        assert forall|k: int| 0 <= k < left.blobs.len() implies (#[trigger] left.blobs[k]).key
            != blob.key by {
            if k < at {
                assert(left.blobs[k] == s.blobs[k]);
            } else {
                assert(left.blobs[k] == s.blobs[k + 1]);
            }
        }
        lemma_blob_at(left.blobs, blob.key, left.blobs.len() as int);
        lemma_with_blob_sound(left, blob.bytes, true);
        assert(blob.key == content_key(blob.bytes));
        let back = with_blob(left, blob.bytes, true);
        assert(back.blobs =~= touched(s.blobs, at));
        assert(back.known =~= s.known);
    }
}

// ---------------------------------------------------------------------------
// The store
// ---------------------------------------------------------------------------

struct Blob {
    hash: ContentHash,
    bytes: Vec<u8>,
    evictable: bool,
}

spec fn blob_view(blob: Blob) -> BlobView {
    BlobView { key: blob.hash@, bytes: blob.bytes@, evictable: blob.evictable }
}

/// The bookkeeping of the store.
pub struct SqliteCas {
    blobs: Vec<Blob>,
    known: StringHashMap<bool>,
    mem_bytes: usize,
    durability_lag: usize,
    dropped_writes: usize,
    persisted: usize,
    resident_evictions: usize,
    wal_checkpoints: usize,
    wal_checkpoint_failures: usize,
    since_checkpoint: usize,
    soft_cap_warned: bool,
    writer_loss_warned: bool,
    config: SqliteConfig,
}

impl View for SqliteCas {
    type V = SqliteView;

    closed spec fn view(&self) -> SqliteView {
        SqliteView {
            blobs: Seq::new(self.blobs@.len(), |i: int| blob_view(self.blobs@[i])),
            known: self.known@.dom(),
            durability_lag: self.durability_lag,
            dropped_writes: self.dropped_writes,
            persisted: self.persisted,
            resident_evictions: self.resident_evictions,
            wal_checkpoints: self.wal_checkpoints,
            wal_checkpoint_failures: self.wal_checkpoint_failures,
            since_checkpoint: self.since_checkpoint,
            soft_cap_warned: self.soft_cap_warned,
            writer_loss_warned: self.writer_loss_warned,
        }
    }
}

/// The state after the writer has turned out to have ended, so that a blob that
/// was to be sent to it will not be written.
pub open spec fn after_failed_send(s: SqliteView) -> SqliteView {
    SqliteView {
        durability_lag: s.durability_lag.wrapping_sub(1),
        dropped_writes: s.dropped_writes.wrapping_add(1),
        writer_loss_warned: true,
        ..s
    }
}

/// The blobs since the last checkpoint, with `count` more, as far as the
/// machine's integers go.
pub open spec fn since_with(s: SqliteView, count: nat) -> usize {
    if s.since_checkpoint + count <= usize::MAX {
        (s.since_checkpoint + count) as usize
    } else {
        usize::MAX
    }
}

/// The log is to be checkpointed after a batch of `count` blobs was committed.
pub open spec fn checkpoint_due(
    s: SqliteView,
    config: SqliteConfig,
    count: nat,
    success: bool,
) -> bool {
    let every = config.checkpoint_every_blobs;
    count > 0 && success && every is Some && every->0 > 0 && since_with(s, count) >= every->0
}

/// The state after the writer has tried to commit a batch of `count` blobs.
pub open spec fn after_commit(
    s: SqliteView,
    config: SqliteConfig,
    count: usize,
    success: bool,
) -> SqliteView {
    SqliteView {
        durability_lag: s.durability_lag.wrapping_sub(count),
        persisted: if success {
            s.persisted.wrapping_add(count)
        } else {
            s.persisted
        },
        dropped_writes: if success {
            s.dropped_writes
        } else {
            s.dropped_writes.wrapping_add(count)
        },
        since_checkpoint: if checkpoint_due(s, config, count as nat, success) {
            0
        } else if count > 0 && success && config.checkpoint_every_blobs is Some {
            since_with(s, count as nat)
        } else {
            s.since_checkpoint
        },
        ..s
    }
}

/// The blobs that wait to be written, were written, or could not be written.
pub open spec fn accounted(s: SqliteView) -> int {
    s.durability_lag + s.persisted + s.dropped_writes
}

/// Every blob that is to be written is accounted for: it waits, is written, or
/// is counted as dropped, and neither a commit nor the end of the writer loses
/// one, as long as the counts are within the machine's integers.
pub proof fn law_writes_are_accounted_for(
    s: SqliteView,
    config: SqliteConfig,
    bytes: Seq<u8>,
    count: usize,
    success: bool,
)
    requires
        accounted(s) < usize::MAX,
    ensures
        accounted(after_put(s, config, bytes)) == accounted(s) + if !in_memory(
            s.blobs,
            content_key(bytes),
        ) && !s.known.contains(content_key(bytes)) {
            1int
        } else {
            0
        },
        count <= s.durability_lag ==> accounted(after_commit(s, config, count, success))
            == accounted(s),
        1 <= s.durability_lag ==> accounted(after_failed_send(s)) == accounted(s),
{
}

/// What is left to do after bytes were put into the store.
#[derive(Debug)]
pub struct PutStep {
    /// The content hash of the bytes.
    pub hash: ContentHash,
    /// The bytes are to be sent to the writer.
    pub write: bool,
    /// The resident bytes are to be warned of.
    pub warn: bool,
}

/// What became of bytes that were read back.
#[derive(Debug)]
pub struct LoadStep {
    /// The bytes, if they are the right ones.
    pub bytes: Option<Vec<u8>>,
    /// The resident bytes are to be warned of.
    pub warn: bool,
}

/// The bytes that were read, as plain values.
pub open spec fn read_view(read: Option<Vec<u8>>) -> Option<Seq<u8>> {
    match read {
        Some(b) => Some(b@),
        None => None,
    }
}

impl SqliteCas {
    /// How the store is tuned.
    pub closed spec fn settings(&self) -> SqliteConfig {
        self.config
    }

    /// The state is sound, and the count of resident bytes is right.
    pub closed spec fn wf(&self) -> bool {
        &&& sound(self@)
        &&& self.mem_bytes == resident(self@.blobs)
    }

    fn empty(config: SqliteConfig) -> (out: SqliteCas)
        ensures
            out.wf(),
            out@ == fresh(),
            out.settings() == config,
    {
        let out = SqliteCas {
            blobs: Vec::new(),
            known: StringHashMap::new(),
            mem_bytes: 0,
            durability_lag: 0,
            dropped_writes: 0,
            persisted: 0,
            resident_evictions: 0,
            wal_checkpoints: 0,
            wal_checkpoint_failures: 0,
            since_checkpoint: 0,
            soft_cap_warned: false,
            writer_loss_warned: false,
            config,
        };
        assert(out@.blobs =~= Seq::empty());
        assert(out@.known =~= Set::empty());
        out
    }

    /// Where a key is in memory; the number of blobs, where it is not.
    fn position(&self, hash: &ContentHash) -> (at: usize)
        ensures
            at == blob_at(self@.blobs, hash@),
            at <= self.blobs@.len(),
    {
        let ghost views = self@.blobs;
        assert(views.len() == self.blobs@.len());
        let mut i: usize = 0;
        while i < self.blobs.len()
            invariant
                i <= self.blobs@.len(),
                views == self@.blobs,
                views.len() == self.blobs@.len(),
                forall|k: int| 0 <= k < i ==> (#[trigger] views[k]).key != hash@,
            decreases self.blobs@.len() - i,
        {
            assert(views[i as int] == blob_view(self.blobs@[i as int]));
            if self.blobs[i].hash.same(hash) {
                proof {
                    lemma_blob_at(views, hash@, i as int);
                }
                return i;
            }
            i += 1;
        }
        proof {
            lemma_blob_at(views, hash@, i as int);
        }
        i
    }

    /// Checks the soft cap; whether it is to be warned of now.
    fn note_soft_cap(&mut self) -> (warn: bool)
        requires
            old(self).wf(),
        ensures
            final(self).wf(),
            final(self).settings() == old(self).settings(),
            final(self)@ == soft_cap_noted(old(self)@, old(self).settings()),
            warn == over_soft_cap(old(self)@, old(self).settings()),
    {
        let ghost before = self@;
        let warn = match self.config.soft_cap_bytes {
            Some(cap) => self.mem_bytes > cap && !self.soft_cap_warned,
            None => false,
        };
        if warn {
            self.soft_cap_warned = true;
        }
        assert(self@.blobs =~= before.blobs);
        warn
    }

    /// The first blob that may leave the memory; the number of blobs, where
    /// there is none.
    fn next_evictable(&self) -> (at: usize)
        ensures
            at == first_evictable(self@.blobs),
            at <= self.blobs@.len(),
    {
        let ghost views = self@.blobs;
        assert(views.len() == self.blobs@.len());
        let mut i: usize = 0;
        while i < self.blobs.len()
            invariant
                i <= self.blobs@.len(),
                views == self@.blobs,
                views.len() == self.blobs@.len(),
                forall|k: int| 0 <= k < i ==> !(#[trigger] views[k]).evictable,
            decreases self.blobs@.len() - i,
        {
            assert(views[i as int] == blob_view(self.blobs@[i as int]));
            if self.blobs[i].evictable {
                proof {
                    lemma_first_evictable(views, i as int);
                }
                return i;
            }
            i += 1;
        }
        proof {
            lemma_first_evictable(views, i as int);
        }
        i
    }

    /// Enforces the cap on resident bytes.
    fn enforce_resident_cap(&mut self)
        requires
            old(self).wf(),
        ensures
            final(self).wf(),
            final(self).settings() == old(self).settings(),
            final(self)@ == cap_enforced(old(self)@, old(self).settings()),
    {
        let ghost start = self@;
        let ghost config = self.config;
        let cap: usize = match self.config.resident_cap_bytes {
            Some(cap) => cap,
            None => {
                assert(capped(start.blobs, None) == start.blobs);
                assert(start == cap_enforced(start, config));
                return ;
            },
        };
        let begun: usize = self.resident_evictions;
        let mut removed: usize = 0;
        let total: usize = self.blobs.len();
        assert(total == start.blobs.len());
        let mut going = true;
        while going && self.mem_bytes > cap
            invariant
                self.wf(),
                self.config == config,
                config.resident_cap_bytes == Some(cap),
                total == start.blobs.len(),
                self.blobs@.len() == self@.blobs.len(),
                removed == total - self.blobs@.len(),
                self.resident_evictions == begun,
                self@ == (SqliteView { blobs: self@.blobs, ..start }),
                capped(self@.blobs, config.resident_cap_bytes) == capped(
                    start.blobs,
                    config.resident_cap_bytes,
                ),
                !going ==> first_evictable(self@.blobs) == self@.blobs.len(),
            decreases self.blobs@.len(), going as int,
        {
            let at = self.next_evictable();
            if at < self.blobs.len() {
                let ghost had = self@;
                proof {
                    lemma_remove_sound(had, at as int);
                    lemma_resident_remove(had.blobs, at as int);
                    assert(had.blobs[at as int] == blob_view(self.blobs@[at as int]));
                }
                let blob = self.blobs.remove(at);
                self.mem_bytes = self.mem_bytes - blob.bytes.len();
                removed += 1;
                assert(self@.blobs =~= had.blobs.remove(at as int));
            } else {
                going = false;
            }
        }
        self.resident_evictions = begun.wrapping_add(removed);
        let ghost kept = capped(start.blobs, config.resident_cap_bytes);
        assert(kept == self@.blobs);
        assert(self@ == cap_enforced(start, config));
    }

    /// Adds a blob that is not in memory.
    fn insert(&mut self, hash: ContentHash, bytes: Vec<u8>, evictable: bool)
        requires
            old(self).wf(),
            hash@ == content_key(bytes@),
            !in_memory(old(self)@.blobs, hash@),
            resident(old(self)@.blobs) + bytes@.len() <= usize::MAX,
        ensures
            final(self).wf(),
            final(self).settings() == old(self).settings(),
            final(self)@ == with_blob(old(self)@, bytes@, evictable),
    {
        let ghost before = self@;
        let ghost content = bytes@;
        proof {
            lemma_with_blob_sound(before, content, evictable);
        }
        self.mem_bytes = self.mem_bytes + bytes.len();
        self.known.insert(hash.as_str().to_owned(), true);
        self.blobs.push(Blob { hash, bytes, evictable });
        assert(self@.blobs =~= with_blob(before, content, evictable).blobs);
        assert(self@.known =~= with_blob(before, content, evictable).known);
    }

    /// Opens a store over the rows of a database, each of which is validated.
    /// Also gives the keys of the rows whose bytes do not hash to their key,
    /// which are passed over, and whether the resident bytes are to be warned
    /// of.
    pub fn open_rows(config: SqliteConfig, rows: &[StoredRow]) -> (out: (
        SqliteCas,
        Vec<String>,
        bool,
    ))
        requires
            row_bytes(rows@, rows@.len()) <= usize::MAX,
        ensures
            out.0.wf(),
            out.0.settings() == config,
            ({
                let read = after_rows(rows@, config.warm_bytes_on_open, rows@.len());
                &&& out.0@ == cap_enforced(soft_cap_noted(read, config), config)
                &&& out.2 == over_soft_cap(read, config)
            }),
            texts(out.1@) == skipped_keys(rows@, rows@.len()),
    {
        let mut cas = SqliteCas::empty(config);
        let mut skipped: Vec<String> = Vec::new();
        let mut i: usize = 0;
        assert(texts(skipped@) =~= Seq::empty());
        while i < rows.len()
            invariant
                i <= rows@.len(),
                cas.wf(),
                cas.settings() == config,
                cas@ == after_rows(rows@, config.warm_bytes_on_open, i as nat),
                resident(cas@.blobs) <= row_bytes(rows@, i as nat),
                row_bytes(rows@, rows@.len()) <= usize::MAX,
                texts(skipped@) == skipped_keys(rows@, i as nat),
            decreases rows@.len() - i,
        {
            let ghost before = cas@;
            proof {
                lemma_row_bytes(rows@, i as nat + 1, rows@.len());
            }
            let row = &rows[i];
            let hash = ContentHash::of(row.bytes.as_slice());
            if same_text(hash.as_str(), row.key.as_str()) {
                if !cas.known.contains_key(hash.as_str()) {
                    if config.warm_bytes_on_open {
                        proof {
                            lemma_blob_at_is_first(before.blobs, hash@);
                        }
                        cas.insert(hash, vstd::slice::slice_to_vec(&row.bytes), true);
                        proof {
                            lemma_with_blob_sound(before, row.bytes@, true);
                        }
                    } else {
                        cas.known.insert(hash.as_str().to_owned(), true);
                        assert(cas@.blobs =~= before.blobs);
                        assert(cas@.known =~= before.known.insert(row.key@));
                    }
                }
            } else {
                let ghost had = texts(skipped@);
                skipped.push(row.key.clone());
                assert(texts(skipped@) =~= had.push(row.key@));
            }
            i += 1;
        }
        let warn = cas.note_soft_cap();
        cas.enforce_resident_cap();
        (cas, skipped, warn)
    }

    /// Opens a store over the keys of a database alone. Also gives the keys that
    /// are no content hashes, which are passed over.
    pub fn open_keys(config: SqliteConfig, keys: &[String]) -> (out: (SqliteCas, Vec<String>))
        ensures
            out.0.wf(),
            out.0.settings() == config,
            out.0@ == (SqliteView { known: hash_keys(keys@, keys@.len()), ..fresh() }),
            texts(out.1@) == other_keys(keys@, keys@.len()),
    {
        let mut cas = SqliteCas::empty(config);
        let mut skipped: Vec<String> = Vec::new();
        let mut i: usize = 0;
        assert(texts(skipped@) =~= Seq::empty());
        while i < keys.len()
            invariant
                i <= keys@.len(),
                cas.wf(),
                cas.settings() == config,
                cas@ == (SqliteView { known: hash_keys(keys@, i as nat), ..fresh() }),
                texts(skipped@) == other_keys(keys@, i as nat),
            decreases keys@.len() - i,
        {
            let ghost before = cas@;
            match ContentHash::from_hex(keys[i].as_str()) {
                Some(hash) => {
                    cas.known.insert(hash.as_str().to_owned(), true);
                    assert(cas@.blobs =~= before.blobs);
                    assert(cas@.known =~= before.known.insert(keys@[i as int]@));
                },
                None => {
                    let ghost had = texts(skipped@);
                    skipped.push(keys[i].clone());
                    assert(texts(skipped@) =~= had.push(keys@[i as int]@));
                },
            }
            i += 1;
        }
        (cas, skipped)
    }

    /// Puts bytes into the store.
    pub fn put(&mut self, bytes: &[u8]) -> (out: PutStep)
        requires
            old(self).wf(),
            resident(old(self)@.blobs) + bytes@.len() <= usize::MAX,
        ensures
            final(self).wf(),
            final(self).settings() == old(self).settings(),
            final(self)@ == after_put(old(self)@, old(self).settings(), bytes@),
            out.hash@ == content_key(bytes@),
            out.write == (!in_memory(old(self)@.blobs, content_key(bytes@))
                && !old(self)@.known.contains(content_key(bytes@))),
            out.warn == (!in_memory(old(self)@.blobs, content_key(bytes@)) && over_soft_cap(
                with_blob(old(self)@, bytes@, false),
                old(self).settings(),
            )),
    {
        let hash = ContentHash::of(bytes);
        let ghost before = self@;
        let at = self.position(&hash);
        if at < self.blobs.len() {
            return PutStep { hash, write: false, warn: false };
        }
        assert(!in_memory(before.blobs, hash@));
        let write = !self.known.contains_key(hash.as_str());
        self.insert(hash.clone(), vstd::slice::slice_to_vec(bytes), false);
        let warn = self.note_soft_cap();
        if write {
            let ghost mid = self@;
            self.durability_lag = self.durability_lag.wrapping_add(1);
            assert(self@.blobs =~= mid.blobs);
        }
        PutStep { hash, write, warn }
    }

    /// The writer has ended, so the bytes that were to be sent to it will not be
    /// written. Whether that is to be warned of: only the first time.
    pub fn send_failed(&mut self) -> (warn: bool)
        requires
            old(self).wf(),
        ensures
            final(self).wf(),
            final(self).settings() == old(self).settings(),
            final(self)@ == after_failed_send(old(self)@),
            warn == !old(self)@.writer_loss_warned,
    {
        let ghost before = self@;
        let warn = !self.writer_loss_warned;
        self.durability_lag = self.durability_lag.wrapping_sub(1);
        self.dropped_writes = self.dropped_writes.wrapping_add(1);
        self.writer_loss_warned = true;
        assert(self@.blobs =~= before.blobs);
        warn
    }

    /// The bytes under a key, if they are in memory. Where they are not, they
    /// are to be read from the database and handed to `loaded`.
    pub fn get(&mut self, hash: &ContentHash) -> (out: Option<Vec<u8>>)
        requires
            old(self).wf(),
        ensures
            final(self).wf(),
            final(self).settings() == old(self).settings(),
            match out {
                Some(bytes) => {
                    let at = blob_at(old(self)@.blobs, hash@);
                    &&& in_memory(old(self)@.blobs, hash@)
                    &&& bytes@ == old(self)@.blobs[at].bytes
                    &&& content_key(bytes@) == hash@
                    &&& final(self)@ == (SqliteView {
                        blobs: touched(old(self)@.blobs, at),
                        ..old(self)@
                    })
                },
                None => !in_memory(old(self)@.blobs, hash@) && final(self)@ == old(self)@,
            },
    {
        let ghost before = self@;
        let at = self.position(hash);
        if at == self.blobs.len() {
            return None;
        }
        proof {
            lemma_blob_at_is_first(before.blobs, hash@);
            lemma_touched_sound(before, at as int);
            assert(before.blobs[at as int] == blob_view(self.blobs@[at as int]));
        }
        let bytes = vstd::slice::slice_to_vec(&self.blobs[at].bytes);
        if self.blobs[at].evictable {
            let blob = self.blobs.remove(at);
            self.blobs.push(blob);
        }
        assert(self@.blobs =~= touched(before.blobs, at as int));
        Some(bytes)
    }

    /// Takes the bytes that were read from the database for a key, if any.
    /// Bytes with another content hash are refused; the right ones stay in
    /// memory, within the cap.
    pub fn loaded(&mut self, hash: &ContentHash, read: Option<Vec<u8>>) -> (out: LoadStep)
        requires
            old(self).wf(),
            read is Some ==> resident(old(self)@.blobs) + read->0@.len() <= usize::MAX,
        ensures
            final(self).wf(),
            final(self).settings() == old(self).settings(),
            final(self)@ == after_load(
                old(self)@,
                old(self).settings(),
                hash@,
                read_view(read),
            ),
            match out.bytes {
                Some(bytes) => {
                    &&& read is Some
                    &&& content_key(read->0@) == hash@
                    &&& content_key(bytes@) == hash@
                    &&& !in_memory(old(self)@.blobs, hash@) ==> bytes@ == read->0@
                },
                None => read is None || content_key(read->0@) != hash@,
            },
            out.warn == (read is Some && content_key(read->0@) == hash@ && !in_memory(
                old(self)@.blobs,
                hash@,
            ) && over_soft_cap(with_blob(old(self)@, read->0@, true), old(self).settings())),
    {
        let bytes = match read {
            Some(bytes) => bytes,
            None => {
                return LoadStep { bytes: None, warn: false };
            },
        };
        if !ContentHash::of(bytes.as_slice()).same(hash) {
            return LoadStep { bytes: None, warn: false };
        }
        if let Some(there) = self.get(hash) {
            return LoadStep { bytes: Some(there), warn: false };
        }
        let copy = vstd::slice::slice_to_vec(&bytes);
        self.insert(hash.clone(), copy, true);
        let warn = self.note_soft_cap();
        self.enforce_resident_cap();
        LoadStep { bytes: Some(bytes), warn }
    }

    /// The writer has tried to commit a batch of `count` blobs. Whether the log
    /// is to be checkpointed now.
    pub fn committed(&mut self, count: usize, success: bool) -> (checkpoint: bool)
        requires
            old(self).wf(),
        ensures
            final(self).wf(),
            final(self).settings() == old(self).settings(),
            checkpoint == checkpoint_due(old(self)@, old(self).settings(), count as nat, success),
            final(self)@ == after_commit(old(self)@, old(self).settings(), count, success),
    {
        let ghost before = self@;
        let mut checkpoint = false;
        if success {
            self.persisted = self.persisted.wrapping_add(count);
            if count > 0 {
                if let Some(every) = self.config.checkpoint_every_blobs {
                    let since: usize = self.since_checkpoint.saturating_add(count);
                    self.since_checkpoint = since;
                    if every > 0 && since >= every {
                        checkpoint = true;
                        self.since_checkpoint = 0;
                    }
                }
            }
        } else {
            self.dropped_writes = self.dropped_writes.wrapping_add(count);
        }
        self.durability_lag = self.durability_lag.wrapping_sub(count);
        assert(self@.blobs =~= before.blobs);
        checkpoint
    }

    /// The writer has tried to checkpoint the log.
    pub fn checkpointed(&mut self, success: bool)
        requires
            old(self).wf(),
        ensures
            final(self).wf(),
            final(self).settings() == old(self).settings(),
            final(self)@ == (SqliteView {
                wal_checkpoints: old(self)@.wal_checkpoints.wrapping_add(1),
                wal_checkpoint_failures: if success {
                    old(self)@.wal_checkpoint_failures
                } else {
                    old(self)@.wal_checkpoint_failures.wrapping_add(1)
                },
                ..old(self)@
            }),
    {
        let ghost before = self@;
        self.wal_checkpoints = self.wal_checkpoints.wrapping_add(1);
        if !success {
            self.wal_checkpoint_failures = self.wal_checkpoint_failures.wrapping_add(1);
        }
        assert(self@.blobs =~= before.blobs);
    }

    /// How many blobs are known.
    pub fn len(&self) -> (n: usize)
        ensures
            n == self@.known.len(),
    {
        self.known.len()
    }

    /// How many blobs wait to be written.
    pub fn durability_lag(&self) -> (n: usize)
        ensures
            n == self@.durability_lag,
    {
        self.durability_lag
    }

    /// How many blobs could not be written.
    pub fn dropped_writes(&self) -> (n: usize)
        ensures
            n == self@.dropped_writes,
    {
        self.dropped_writes
    }

    /// How many blobs were written.
    pub fn persisted(&self) -> (n: usize)
        ensures
            n == self@.persisted,
    {
        self.persisted
    }

    /// How many bytes are in memory.
    pub fn mem_bytes(&self) -> (n: usize)
        requires
            self.wf(),
        ensures
            n == resident(self@.blobs),
    {
        self.mem_bytes
    }

    /// How many blobs have left the memory.
    pub fn resident_evictions(&self) -> (n: usize)
        ensures
            n == self@.resident_evictions,
    {
        self.resident_evictions
    }

    /// How many checkpoints were tried.
    pub fn wal_checkpoints(&self) -> (n: usize)
        ensures
            n == self@.wal_checkpoints,
    {
        self.wal_checkpoints
    }

    /// How many checkpoints failed.
    pub fn wal_checkpoint_failures(&self) -> (n: usize)
        ensures
            n == self@.wal_checkpoint_failures,
    {
        self.wal_checkpoint_failures
    }
}

/// The keys among the first `n` rows whose bytes do not hash to their key.
pub open spec fn skipped_keys(rows: Seq<StoredRow>, n: nat) -> Seq<Seq<char>>
    decreases n,
{
    if n == 0 {
        Seq::empty()
    } else {
        let before = skipped_keys(rows, (n - 1) as nat);
        if content_key(rows[n - 1].bytes@) != rows[n - 1].key@ {
            before.push(rows[n - 1].key@)
        } else {
            before
        }
    }
}

/// The keys among the first `n` that are no content hashes.
pub open spec fn other_keys(keys: Seq<String>, n: nat) -> Seq<Seq<char>>
    decreases n,
{
    if n == 0 {
        Seq::empty()
    } else {
        let before = other_keys(keys, (n - 1) as nat);
        let key = keys[n - 1]@;
        if key.len() == 64 && all_hex(key) {
            before
        } else {
            before.push(key)
        }
    }
}

proof fn lemma_row_bytes(rows: Seq<StoredRow>, n: nat, m: nat)
    requires
        n <= m,
    ensures
        row_bytes(rows, n) <= row_bytes(rows, m),
    decreases m,
{
    if n < m {
        lemma_row_bytes(rows, n, (m - 1) as nat);
    }
}

// ---------------------------------------------------------------------------
// Laws
// ---------------------------------------------------------------------------

/// Bytes that were put into the store are in memory under their hash, whatever
/// the caps are, and they may not leave it.
pub proof fn law_put_is_resident(s: SqliteView, config: SqliteConfig, bytes: Seq<u8>)
    requires
        sound(s),
    ensures
        in_memory(after_put(s, config, bytes).blobs, content_key(bytes)),
        !in_memory(s.blobs, content_key(bytes)) ==> {
            let at = blob_at(after_put(s, config, bytes).blobs, content_key(bytes));
            let blob = after_put(s, config, bytes).blobs[at];
            blob.bytes == bytes && !blob.evictable
        },
{
    let key = content_key(bytes);
    if !in_memory(s.blobs, key) {
        let now = after_put(s, config, bytes).blobs;
        lemma_blob_at_is_first(s.blobs, key);
        assert forall|k: int| 0 <= k < s.blobs.len() implies (#[trigger] now[k]).key != key by {
            assert(now[k] == s.blobs[k]);
        }
        lemma_blob_at(now, key, s.blobs.len() as int);
    }
}

/// The blobs that may not leave the memory.
pub open spec fn pinned(blobs: Seq<BlobView>) -> Seq<BlobView>
    decreases blobs.len(),
{
    if blobs.len() == 0 {
        Seq::empty()
    } else if blobs.last().evictable {
        pinned(blobs.drop_last())
    } else {
        pinned(blobs.drop_last()).push(blobs.last())
    }
}

proof fn lemma_pinned_remove(blobs: Seq<BlobView>, at: int)
    requires
        0 <= at < blobs.len(),
        blobs[at].evictable,
    ensures
        pinned(blobs.remove(at)) == pinned(blobs),
    decreases blobs.len(),
{
    let left = blobs.remove(at);
    if at == blobs.len() - 1 {
        assert(left =~= blobs.drop_last());
    } else {
        let before = blobs.drop_last();
        assert(before[at] == blobs[at]);
        lemma_pinned_remove(before, at);
        assert(left.drop_last() =~= before.remove(at));
        assert(left.last() == blobs.last());
    }
}

/// Enforcing the cap keeps every blob that may not leave, and ends at or below
/// the cap, or with no blob left that may leave.
pub proof fn law_cap_spares_new_bytes(blobs: Seq<BlobView>, cap: Option<usize>)
    ensures
        pinned(capped(blobs, cap)) == pinned(blobs),
        cap is Some ==> resident(capped(blobs, cap)) <= cap->0 || first_evictable(
            capped(blobs, cap),
        ) == capped(blobs, cap).len(),
        cap is None ==> capped(blobs, cap) == blobs,
    decreases blobs.len(),
{
    let at = first_evictable(blobs);
    lemma_first_is_evictable(blobs);
    if cap is Some && resident(blobs) > cap->0 && 0 <= at < blobs.len() {
        lemma_pinned_remove(blobs, at);
        law_cap_spares_new_bytes(blobs.remove(at), cap);
    }
}

/// Every operation on the store keeps its state sound.
pub proof fn law_state_stays_sound(
    s: SqliteView,
    config: SqliteConfig,
    key: Seq<char>,
    bytes: Seq<u8>,
)
    requires
        sound(s),
        resident(s.blobs) + bytes.len() <= usize::MAX,
    ensures
        sound(after_put(s, config, bytes)),
        sound(after_load(s, config, key, Some(bytes))),
        sound(after_load(s, config, key, None)),
{
    if !in_memory(s.blobs, content_key(bytes)) {
        lemma_with_blob_sound(s, bytes, false);
        lemma_with_blob_sound(s, bytes, true);
        let more = soft_cap_noted(with_blob(s, bytes, true), config);
        lemma_capped_sound(more, config.resident_cap_bytes);
        let kept = cap_enforced(more, config);
        let plain = SqliteView { blobs: kept.blobs, ..more };
        assert(sound(plain));
        assert(sound(kept));
    }
    if content_key(bytes) == key && in_memory(s.blobs, key) {
        lemma_blob_at_is_first(s.blobs, key);
        lemma_touched_sound(s, blob_at(s.blobs, key));
    }
}

proof fn lemma_capped_sound(s: SqliteView, cap: Option<usize>)
    requires
        sound(s),
    ensures
        sound((SqliteView { blobs: capped(s.blobs, cap), ..s })),
    decreases s.blobs.len(),
{
    let at = first_evictable(s.blobs);
    if cap is Some && resident(s.blobs) > cap->0 && 0 <= at < s.blobs.len() {
        lemma_remove_sound(s, at);
        lemma_capped_sound(SqliteView { blobs: s.blobs.remove(at), ..s }, cap);
    }
}

/// Nothing is forgotten: every known key stays known.
pub proof fn law_known_keys_stay_known(
    s: SqliteView,
    config: SqliteConfig,
    key: Seq<char>,
    read: Option<Seq<u8>>,
    bytes: Seq<u8>,
)
    ensures
        s.known.subset_of(after_put(s, config, bytes).known),
        s.known.subset_of(after_load(s, config, key, read).known),
        after_put(s, config, bytes).known.contains(content_key(bytes)) || in_memory(
            s.blobs,
            content_key(bytes),
        ),
{
}

/// Bytes leave memory only to get under the cap, and the ones that may leave do so
/// in order, first to last.
pub proof fn law_eviction_order(blobs: Seq<BlobView>, cap: usize, i: int)
    ensures
        resident(blobs) <= cap ==> capped(blobs, Some(cap)) == blobs,
        (forall|k: int| 0 <= k < blobs.len() ==> !(#[trigger] blobs[k]).evictable) ==> capped(
            blobs,
            Some(cap),
        ) == blobs,
        resident(blobs) > cap && 0 <= i < blobs.len() && blobs[i].evictable && (forall|k: int|
            0 <= k < i ==> !(#[trigger] blobs[k]).evictable) ==> capped(blobs, Some(cap)) == capped(
            blobs.take(i) + blobs.skip(i + 1),
            Some(cap),
        ),
{
    lemma_evictable_at(blobs, i);
    if 0 <= i < blobs.len() {
        assert(blobs.remove(i) =~= blobs.take(i) + blobs.skip(i + 1));
    }
}

proof fn lemma_evictable_at(blobs: Seq<BlobView>, i: int)
    ensures
        0 <= i < blobs.len() && blobs[i].evictable && (forall|k: int|
            0 <= k < i ==> !(#[trigger] blobs[k]).evictable) ==> first_evictable(blobs) == i,
        (forall|k: int| 0 <= k < blobs.len() ==> !(#[trigger] blobs[k]).evictable)
            ==> first_evictable(blobs) == blobs.len(),
    decreases blobs.len(),
{
    if blobs.len() > 0 {
        let rest = blobs.skip(1);
        assert(forall|k: int| 0 <= k < rest.len() ==> #[trigger] rest[k] == blobs[k + 1]);
        lemma_evictable_at(rest, i - 1);
        assert(blobs[0] == blobs.first());
    }
}

/// What is in memory, and how much: the bytes of every blob.
pub proof fn law_memory(blobs: Seq<BlobView>, blob: BlobView, key: Seq<char>)
    ensures
        resident(Seq::empty()) == 0,
        resident(blobs.push(blob)) == resident(blobs) + blob.bytes.len(),
        in_memory(blobs, key) <==> exists|i: int|
            0 <= i < blobs.len() && (#[trigger] blobs[i]).key == key,
        in_memory(blobs, key) ==> 0 <= blob_at(blobs, key) < blobs.len() && blobs[blob_at(
            blobs,
            key,
        )].key == key,
{
    assert(blobs.push(blob).drop_last() =~= blobs);
    lemma_blob_found(blobs, key);
}

proof fn lemma_blob_found(blobs: Seq<BlobView>, key: Seq<char>)
    ensures
        0 <= blob_at(blobs, key) <= blobs.len(),
        blob_at(blobs, key) < blobs.len() ==> blobs[blob_at(blobs, key)].key == key,
        blob_at(blobs, key) == blobs.len() ==> forall|i: int|
            0 <= i < blobs.len() ==> (#[trigger] blobs[i]).key != key,
    decreases blobs.len(),
{
    if blobs.len() > 0 && blobs[0].key != key {
        let rest = blobs.skip(1);
        assert(forall|k: int| 0 <= k < rest.len() ==> #[trigger] rest[k] == blobs[k + 1]);
        lemma_blob_found(rest, key);
        if blob_at(blobs, key) == blobs.len() {
            assert forall|i: int| 0 <= i < blobs.len() implies (#[trigger] blobs[i]).key != key by {
                if i > 0 {
                    assert(rest[i - 1].key != key);
                }
            }
        }
    }
}

/// Putting bytes that are in memory changes nothing. Bytes that are read back are
/// taken only if they have the hash they were asked for by; those in memory
/// already become the last to leave.
pub proof fn law_put_and_load(
    s: SqliteView,
    config: SqliteConfig,
    key: Seq<char>,
    bytes: Seq<u8>,
)
    ensures
        in_memory(s.blobs, content_key(bytes)) ==> after_put(s, config, bytes) == s,
        !in_memory(s.blobs, content_key(bytes)) ==> after_put(s, config, bytes).blobs
            == s.blobs.push(BlobView { key: content_key(bytes), bytes, evictable: false })
            && after_put(s, config, bytes).known == s.known.insert(content_key(bytes)) && after_put(
            s,
            config,
            bytes,
        ).durability_lag == (if s.known.contains(content_key(bytes)) {
            s.durability_lag
        } else {
            s.durability_lag.wrapping_add(1)
        }),
        after_load(s, config, key, None) == s,
        content_key(bytes) != key ==> after_load(s, config, key, Some(bytes)) == s,
        content_key(bytes) == key && !in_memory(s.blobs, key) ==> after_load(
            s,
            config,
            key,
            Some(bytes),
        ).blobs == capped(
            s.blobs.push(BlobView { key, bytes, evictable: true }),
            config.resident_cap_bytes,
        ) && after_load(s, config, key, Some(bytes)).known == s.known.insert(key),
        content_key(bytes) == key && in_memory(s.blobs, key) ==> after_load(
            s,
            config,
            key,
            Some(bytes),
        ).blobs == ({
            let at = blob_at(s.blobs, key);
            if s.blobs[at].evictable {
                s.blobs.take(at) + s.blobs.skip(at + 1) + seq![s.blobs[at]]
            } else {
                s.blobs
            }
        }),
{
    lemma_blob_found(s.blobs, key);
    let at = blob_at(s.blobs, key);
    if in_memory(s.blobs, key) {
        assert(s.blobs.remove(at).push(s.blobs[at]) =~= s.blobs.take(at) + s.blobs.skip(at + 1)
            + seq![s.blobs[at]]);
    }
}

/// What becomes of a batch of writes: it is no longer waited for, and counts as
/// persisted or as dropped. A checkpoint is due when so many were persisted since
/// the last.
pub proof fn law_commit(s: SqliteView, config: SqliteConfig, count: usize, success: bool)
    ensures
        ({
            let t = after_commit(s, config, count, success);
            let every = config.checkpoint_every_blobs;
            let since = if s.since_checkpoint + count <= usize::MAX {
                s.since_checkpoint + count
            } else {
                usize::MAX as int
            };
            let due = count > 0 && success && every is Some && every->0 > 0 && since >= every->0;
            &&& t.durability_lag == s.durability_lag.wrapping_sub(count)
            &&& success ==> t.persisted == s.persisted.wrapping_add(count) && t.dropped_writes
                == s.dropped_writes
            &&& !success ==> t.persisted == s.persisted && t.dropped_writes
                == s.dropped_writes.wrapping_add(count)
            &&& checkpoint_due(s, config, count as nat, success) <==> due
            &&& due ==> t.since_checkpoint == 0
            &&& !due && count > 0 && success && every is Some ==> t.since_checkpoint == since
            &&& !(count > 0 && success && every is Some) ==> t.since_checkpoint
                == s.since_checkpoint
            &&& t.blobs == s.blobs && t.known == s.known
        }),
        after_failed_send(s).durability_lag == s.durability_lag.wrapping_sub(1),
        after_failed_send(s).dropped_writes == s.dropped_writes.wrapping_add(1),
        after_failed_send(s).writer_loss_warned,
        after_failed_send(s).blobs == s.blobs && after_failed_send(s).known == s.known,
{
}

/// What is known after opening a store: every key whose bytes have that hash, and,
/// where only the keys were read, every key of 64 small hexadecimal digits. The
/// others are told of, every one.
pub proof fn law_opened(rows: Seq<StoredRow>, warm: bool, keys: Seq<String>, n: nat, key: Seq<char>)
    requires
        n <= rows.len(),
        n <= keys.len(),
    ensures
        after_rows(rows, warm, n).known.contains(key) <==> exists|i: int|
            0 <= i < n && (#[trigger] rows[i]).key@ == key && content_key(rows[i].bytes@) == key,
        hash_keys(keys, n).contains(key) <==> key.len() == 64 && all_hex(key) && exists|i: int|
            0 <= i < n && (#[trigger] keys[i])@ == key,
        skipped_keys(rows, n) == rows.take(n as int).filter(
            |r: StoredRow| content_key(r.bytes@) != r.key@,
        ).map_values(|r: StoredRow| r.key@),
        other_keys(keys, n) == keys.take(n as int).filter(
            |k: String| !(k@.len() == 64 && all_hex(k@)),
        ).map_values(|k: String| k@),
    decreases n,
{
    reveal(Seq::filter);
    let bad = |r: StoredRow| content_key(r.bytes@) != r.key@;
    let odd = |k: String| !(k@.len() == 64 && all_hex(k@));
    let row_key = |r: StoredRow| r.key@;
    let text = |k: String| k@;
    if n > 0 {
        let m = (n - 1) as nat;
        law_opened(rows, warm, keys, m, key);
        assert(rows.take(n as int).drop_last() =~= rows.take(m as int));
        assert(keys.take(n as int).drop_last() =~= keys.take(m as int));
        assert(rows.take(n as int).last() == rows[n - 1]);
        assert(keys.take(n as int).last() == keys[n - 1]);
        assert(skipped_keys(rows, n) =~= rows.take(n as int).filter(bad).map_values(row_key));
        assert(other_keys(keys, n) =~= keys.take(n as int).filter(odd).map_values(text));
        let row = rows[m as int];
        let before = after_rows(rows, warm, m);
        law_known_after_row(before, warm, row.key@, row.bytes@, key);
        if exists|i: int|
            0 <= i < n && (#[trigger] rows[i]).key@ == key && content_key(rows[i].bytes@) == key {
            let i = choose|i: int|
                0 <= i < n && (#[trigger] rows[i]).key@ == key && content_key(rows[i].bytes@)
                    == key;
            if i < m {
                assert(rows[i].key@ == key);
            }
        }
        if row.key@ == key && content_key(row.bytes@) == key {
            assert(rows[m as int].key@ == key);
        }
        if keys[m as int]@ == key {
            assert(keys[m as int]@ == key);
        }
    } else {
        assert(rows.take(0) =~= Seq::empty());
        assert(keys.take(0) =~= Seq::empty());
        assert(skipped_keys(rows, n) =~= rows.take(0).filter(bad).map_values(row_key));
        assert(other_keys(keys, n) =~= keys.take(0).filter(odd).map_values(text));
    }
}

/// A stored row makes its key known if its bytes have that hash, and nothing else.
pub proof fn law_known_after_row(
    s: SqliteView,
    warm: bool,
    row_key: Seq<char>,
    bytes: Seq<u8>,
    key: Seq<char>,
)
    ensures
        after_row(s, warm, row_key, bytes).known.contains(key) <==> s.known.contains(key) || (
        row_key == key && content_key(bytes) == key),
{
}

/// A prefix can be read by if it has at least 8 characters, all of them small
/// hexadecimal digits.
pub proof fn law_readable(prefix: Seq<char>)
    ensures
        readable(prefix) <==> prefix.len() >= 8 && forall|i: int|
            0 <= i < prefix.len() ==> ('0' <= #[trigger] prefix[i] <= '9' || 'a' <= prefix[i]
                <= 'f'),
{
    assert forall|i: int| 0 <= i < prefix.len() implies is_hex_char(#[trigger] prefix[i]) == ('0'
        <= prefix[i] <= '9' || 'a' <= prefix[i] <= 'f') by {
        vstd::utf8::char_u32_cast(prefix[i], prefix[i] as u32);
    }
    if readable(prefix) {
        assert forall|i: int| 0 <= i < prefix.len() implies ('0' <= #[trigger] prefix[i] <= '9'
            || 'a' <= prefix[i] <= 'f') by {
            assert(is_hex_char(prefix[i]));
        }
    }
}

/// A store begins empty. It warns once, when what is in memory first exceeds the
/// soft cap.
pub proof fn law_warnings(s: SqliteView, config: SqliteConfig)
    ensures
        fresh().blobs.len() == 0,
        fresh().known == Set::<Seq<char>>::empty(),
        accounted(fresh()) == 0,
        !fresh().soft_cap_warned && !fresh().writer_loss_warned,
        over_soft_cap(s, config) <==> config.soft_cap_bytes is Some && resident(s.blobs)
            > config.soft_cap_bytes->0 && !s.soft_cap_warned,
        soft_cap_noted(s, config).soft_cap_warned <==> s.soft_cap_warned || over_soft_cap(s, config),
        soft_cap_noted(s, config).blobs == s.blobs && soft_cap_noted(s, config).known == s.known,
        !over_soft_cap(soft_cap_noted(s, config), config),
{
}

/// Enforcing the cap counts every blob that leaves, and changes nothing else.
pub proof fn law_cap_enforced(s: SqliteView, config: SqliteConfig)
    ensures
        cap_enforced(s, config).blobs == capped(s.blobs, config.resident_cap_bytes),
        cap_enforced(s, config).known == s.known,
        cap_enforced(s, config).durability_lag == s.durability_lag,
        cap_enforced(s, config).resident_evictions == s.resident_evictions.wrapping_add(
            (s.blobs.len() - capped(s.blobs, config.resident_cap_bytes).len()) as usize,
        ),
{
}

/// What is in memory after opening a store: with its bytes read, every blob that is
/// known, with the first bytes stored under its key; else nothing.
pub proof fn law_warm_start(rows: Seq<StoredRow>, n: nat, i: int, key: Seq<char>)
    requires
        n <= rows.len(),
    ensures
        after_rows(rows, false, n).blobs.len() == 0,
        in_memory(after_rows(rows, true, n).blobs, key) <==> after_rows(
            rows,
            true,
            n,
        ).known.contains(key),
        0 <= i < after_rows(rows, true, n).blobs.len() ==> {
            let blob = after_rows(rows, true, n).blobs[i];
            &&& blob.key == content_key(blob.bytes)
            &&& blob.evictable
            &&& exists|k: int|
                0 <= k < n && (#[trigger] rows[k]).key@ == blob.key && rows[k].bytes@ == blob.bytes
        },
    decreases n,
{
    if n > 0 {
        let m = (n - 1) as nat;
        let before = after_rows(rows, true, m);
        let now = after_rows(rows, true, n);
        let row = rows[m as int];
        law_warm_start(rows, m, i, key);
        law_memory(before.blobs, BlobView { key, bytes: Seq::empty(), evictable: true }, key);
        law_memory(now.blobs, BlobView { key, bytes: Seq::empty(), evictable: true }, key);
        if content_key(row.bytes@) == row.key@ && !before.known.contains(row.key@) {
            let new = BlobView { key: row.key@, bytes: row.bytes@, evictable: true };
            assert(now.blobs == before.blobs.push(new));
            assert(now.blobs[before.blobs.len() as int] == new);
            if in_memory(before.blobs, key) {
                let k = blob_at(before.blobs, key);
                assert(now.blobs[k].key == key);
            }
            if in_memory(now.blobs, key) {
                let k = blob_at(now.blobs, key);
                if k < before.blobs.len() {
                    assert(before.blobs[k].key == key);
                }
            }
            if i == before.blobs.len() {
                assert(rows[m as int].key@ == new.key);
            }
        }
    } else {
        law_memory(
            Seq::empty(),
            BlobView { key, bytes: Seq::empty(), evictable: true },
            key,
        );
        assert(after_rows(rows, true, 0).blobs.len() == 0);
        if in_memory(after_rows(rows, true, 0).blobs, key) {
            assert(after_rows(rows, true, 0).blobs =~= Seq::empty());
        }
    }
}

} // verus!
