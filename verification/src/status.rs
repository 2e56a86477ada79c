//! What is told of the store behind the handles.
use crate::cas::{object_bytes, Cas, MemoryCas};
use crate::hash::{all_hex, ContentHash};
use crate::limits::RetrieveLimits;
use crate::sqlite::{resident, SqliteCas, SqliteConfig, SqliteDiskUsage, SqliteView};
use crate::text::{decimal, decimal_of, decimal_of_u128};
use vstd::prelude::*;

verus! {

/// How the bytes behind a handle are found in a persistent store.
#[derive(Debug)]
pub enum Route {
    /// By the whole key.
    Exact(ContentHash),
    /// By the beginning of the key.
    Prefix,
}

/// How the bytes behind a handle are found: a whole key is looked up as one, and
/// anything else as the beginning of one.
pub fn route_of(handle: &str) -> (out: Route)
    ensures
        match out {
            Route::Exact(hash) => handle@.len() == 64 && all_hex(handle@) && hash@ == handle@,
            Route::Prefix => !(handle@.len() == 64 && all_hex(handle@)),
        },
{
    match ContentHash::from_hex(handle) {
        Some(hash) => Route::Exact(hash),
        None => Route::Prefix,
    }
}

/// The lines about the limits on a retrieval.
pub open spec fn limits_text(limits: RetrieveLimits) -> Seq<char> {
    "\nretrieve_default_bytes: "@ + decimal(limits.default_bytes as nat)
        + "\nretrieve_max_bytes: "@ + decimal(limits.max_bytes as nat)
}

fn limits_lines(limits: RetrieveLimits) -> (out: String)
    ensures
        out@ == limits_text(limits),
{
    "\nretrieve_default_bytes: ".to_owned().concat(
        decimal_of(limits.default_bytes).as_str(),
    ).concat("\nretrieve_max_bytes: ").concat(decimal_of(limits.max_bytes).as_str())
}

/// What is told of a store in memory.
pub fn memory_status_text(cas: &MemoryCas, limits: RetrieveLimits) -> (out: String)
    ensures
        out@ == "store: memory\nhandles: "@ + decimal(cas.objects().dom().len())
            + "\nresident_bytes: "@ + decimal(object_bytes(cas.objects())) + limits_text(limits),
{
    "store: memory\nhandles: ".to_owned().concat(decimal_of(cas.len()).as_str()).concat(
        "\nresident_bytes: ",
    ).concat(decimal_of_u128(cas.mem_bytes()).as_str()).concat(limits_lines(limits).as_str())
}

/// A limit that may not be set.
pub open spec fn cap_text(cap: Option<usize>) -> Seq<char> {
    match cap {
        Some(n) => decimal(n as nat),
        None => "unset"@,
    }
}

fn cap_text_of(cap: Option<usize>) -> (out: String)
    ensures
        out@ == cap_text(cap),
{
    match cap {
        Some(n) => decimal_of(n),
        None => "unset".to_owned(),
    }
}

/// A switch.
pub open spec fn switch_text(b: bool) -> Seq<char> {
    if b {
        "true"@
    } else {
        "false"@
    }
}

fn switch_text_of(b: bool) -> (out: &'static str)
    ensures
        out@ == switch_text(b),
{
    if b {
        "true"
    } else {
        "false"
    }
}

/// All bytes of the files; the greatest number there is where they do not fit.
pub open spec fn disk_total(disk: SqliteDiskUsage) -> nat {
    if disk.db_bytes + disk.wal_bytes + disk.shm_bytes <= usize::MAX {
        (disk.db_bytes + disk.wal_bytes + disk.shm_bytes) as nat
    } else {
        usize::MAX as nat
    }
}

/// What is told of a persistent store: what it holds and where.
pub open spec fn held_text(s: SqliteView, disk: SqliteDiskUsage) -> Seq<char> {
    "store: sqlite\nhandles: "@ + decimal(s.known.len()) + "\nresident_bytes: "@ + decimal(
        resident(s.blobs),
    ) + "\nsqlite_db_bytes: "@ + decimal(disk.db_bytes as nat) + "\nsqlite_wal_bytes: "@ + decimal(
        disk.wal_bytes as nat,
    ) + "\nsqlite_shm_bytes: "@ + decimal(disk.shm_bytes as nat) + "\nsqlite_total_bytes: "@
        + decimal(disk_total(disk))
}

/// What is told of a persistent store: how it is tuned, and what became of its
/// writes.
pub open spec fn writes_text(s: SqliteView, config: SqliteConfig) -> Seq<char> {
    "\nsoft_cap_bytes: "@ + cap_text(config.soft_cap_bytes) + "\nresident_cap_bytes: "@ + cap_text(
        config.resident_cap_bytes,
    ) + "\nresident_evictions: "@ + decimal(s.resident_evictions as nat)
        + "\nwarm_bytes_on_open: "@ + switch_text(config.warm_bytes_on_open)
        + "\ntrust_hashes_on_open: "@ + switch_text(config.trust_hashes_on_open)
        + "\ncheckpoint_every_blobs: "@ + cap_text(config.checkpoint_every_blobs)
        + "\nwal_checkpoints: "@ + decimal(s.wal_checkpoints as nat)
        + "\nwal_checkpoint_failures: "@ + decimal(s.wal_checkpoint_failures as nat)
        + "\ndurability_lag: "@ + decimal(s.durability_lag as nat) + "\ndropped_writes: "@
        + decimal(s.dropped_writes as nat) + "\npersisted_blobs_this_run: "@ + decimal(
        s.persisted as nat,
    )
}

/// What is told of a persistent store.
pub fn sqlite_status_text(
    cas: &SqliteCas,
    config: SqliteConfig,
    disk: SqliteDiskUsage,
    limits: RetrieveLimits,
) -> (out: String)
    requires
        cas.wf(),
    ensures
        out@ == held_text(cas@, disk) + writes_text(cas@, config) + limits_text(limits),
{
    let held = "store: sqlite\nhandles: ".to_owned().concat(
        decimal_of(cas.len()).as_str(),
    ).concat("\nresident_bytes: ").concat(decimal_of(cas.mem_bytes()).as_str()).concat(
        "\nsqlite_db_bytes: ",
    ).concat(decimal_of(disk.db_bytes).as_str()).concat("\nsqlite_wal_bytes: ").concat(
        decimal_of(disk.wal_bytes).as_str(),
    ).concat("\nsqlite_shm_bytes: ").concat(decimal_of(disk.shm_bytes).as_str()).concat(
        "\nsqlite_total_bytes: ",
    ).concat(decimal_of(disk.total_bytes()).as_str());
    let writes = "\nsoft_cap_bytes: ".to_owned().concat(
        cap_text_of(config.soft_cap_bytes).as_str(),
    ).concat("\nresident_cap_bytes: ").concat(
        cap_text_of(config.resident_cap_bytes).as_str(),
    ).concat("\nresident_evictions: ").concat(
        decimal_of(cas.resident_evictions()).as_str(),
    ).concat("\nwarm_bytes_on_open: ").concat(switch_text_of(config.warm_bytes_on_open)).concat(
        "\ntrust_hashes_on_open: ",
    ).concat(switch_text_of(config.trust_hashes_on_open)).concat(
        "\ncheckpoint_every_blobs: ",
    ).concat(cap_text_of(config.checkpoint_every_blobs).as_str()).concat(
        "\nwal_checkpoints: ",
    ).concat(decimal_of(cas.wal_checkpoints()).as_str()).concat(
        "\nwal_checkpoint_failures: ",
    ).concat(decimal_of(cas.wal_checkpoint_failures()).as_str()).concat(
        "\ndurability_lag: ",
    ).concat(decimal_of(cas.durability_lag()).as_str()).concat("\ndropped_writes: ").concat(
        decimal_of(cas.dropped_writes()).as_str(),
    ).concat("\npersisted_blobs_this_run: ").concat(decimal_of(cas.persisted()).as_str());
    held.concat(writes.as_str()).concat(limits_lines(limits).as_str())
}

/// The status of a store: how many handles it has and how much they take, then
/// what it is set to and what became of its writes.
pub proof fn law_status(
    s: SqliteView,
    disk: SqliteDiskUsage,
    config: SqliteConfig,
    limits: RetrieveLimits,
    n: usize,
)
    ensures
        disk.db_bytes + disk.wal_bytes + disk.shm_bytes <= usize::MAX ==> disk_total(disk)
            == disk.db_bytes + disk.wal_bytes + disk.shm_bytes,
        disk.db_bytes + disk.wal_bytes + disk.shm_bytes > usize::MAX ==> disk_total(disk)
            == usize::MAX,
        cap_text(Some(n)) == decimal(n as nat) && cap_text(None) == "unset"@,
        switch_text(true) == "true"@ && switch_text(false) == "false"@,
        limits_text(limits) == "\nretrieve_default_bytes: "@ + decimal(limits.default_bytes as nat)
            + "\nretrieve_max_bytes: "@ + decimal(limits.max_bytes as nat),
        held_text(s, disk) == "store: sqlite\nhandles: "@ + decimal(s.known.len())
            + "\nresident_bytes: "@ + decimal(resident(s.blobs)) + "\nsqlite_db_bytes: "@ + decimal(
            disk.db_bytes as nat,
        ) + "\nsqlite_wal_bytes: "@ + decimal(disk.wal_bytes as nat) + "\nsqlite_shm_bytes: "@
            + decimal(disk.shm_bytes as nat) + "\nsqlite_total_bytes: "@ + decimal(
            disk_total(disk),
        ),
        writes_text(s, config) == "\nsoft_cap_bytes: "@ + cap_text(config.soft_cap_bytes)
            + "\nresident_cap_bytes: "@ + cap_text(config.resident_cap_bytes)
            + "\nresident_evictions: "@ + decimal(s.resident_evictions as nat)
            + "\nwarm_bytes_on_open: "@ + switch_text(config.warm_bytes_on_open)
            + "\ntrust_hashes_on_open: "@ + switch_text(config.trust_hashes_on_open)
            + "\ncheckpoint_every_blobs: "@ + cap_text(config.checkpoint_every_blobs)
            + "\nwal_checkpoints: "@ + decimal(s.wal_checkpoints as nat)
            + "\nwal_checkpoint_failures: "@ + decimal(s.wal_checkpoint_failures as nat)
            + "\ndurability_lag: "@ + decimal(s.durability_lag as nat) + "\ndropped_writes: "@
            + decimal(s.dropped_writes as nat) + "\npersisted_blobs_this_run: "@ + decimal(
            s.persisted as nat,
        ),
{
}

} // verus!
