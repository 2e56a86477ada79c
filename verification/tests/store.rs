//! The content-addressed store and the bookkeeping of the persistent one.
use coffer::cas::{Cas, MemoryCas};
use coffer::hash::ContentHash;
use coffer::limits::{RetrieveLimits, DEFAULT_MAX_ROWS};
use coffer::render::render_json_rows;
use coffer::sqlite::{read_blob, SqliteCas, SqliteConfig, SqliteDiskUsage, StoredRow};
use coffer::status::{memory_status_text, route_of, sqlite_status_text, Route};
use coffer::tools::{coffer_query, unfold_shared_cas_result};
use rusqlite::Connection;
use std::cell::RefCell;

#[test]
fn put_then_get_is_exact() {
    let mut cas = MemoryCas::new();
    let h = cas.put(b"hello");
    let got = cas.get(&h);
    assert_eq!(got.as_deref(), Some(&b"hello"[..]));
}

#[test]
fn hash_is_full_hex_and_short_is_prefix() {
    let h = ContentHash::of(b"x");
    assert_eq!(h.as_str().len(), 64);
    assert_eq!(h.short(), &h.as_str()[..12]);
    assert_eq!(ContentHash::short_of(b"x"), h.short());
    let mut out = String::from("prefix:");
    ContentHash::push_short_of(b"x", &mut out);
    assert_eq!(out, format!("prefix:{}", h.short()));
}

#[test]
fn hash_of_known_bytes() {
    assert_eq!(
        ContentHash::of(b"abc").as_str(),
        "ba7816bf8f01cfea414140de5dae2223b00361a396177a9cb410ff61f20015ad"
    );
    assert_eq!(
        ContentHash::of(b"").as_str(),
        "e3b0c44298fc1c149afbf4c8996fb92427ae41e4649b934ca495991b7852b855"
    );
}

#[test]
fn from_hex_roundtrips_and_rejects_bad_input() {
    let h = ContentHash::of(b"payload");
    assert_eq!(ContentHash::from_hex(h.as_str()), Some(h.clone()));
    assert_eq!(
        ContentHash::from_hex(h.short()),
        None,
        "a 12-char prefix is not a key"
    );
    assert_eq!(ContentHash::from_hex("zz"), None);
    assert_eq!(
        ContentHash::from_hex(&"A".repeat(64)),
        None,
        "uppercase is not our digest form"
    );
}

#[test]
fn put_is_idempotent() {
    let mut cas = MemoryCas::new();
    cas.put(b"same");
    cas.put(b"same");
    assert_eq!(cas.len(), 1);
    assert!(!cas.is_empty());
    assert!(MemoryCas::default().is_empty());
}

#[test]
fn empty_bytes_round_trip() {
    let mut cas = MemoryCas::new();
    let h = cas.put(b"");
    let got = cas.get(&h);
    assert_eq!(got.as_deref(), Some(&b""[..]));
    assert!(cas.contains(&h));
    assert!(!cas.contains(&ContentHash::of(b"absent")));
}

#[test]
fn get_returns_exact_bytes() {
    let mut cas = MemoryCas::new();
    for n in 0..64usize {
        let bytes: Vec<u8> = (0..n).map(|i| (i * 37 + n) as u8).collect();
        let h = cas.put(&bytes);
        assert_eq!(cas.get(&h), Some(bytes.clone()));
        assert_eq!(h, MemoryCas::new().put(&bytes));
    }
    assert_eq!(cas.len(), 64);
}

/// A database table and what a store does with it.
struct Db(Connection);

impl Db {
    fn new() -> Self {
        let conn = Connection::open_in_memory().unwrap();
        conn.execute_batch(
            "CREATE TABLE IF NOT EXISTS cas(hash TEXT PRIMARY KEY, bytes BLOB) WITHOUT ROWID;",
        )
        .unwrap();
        Db(conn)
    }

    fn insert(&self, key: &str, bytes: &[u8]) {
        self.0
            .execute(
                "INSERT OR REPLACE INTO cas(hash, bytes) VALUES (?1, ?2)",
                (key, bytes),
            )
            .unwrap();
    }

    fn rows(&self) -> Vec<StoredRow> {
        let mut stmt = self.0.prepare("SELECT hash, bytes FROM cas").unwrap();
        let mut rows = stmt.query([]).unwrap();
        let mut out = Vec::new();
        while let Some(row) = rows.next().unwrap() {
            out.push(StoredRow {
                key: row.get(0).unwrap(),
                bytes: row.get(1).unwrap(),
            });
        }
        out
    }

    fn keys(&self) -> Vec<String> {
        self.rows().into_iter().map(|r| r.key).collect()
    }

    fn read_one(&self, hash: &ContentHash) -> Option<Vec<u8>> {
        self.0
            .query_row(
                "SELECT bytes FROM cas WHERE hash = ?1",
                [hash.as_str()],
                |row| row.get(0),
            )
            .ok()
    }

    fn read_prefix(&self, prefix: &str) -> Option<Vec<u8>> {
        let mut stmt = self
            .0
            .prepare("SELECT bytes FROM cas WHERE hash LIKE ?1 || '%' LIMIT 2")
            .unwrap();
        let mut rows = stmt.query([prefix]).unwrap();
        let mut found: Vec<Vec<u8>> = Vec::new();
        while let Some(row) = rows.next().unwrap() {
            found.push(row.get(0).unwrap());
        }
        read_blob(prefix, &found)
    }
}

/// The store over a database, with a writer that commits on `flush`.
struct Store<'a> {
    db: &'a Db,
    cas: SqliteCas,
    queue: Vec<(ContentHash, Vec<u8>)>,
    skipped: Vec<String>,
}

impl<'a> Store<'a> {
    fn open(db: &'a Db) -> Self {
        Self::open_with_config(db, SqliteConfig::default())
    }

    fn open_with_config(db: &'a Db, config: SqliteConfig) -> Self {
        let (cas, skipped) = if config.trust_hashes_on_open && !config.warm_bytes_on_open {
            SqliteCas::open_keys(config, &db.keys())
        } else {
            let (cas, skipped, _) = SqliteCas::open_rows(config, &db.rows());
            (cas, skipped)
        };
        Store {
            db,
            cas,
            queue: Vec::new(),
            skipped,
        }
    }

    fn put(&mut self, bytes: &[u8]) -> ContentHash {
        let step = self.cas.put(bytes);
        if step.write {
            self.queue.push((step.hash.clone(), bytes.to_vec()));
        }
        step.hash
    }

    fn get(&mut self, hash: &ContentHash) -> Option<Vec<u8>> {
        if let Some(bytes) = self.cas.get(hash) {
            return Some(bytes);
        }
        let read = self.db.read_one(hash);
        self.cas.loaded(hash, read).bytes
    }

    fn flush(&mut self) {
        let count = self.queue.len();
        if count == 0 {
            return;
        }
        for (hash, bytes) in self.queue.drain(..) {
            self.db.insert(hash.as_str(), &bytes);
        }
        if self.cas.committed(count, true) {
            self.cas.checkpointed(true);
        }
    }
}

/// The store as the library takes one: what is put is committed at once.
struct Shared<'a>(RefCell<Store<'a>>);

impl Cas for Shared<'_> {
    fn put(&mut self, bytes: &[u8]) -> ContentHash {
        let mut store = self.0.borrow_mut();
        let hash = store.put(bytes);
        store.flush();
        hash
    }

    fn get(&self, hash: &ContentHash) -> Option<Vec<u8>> {
        self.0.borrow_mut().get(hash)
    }

    fn len(&self) -> usize {
        self.0.borrow().cas.len()
    }
}

#[test]
fn put_get_roundtrip_and_idempotent() {
    let db = Db::new();
    let mut cas = Store::open(&db);

    let h = cas.put(b"hello");
    assert_eq!(cas.get(&h).as_deref(), Some(&b"hello"[..]));

    let empty = cas.put(b"");
    assert_eq!(cas.get(&empty).as_deref(), Some(&b""[..]));
    cas.put(b"hello");
    assert_eq!(cas.cas.len(), 2);

    cas.flush();
    assert_eq!(cas.cas.durability_lag(), 0);
    assert_eq!(cas.cas.persisted(), 2);
    assert_eq!(cas.cas.dropped_writes(), 0);
}

#[test]
fn persists_across_reopen() {
    let db = Db::new();
    {
        let mut cas = Store::open(&db);
        cas.put(b"durable");
        cas.put(b"");
        cas.flush();
    }

    let mut cas = Store::open(&db);
    assert_eq!(cas.cas.len(), 2, "both blobs should be known from disk");
    assert_eq!(
        cas.get(&ContentHash::of(b"durable")).as_deref(),
        Some(&b"durable"[..])
    );
    assert_eq!(cas.get(&ContentHash::of(b"")).as_deref(), Some(&b""[..]));
    assert_eq!(cas.cas.dropped_writes(), 0);
}

#[test]
fn reopen_is_lazy_until_get() {
    let db = Db::new();
    {
        let mut cas = Store::open(&db);
        cas.put(b"first");
        cas.put(b"second");
        cas.flush();
    }

    let mut cas = Store::open(&db);
    assert_eq!(cas.cas.len(), 2);
    assert_eq!(
        cas.cas.mem_bytes(),
        0,
        "historical blobs should not be resident on open"
    );

    assert_eq!(
        cas.get(&ContentHash::of(b"first")).as_deref(),
        Some(&b"first"[..])
    );
    assert_eq!(cas.cas.mem_bytes(), 5);
    assert_eq!(
        cas.get(&ContentHash::of(b"first")).as_deref(),
        Some(&b"first"[..])
    );
    assert_eq!(
        cas.cas.mem_bytes(),
        5,
        "repeated gets must not double-count resident bytes"
    );
    assert_eq!(
        cas.get(&ContentHash::of(b"second")).as_deref(),
        Some(&b"second"[..])
    );
    assert_eq!(cas.cas.mem_bytes(), 11);
}

#[test]
fn can_warm_reopened_bytes_when_configured() {
    let db = Db::new();
    {
        let mut cas = Store::open(&db);
        cas.put(b"first");
        cas.put(b"second");
        cas.flush();
    }

    let mut cas = Store::open_with_config(
        &db,
        SqliteConfig {
            warm_bytes_on_open: true,
            ..SqliteConfig::default()
        },
    );
    assert_eq!(cas.cas.len(), 2);
    assert_eq!(cas.cas.mem_bytes(), 11);
    assert_eq!(
        cas.get(&ContentHash::of(b"second")).as_deref(),
        Some(&b"second"[..])
    );
    assert_eq!(cas.cas.mem_bytes(), 11);
}

#[test]
fn resident_cap_evicts_lazily_loaded_historical_blobs() {
    let db = Db::new();
    let first = ContentHash::of(b"aaaa");
    let second = ContentHash::of(b"bbbbb");
    {
        let mut cas = Store::open(&db);
        cas.put(b"aaaa");
        cas.put(b"bbbbb");
        cas.flush();
    }

    let mut cas = Store::open_with_config(
        &db,
        SqliteConfig {
            resident_cap_bytes: Some(5),
            ..SqliteConfig::default()
        },
    );
    assert_eq!(cas.cas.mem_bytes(), 0);

    assert_eq!(cas.get(&first).as_deref(), Some(&b"aaaa"[..]));
    assert_eq!(cas.cas.mem_bytes(), 4);
    assert_eq!(cas.get(&second).as_deref(), Some(&b"bbbbb"[..]));
    assert_eq!(
        cas.cas.mem_bytes(),
        5,
        "loading the second blob should evict the older first blob"
    );
    assert_eq!(cas.cas.resident_evictions(), 1);

    assert_eq!(cas.get(&first).as_deref(), Some(&b"aaaa"[..]));
    assert_eq!(cas.cas.mem_bytes(), 4);
    assert_eq!(
        cas.cas.resident_evictions(),
        2,
        "the cap should remain enforceable after reloading an evicted blob"
    );
}

#[test]
fn the_least_recently_used_blob_leaves_first() {
    let db = Db::new();
    {
        let mut cas = Store::open(&db);
        cas.put(b"aa");
        cas.put(b"bb");
        cas.put(b"cc");
        cas.flush();
    }
    let mut cas = Store::open_with_config(
        &db,
        SqliteConfig {
            resident_cap_bytes: Some(4),
            ..SqliteConfig::default()
        },
    );
    let (a, b, c) = (
        ContentHash::of(b"aa"),
        ContentHash::of(b"bb"),
        ContentHash::of(b"cc"),
    );
    cas.get(&a);
    cas.get(&b);
    cas.get(&a);
    cas.get(&c);
    assert_eq!(cas.cas.resident_evictions(), 1);
    assert!(cas.cas.get(&a).is_some(), "used again after b");
    assert!(cas.cas.get(&b).is_none(), "the least recently used");
    assert!(cas.cas.get(&c).is_some());
}

#[test]
fn resident_cap_does_not_evict_current_run_puts() {
    let db = Db::new();
    let mut cas = Store::open_with_config(
        &db,
        SqliteConfig {
            resident_cap_bytes: Some(1),
            ..SqliteConfig::default()
        },
    );
    let h = cas.put(b"new bytes");

    assert_eq!(cas.get(&h).as_deref(), Some(&b"new bytes"[..]));
    assert_eq!(
        cas.cas.mem_bytes(),
        9,
        "new current-run puts stay resident even when the historical cache cap is lower"
    );
    assert_eq!(cas.cas.resident_evictions(), 0);
}

#[test]
fn checkpoint_every_blobs_runs_wal_checkpoint_after_commits() {
    let db = Db::new();
    let mut cas = Store::open_with_config(
        &db,
        SqliteConfig {
            checkpoint_every_blobs: Some(1),
            ..SqliteConfig::default()
        },
    );

    cas.put(b"checkpoint me");
    cas.flush();

    assert_eq!(cas.cas.durability_lag(), 0);
    assert_eq!(cas.cas.dropped_writes(), 0);
    assert_eq!(cas.cas.persisted(), 1);
    assert_eq!(cas.cas.wal_checkpoints(), 1);
    assert_eq!(cas.cas.wal_checkpoint_failures(), 0);
}

#[test]
fn checkpoints_wait_for_enough_blobs() {
    let (mut cas, _, _) = SqliteCas::open_rows(
        SqliteConfig {
            checkpoint_every_blobs: Some(3),
            ..SqliteConfig::default()
        },
        &[],
    );
    assert!(!cas.committed(2, true));
    assert!(!cas.committed(5, false), "a failed batch counts for nothing");
    assert!(cas.committed(1, true));
    cas.checkpointed(false);
    assert_eq!(cas.wal_checkpoints(), 1);
    assert_eq!(cas.wal_checkpoint_failures(), 1);
    assert_eq!(cas.persisted(), 3);
    assert_eq!(cas.dropped_writes(), 5);
    assert!(!cas.committed(2, true), "the count starts anew");
}

#[test]
fn a_lost_writer_is_counted_and_warned_of_once() {
    let (mut cas, _, _) = SqliteCas::open_rows(SqliteConfig::default(), &[]);
    assert!(cas.put(b"a").write);
    assert_eq!(cas.durability_lag(), 1);
    assert!(cas.send_failed());
    assert!(cas.put(b"b").write);
    assert!(!cas.send_failed());
    assert_eq!(cas.durability_lag(), 0);
    assert_eq!(cas.dropped_writes(), 2);
    assert_eq!(
        cas.get(&ContentHash::of(b"a")).as_deref(),
        Some(&b"a"[..]),
        "memory stays authoritative"
    );
}

#[test]
fn every_write_is_accounted_for() {
    let (mut cas, _, _) = SqliteCas::open_rows(SqliteConfig::default(), &[]);
    let total =
        |cas: &SqliteCas| cas.durability_lag() + cas.persisted() + cas.dropped_writes();
    for i in 0..5u8 {
        assert!(cas.put(&[i]).write);
        assert_eq!(total(&cas), i as usize + 1);
    }
    assert!(!cas.put(&[0]).write);
    cas.committed(2, true);
    cas.committed(1, false);
    cas.send_failed();
    assert_eq!(total(&cas), 5);
    assert_eq!(cas.durability_lag(), 1);
    assert_eq!(cas.persisted(), 2);
    assert_eq!(cas.dropped_writes(), 2);
}

#[test]
fn the_soft_cap_is_warned_of_once() {
    let (mut cas, _, warn) = SqliteCas::open_rows(
        SqliteConfig {
            soft_cap_bytes: Some(3),
            ..SqliteConfig::default()
        },
        &[],
    );
    assert!(!warn);
    assert!(!cas.put(b"abc").warn);
    assert!(cas.put(b"d").warn);
    assert!(!cas.put(b"e").warn);
}

#[test]
fn skips_a_corrupt_row_on_load() {
    let db = Db::new();
    {
        let mut cas = Store::open(&db);
        cas.put(b"good");
        cas.flush();
    }
    db.insert(&"0".repeat(64), b"not the preimage");

    let mut cas = Store::open(&db);
    assert_eq!(
        cas.cas.len(),
        1,
        "the corrupt row must be skipped, the good one kept"
    );
    assert_eq!(cas.skipped, vec!["0".repeat(64)]);
    assert_eq!(
        cas.get(&ContentHash::of(b"good")).as_deref(),
        Some(&b"good"[..])
    );
    let bogus = ContentHash::of(b"not the preimage");
    assert!(bogus.as_str() != "0".repeat(64));
}

#[test]
fn trust_hashes_on_open_skips_byte_scan_but_get_still_rejects_corrupt_rows() {
    let db = Db::new();
    {
        let mut cas = Store::open(&db);
        cas.put(b"good");
        cas.flush();
    }
    db.insert(&"0".repeat(64), b"not the preimage");

    let mut cas = Store::open_with_config(
        &db,
        SqliteConfig {
            trust_hashes_on_open: true,
            ..SqliteConfig::default()
        },
    );
    assert_eq!(
        cas.cas.len(),
        2,
        "fast open counts syntactically valid keys before lazy byte verification"
    );
    assert_eq!(cas.cas.mem_bytes(), 0);
    assert_eq!(
        cas.get(&ContentHash::of(b"good")).as_deref(),
        Some(&b"good"[..])
    );
    let bogus = ContentHash::from_hex(&"0".repeat(64)).unwrap();
    assert_eq!(cas.get(&bogus), None);
}

#[test]
fn keys_that_are_no_hashes_are_passed_over() {
    let config = SqliteConfig {
        trust_hashes_on_open: true,
        ..SqliteConfig::default()
    };
    let keys = vec!["a".repeat(64), "A".repeat(64), "short".to_string()];
    let (cas, skipped) = SqliteCas::open_keys(config, &keys);
    assert_eq!(cas.len(), 1);
    assert_eq!(skipped, vec!["A".repeat(64), "short".to_string()]);
}

#[test]
fn read_blob_reads_a_writers_committed_bytes() {
    let db = Db::new();
    let h = {
        let mut cas = Store::open(&db);
        let h = cas.put(b"offloaded original");
        cas.flush();
        h
    };
    assert_eq!(
        db.read_prefix(h.short()).as_deref(),
        Some(&b"offloaded original"[..])
    );
    assert_eq!(db.read_prefix(ContentHash::of(b"absent").short()), None);
    assert_eq!(
        db.read_prefix("short"),
        None,
        "too-short prefix is rejected"
    );
}

#[test]
fn read_blob_rejects_ambiguous_hash_prefixes() {
    let db = Db::new();
    let first = b"prefix-collision-19675";
    let second = b"prefix-collision-39911";
    assert_eq!(&ContentHash::of(first).as_str()[..8], "10022e94");
    assert_eq!(&ContentHash::of(second).as_str()[..8], "10022e94");
    {
        let mut cas = Store::open(&db);
        cas.put(first);
        cas.put(second);
        cas.flush();
    }

    assert_eq!(db.read_prefix("10022e94"), None);
    assert_eq!(
        db.read_prefix(&ContentHash::of(first).as_str()[..16])
            .as_deref(),
        Some(&first[..])
    );
}

#[test]
fn read_blob_refuses_bytes_under_a_foreign_key() {
    let found = vec![b"not the preimage".to_vec()];
    assert_eq!(read_blob(&"0".repeat(12), &found), None);
}

#[test]
fn mem_bytes_tracks_resident_payload() {
    let db = Db::new();
    let mut cas = Store::open(&db);
    cas.put(b"abc");
    cas.put(b"de");
    cas.put(b"abc"); // duplicate: no additional bytes
    assert_eq!(cas.cas.mem_bytes(), 5);
}

#[test]
fn total_bytes_adds_up_and_saturates() {
    let usage = SqliteDiskUsage {
        db_bytes: 4096,
        wal_bytes: 100,
        shm_bytes: 32,
    };
    assert_eq!(usage.total_bytes(), 4228);
    let usage = SqliteDiskUsage {
        db_bytes: usize::MAX,
        wal_bytes: 1,
        shm_bytes: 0,
    };
    assert_eq!(usage.total_bytes(), usize::MAX);
}

const LIMITS: RetrieveLimits = RetrieveLimits {
    default_bytes: 65536,
    max_bytes: 1048576,
};

#[test]
fn status_reports_memory_store_metrics() {
    let mut cas = MemoryCas::new();
    cas.put(b"abc");
    cas.put(b"defg");
    let status = memory_status_text(&cas, LIMITS);
    assert!(status.contains("store: memory"), "{status}");
    assert!(status.contains("handles: 2"), "{status}");
    assert!(status.contains("resident_bytes: 7"), "{status}");
    assert!(status.contains("retrieve_default_bytes:"), "{status}");
    assert!(status.contains("retrieve_max_bytes:"), "{status}");
    assert_eq!(
        status,
        "store: memory\nhandles: 2\nresident_bytes: 7\nretrieve_default_bytes: 65536\nretrieve_max_bytes: 1048576"
    );
}

#[test]
fn status_reports_sqlite_durability_metrics() {
    let config = SqliteConfig {
        resident_cap_bytes: Some(10),
        ..SqliteConfig::default()
    };
    let (mut cas, _, _) = SqliteCas::open_rows(config, &[]);
    cas.put(b"sqlite status");
    assert!(!cas.committed(1, true));
    let disk = SqliteDiskUsage {
        db_bytes: 1,
        wal_bytes: 2,
        shm_bytes: 3,
    };
    assert_eq!(
        sqlite_status_text(&cas, config, disk, LIMITS),
        "store: sqlite\nhandles: 1\nresident_bytes: 13\nsqlite_db_bytes: 1\nsqlite_wal_bytes: 2\nsqlite_shm_bytes: 3\nsqlite_total_bytes: 6\nsoft_cap_bytes: unset\nresident_cap_bytes: 10\nresident_evictions: 0\nwarm_bytes_on_open: false\ntrust_hashes_on_open: false\ncheckpoint_every_blobs: unset\nwal_checkpoints: 0\nwal_checkpoint_failures: 0\ndurability_lag: 0\ndropped_writes: 0\npersisted_blobs_this_run: 1\nretrieve_default_bytes: 65536\nretrieve_max_bytes: 1048576"
    );
}

#[test]
fn sqlite_store_accepts_unique_sentinel_prefix_as_handle() {
    let db = Db::new();
    let hash = {
        let mut cas = Store::open(&db);
        let hash = cas.put(br#"[{"id":0},{"id":1},{"id":2}]"#);
        cas.flush();
        hash
    };
    assert!(matches!(route_of(hash.as_str()), Route::Exact(exact) if exact == hash));
    assert!(matches!(route_of(hash.short()), Route::Prefix));

    let bytes = db
        .read_prefix(hash.short())
        .expect("unique sentinel prefix should resolve in shared SQLite CAS");
    assert_eq!(&bytes[..], br#"[{"id":0},{"id":1},{"id":2}]"#);
    let rows = render_json_rows(&bytes, Some(1), Some(1), DEFAULT_MAX_ROWS).unwrap();
    assert!(rows.contains(r#""id": 1"#), "{rows}");

    assert!(
        db.read_prefix(&hash.as_str()[..7]).is_none(),
        "prefixes shorter than the shared-CAS sentinel floor must not resolve"
    );
}

#[test]
fn sqlite_handle_store_survives_new_server_instance() {
    let db = Db::new();
    let handle = {
        let mut server = Store::open(&db);
        let handle = server.put(b"persistent stderr\nerror[E0308]\n");
        server.flush();
        assert_eq!(
            server.get(&handle).as_deref(),
            Some(&b"persistent stderr\nerror[E0308]\n"[..])
        );
        handle
    };

    let mut reopened = Store::open(&db);
    assert_eq!(
        reopened.get(&handle).as_deref(),
        Some(&b"persistent stderr\nerror[E0308]\n"[..])
    );
}

#[test]
fn unfold_shared_cas_returns_bounded_window_from_sentinel_hash() {
    let db = Db::new();
    let mut cas = Store::open(&db);
    let hash = cas.put(b"0123456789");
    cas.flush();

    let result = unfold_shared_cas_result(
        Ok(db.read_prefix(hash.short())),
        Some(3),
        Some(4),
        false,
        RetrieveLimits {
            default_bytes: 3,
            max_bytes: 8,
        },
    );

    assert!(result.ok);
    assert_eq!(result.text, "bytes 3..7 of 10 (3 before, 3 after)\n3456");
}

#[test]
fn query_sentinel_is_retrievable_from_sqlite_store() {
    let db = Db::new();
    let mut server = Shared(RefCell::new(Store::open(&db)));
    let rows: Vec<String> = (0..30)
        .map(|i| {
            format!(
                r#"{{"id":{i},"status":"{}","payload":"row-{i:02}-{}"}}"#,
                if i == 17 { "open" } else { "closed" },
                "x".repeat(200)
            )
        })
        .collect();
    let input = format!("[{}]", rows.join(",")).into_bytes();
    let handle = server.put(&input);
    let held = server.get(&handle).unwrap();
    assert_eq!(held, input);

    let result = coffer_query(&mut server, Some(&held), "id", "eq", "17");
    assert!(result.ok);
    let prefix = result
        .text
        .split_once("<<cof:")
        .and_then(|(_, rest)| rest.split_whitespace().next())
        .expect("query should elide non-matching rows");
    assert!(result.text.contains("row-17-"), "{}", result.text);

    let unfolded = unfold_shared_cas_result(
        Ok(db.read_prefix(prefix)),
        Some(0),
        Some(80),
        false,
        RetrieveLimits {
            default_bytes: 80,
            max_bytes: 256,
        },
    );
    assert!(unfolded.ok, "{}", unfolded.text);
    assert!(unfolded.text.contains("\"id\":0"), "{}", unfolded.text);
}

#[test]
fn unfold_shared_cas_enforces_full_retrieve_cap() {
    let db = Db::new();
    let mut cas = Store::open(&db);
    let hash = cas.put(b"0123456789");
    cas.flush();

    let result = unfold_shared_cas_result(
        Ok(db.read_prefix(hash.short())),
        None,
        None,
        true,
        RetrieveLimits {
            default_bytes: 3,
            max_bytes: 8,
        },
    );

    assert!(!result.ok);
    assert!(
        result.text.contains("COFFER_MCP_MAX_RETRIEVE_BYTES=8"),
        "{}",
        result.text
    );
}

#[test]
fn unfolding_what_is_not_there_is_an_error() {
    let limits = RetrieveLimits {
        default_bytes: 3,
        max_bytes: 8,
    };
    let absent = unfold_shared_cas_result(Ok(None), None, None, false, limits);
    assert!(!absent.ok);
    assert_eq!(
        absent.text,
        "no bytes for that sentinel hash in the shared CAS (wrong hash, or it was never offloaded here)"
    );
    let broken = unfold_shared_cas_result(Err("locked".to_string()), None, None, false, limits);
    assert!(!broken.ok);
    assert_eq!(broken.text, "shared CAS read failed: locked");
}
