use std::hash::{Hash, Hasher};

use storyteller_opds_proxy::config::{Environment, ProxyConfig};
use storyteller_opds_proxy::download_queue::{
    cache_is_expired, cache_is_fresh, cache_key, cache_path, clear_job, finish_job, job_status,
    jobs, mark_job_failed, mark_job_preparing, start_or_get, unique_tmp_path, CachedFile,
    DownloadState, Fnv1a64, JobStatus,
};

const BOOK: &str = "http://upstream:8001/b/1?format=readaloud";
const MISSING: CachedFile = CachedFile { exists: false, age_secs: None };

fn config(cache_dir: &str, ttl: &str) -> ProxyConfig {
    ProxyConfig::from_env(Environment {
        storyteller_url: None,
        public_url: None,
        cache_dir: Some(cache_dir.to_string()),
        listen_addr: None,
        threads: None,
        max_body_bytes: Some("1000".to_string()),
        cache_ttl_secs: Some(ttl.to_string()),
    })
}

struct Reference(Fnv1a64);

impl Hasher for Reference {
    fn finish(&self) -> u64 {
        self.0.finish()
    }

    fn write(&mut self, bytes: &[u8]) {
        self.0.write(bytes);
    }
}

#[test]
fn the_hash_is_fnv1a() {
    let mut a = Fnv1a64::new();
    a.write(b"a");
    assert_eq!(a.finish(), 0xaf63dc4c8601ec8c);
    let mut foobar = Fnv1a64::new();
    foobar.write(b"foobar");
    assert_eq!(foobar.finish(), 0x85944171f73967e8);
    let mut nothing = Fnv1a64::new();
    assert_eq!(nothing.finish(), 0);
    nothing.write(b"");
    assert_eq!(nothing.finish(), 0xcbf29ce484222325);
}

#[test]
fn a_key_is_the_hash_of_address_and_credentials() {
    for (url, auth) in [(BOOK, None), (BOOK, Some("Basic abc")), ("", Some("")), ("\u{e9}", None)] {
        let mut hash = Reference(Fnv1a64::new());
        url.hash(&mut hash);
        auth.unwrap_or("").hash(&mut hash);
        let auth = auth.map(|a| a.to_string());
        assert_eq!(cache_key(url, &auth), format!("{:016x}", hash.finish()));
    }
    assert_eq!(cache_key(BOOK, &None), "f4f0548daac410ec");
    assert_eq!(cache_key(BOOK, &Some("Basic abc".to_string())), "3b7d503625a3e370");
    assert_eq!(cache_key("", &None), "0a99c907b6f64763");
}

#[test]
fn no_credentials_are_empty_credentials() {
    assert_eq!(cache_key(BOOK, &None), cache_key(BOOK, &Some(String::new())));
    assert_ne!(cache_key(BOOK, &None), cache_key(BOOK, &Some(" ".to_string())));
}

#[test]
fn books_are_kept_in_the_cache_directory() {
    let key = cache_key(BOOK, &None);
    assert_eq!(cache_path(&config("/cache", "1"), BOOK, &None), format!("/cache/{}.epub", key));
    assert_eq!(cache_path(&config("/cache/", "1"), BOOK, &None), format!("/cache/{}.epub", key));
    assert_eq!(cache_path(&config("", "1"), BOOK, &None), format!("{}.epub", key));
    let path = std::path::PathBuf::from("./cache").join(format!("{}.epub", key));
    assert_eq!(cache_path(&config("./cache", "1"), BOOK, &None), path.to_str().unwrap());
}

#[test]
fn temporary_files_stand_beside_the_book() {
    assert_eq!(unique_tmp_path("/c/k.epub", "download", 0), "/c/k.download.0.tmp");
    assert_eq!(
        unique_tmp_path("/c.d/k", "stripped", 340282366920938463463374607431768211455),
        "/c.d/k.stripped.340282366920938463463374607431768211455.tmp"
    );
    assert_eq!(unique_tmp_path("a.b.c", "x", 1090), "a.b.x.1090.tmp");
    assert_eq!(unique_tmp_path("..x", "l", 42), "..l.42.tmp");
    for path in [
        "/c/k.epub", "k.epub", "./a.b/k", "a.b.c", "k.", "a/b/", "a.b//", "a.bcd/", "a.b/.", "a/./.",
        ".hidden", "x/.hidden", "x/.hidden.y/", "...", "a..b", "", "/", "//", ".", "./.", "/.", "..",
        "a/..", "a.b/../", "./..", "x/. .y",
    ] {
        let expected = std::path::PathBuf::from(path).with_extension("l.42.tmp");
        assert_eq!(unique_tmp_path(path, "l", 42), expected.to_str().unwrap());
    }
}

#[test]
fn temporary_files_differ() {
    assert_ne!(unique_tmp_path("k.epub", "a", 1), unique_tmp_path("k.epub", "b", 1));
    assert_ne!(unique_tmp_path("k.epub", "a", 1), unique_tmp_path("k.epub", "a", 2));
    assert_ne!(unique_tmp_path("k.epub", "a", 1), "k.epub");
}

#[test]
fn files_in_the_cache_grow_too_old() {
    let file = |age| CachedFile { exists: true, age_secs: age };
    assert!(!cache_is_fresh(&MISSING, 0));
    assert!(!cache_is_fresh(&MISSING, 10));
    assert!(cache_is_fresh(&file(None), 0));
    assert!(cache_is_fresh(&file(Some(u64::MAX)), 0));
    assert!(cache_is_fresh(&file(Some(10)), 10));
    assert!(!cache_is_fresh(&file(Some(11)), 10));
    assert!(!cache_is_fresh(&file(None), 10));
    assert!(cache_is_expired(&file(Some(11)), 10));
    assert!(!cache_is_expired(&file(Some(10)), 10));
    assert!(!cache_is_expired(&file(Some(11)), 0));
    assert!(!cache_is_expired(&file(None), 10));
    assert!(!cache_is_expired(&CachedFile { exists: false, age_secs: Some(11) }, 10));
}

#[test]
fn a_table_of_preparations() {
    let mut table = jobs();
    assert!(job_status(&table, "k").is_none());
    mark_job_preparing(&mut table, "k".to_string());
    assert!(matches!(job_status(&table, "k"), Some(JobStatus::Preparing)));
    assert!(job_status(&table, "l").is_none());
    mark_job_failed(&mut table, "k".to_string(), "why".to_string());
    match job_status(&table, "k") {
        Some(JobStatus::Failed(error)) => assert_eq!(error, "why"),
        _ => panic!("not failed"),
    }
    clear_job(&mut table, "k");
    assert!(job_status(&table, "k").is_none());
}

#[test]
fn one_preparation_is_started() {
    let cfg = config("/c", "60");
    let mut table = jobs();
    let auth = Some(" Basic abc ".to_string());
    let (state, job) = start_or_get(BOOK, &auth, &cfg, &MISSING, &mut table);
    assert!(matches!(state, DownloadState::Preparing));
    let job = job.unwrap();
    assert_eq!(job.url, BOOK);
    assert_eq!(job.authorization, Some("Basic abc".to_string()));
    assert_eq!(job.max_body_bytes, 1000);
    assert_eq!(job.key, cache_key(BOOK, &auth));
    assert_eq!(job.cache_path, format!("/c/{}.epub", job.key));
    let (state, job) = start_or_get(BOOK, &auth, &cfg, &MISSING, &mut table);
    assert!(matches!(state, DownloadState::Preparing));
    assert!(job.is_none());
    let (_, other) = start_or_get(BOOK, &None, &cfg, &MISSING, &mut table);
    assert_eq!(other.unwrap().authorization, None);
}

#[test]
fn a_failure_is_told_once() {
    let cfg = config("/c", "60");
    let mut table = jobs();
    let (_, job) = start_or_get(BOOK, &None, &cfg, &MISSING, &mut table);
    finish_job(&mut table, job.unwrap().key, Err("no space".to_string()));
    let (state, job) = start_or_get(BOOK, &None, &cfg, &MISSING, &mut table);
    match state {
        DownloadState::Failed(error) => assert_eq!(error, "no space"),
        _ => panic!("not failed"),
    }
    assert!(job.is_none());
    let (state, job) = start_or_get(BOOK, &None, &cfg, &MISSING, &mut table);
    assert!(matches!(state, DownloadState::Preparing));
    assert!(job.is_some());
}

#[test]
fn a_prepared_book_is_served() {
    let cfg = config("/c", "60");
    let mut table = jobs();
    let (_, job) = start_or_get(BOOK, &None, &cfg, &MISSING, &mut table);
    let job = job.unwrap();
    finish_job(&mut table, job.key, Ok(()));
    let file = CachedFile { exists: true, age_secs: Some(60) };
    match start_or_get(BOOK, &None, &cfg, &file, &mut table) {
        (DownloadState::Ready { path, delete_after_open }, None) => {
            assert_eq!(path, job.cache_path);
            assert!(!delete_after_open);
        }
        _ => panic!("not ready"),
    }
    let old = CachedFile { exists: true, age_secs: Some(61) };
    let (state, job) = start_or_get(BOOK, &None, &cfg, &old, &mut table);
    assert!(matches!(state, DownloadState::Preparing));
    assert!(job.is_some());
}

#[test]
fn a_book_served_once_is_deleted_and_prepared_anew() {
    let cfg = config("/c", "0");
    let mut table = jobs();
    let file = CachedFile { exists: true, age_secs: None };
    match start_or_get(BOOK, &None, &cfg, &file, &mut table) {
        (DownloadState::Ready { delete_after_open, .. }, None) => assert!(delete_after_open),
        _ => panic!("not ready"),
    }
    let (_, job) = start_or_get(BOOK, &None, &cfg, &MISSING, &mut table);
    assert!(job.is_some());
}

#[test]
fn a_fresh_file_goes_before_a_failure() {
    let cfg = config("/c", "0");
    let mut table = jobs();
    mark_job_failed(&mut table, cache_key(BOOK, &None), "why".to_string());
    let file = CachedFile { exists: true, age_secs: None };
    assert!(matches!(
        start_or_get(BOOK, &None, &cfg, &file, &mut table),
        (DownloadState::Ready { .. }, None)
    ));
    assert!(job_status(&table, &cache_key(BOOK, &None)).is_some());
}

#[test]
fn a_running_preparation_runs_once() {
    let cfg = config("/c", "60");
    let mut table = jobs();
    let mut running = 0;
    for round in 0..6 {
        let (_, job) = start_or_get(BOOK, &None, &cfg, &MISSING, &mut table);
        if job.is_some() {
            running += 1;
        }
        assert!(running <= 1);
        if round == 2 && running == 1 {
            finish_job(&mut table, cache_key(BOOK, &None), Err("x".to_string()));
            running -= 1;
        }
    }
    assert_eq!(running, 1);
}

#[test]
fn other_books_are_left_alone() {
    let cfg = config("/c", "60");
    let mut table = jobs();
    let other = "http://upstream:8001/b/2";
    mark_job_failed(&mut table, cache_key(other, &None), "why".to_string());
    let (_, job) = start_or_get(BOOK, &None, &cfg, &MISSING, &mut table);
    finish_job(&mut table, job.unwrap().key, Ok(()));
    assert!(matches!(
        job_status(&table, &cache_key(other, &None)),
        Some(JobStatus::Failed(error)) if error == "why"
    ));
}

#[test]
fn a_book_is_a_plain_file() {
    for dir in ["", "/", "/c/", "./.cache"] {
        let path = cache_path(&config(dir, "1"), BOOK, &None);
        let name = path.rsplit('/').next().unwrap();
        assert_eq!(name.len(), 21);
        assert!(!name.starts_with('.'));
        assert!(unique_tmp_path(&path, "download", 7).ends_with(".download.7.tmp"));
    }
}
