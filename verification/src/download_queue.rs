//! The queue of books in preparation: what a request for a book is told, when a preparation
//! starts, and where prepared books are kept.

use vstd::hash_map::StringHashMap;
use vstd::multiset::Multiset;
use vstd::prelude::*;
use vstd::string::*;
use vstd::utf8::*;

use crate::config::ProxyConfig;
use crate::numbers;
use crate::numbers::{write_decimal, write_hex};
use crate::text;
use crate::text::{chars_of, find_past_last, part, same_text, trim};

verus! {

/// What a request for a stripped book is told.
#[derive(Debug)]
pub enum DownloadState {
    /// A stripped book exists and can be served at once.
    Ready { path: String, delete_after_open: bool },
    /// The stripped book is being prepared.
    Preparing,
    /// The last attempt to prepare it failed.
    Failed(String),
}

/// The model of a `DownloadState`.
pub enum StateView {
    Ready { path: Seq<char>, delete_after_open: bool },
    Preparing,
    Failed(Seq<char>),
}

impl View for DownloadState {
    type V = StateView;

    open spec fn view(&self) -> StateView {
        match *self {
            DownloadState::Ready { path, delete_after_open } => StateView::Ready {
                path: path@,
                delete_after_open,
            },
            DownloadState::Preparing => StateView::Preparing,
            DownloadState::Failed(error) => StateView::Failed(error@),
        }
    }
}

/// How far the preparation of a book is.
#[derive(Debug)]
pub enum JobStatus {
    /// It is running.
    Preparing,
    /// It failed, and nobody was told yet.
    Failed(String),
}

/// The model of a `JobStatus`.
pub enum JobView {
    Preparing,
    Failed(Seq<char>),
}

impl View for JobStatus {
    type V = JobView;

    open spec fn view(&self) -> JobView {
        match *self {
            JobStatus::Preparing => JobView::Preparing,
            JobStatus::Failed(error) => JobView::Failed(error@),
        }
    }
}

/// The preparations that are running or have failed, by cache key.
pub struct JobTable {
    statuses: StringHashMap<JobStatus>,
}

impl View for JobTable {
    type V = Map<Seq<char>, JobView>;

    closed spec fn view(&self) -> Map<Seq<char>, JobView> {
        self.statuses@.map_values(|status: JobStatus| status@)
    }
}

/// A table without preparations.
pub fn jobs() -> (r: JobTable)
    ensures
        r@ == Map::<Seq<char>, JobView>::empty(),
{
    let table = JobTable { statuses: StringHashMap::new() };
    assert(table@ =~= Map::<Seq<char>, JobView>::empty());
    table
}

/// The status of the preparation under `key`, if there is one.
pub fn job_status(jobs: &JobTable, key: &str) -> (r: Option<JobStatus>)
    ensures
        (match r {
            Some(status) => jobs@.contains_key(key@) && jobs@[key@] == status@,
            None => !jobs@.contains_key(key@),
        }),
{
    match jobs.statuses.get(key) {
        Some(JobStatus::Preparing) => Some(JobStatus::Preparing),
        Some(JobStatus::Failed(error)) => Some(JobStatus::Failed(error.clone())),
        None => None,
    }
}

/// Records that the preparation under `key` is running.
pub fn mark_job_preparing(jobs: &mut JobTable, key: String)
    ensures
        final(jobs)@ == old(jobs)@.insert(key@, JobView::Preparing),
{
    jobs.statuses.insert(key, JobStatus::Preparing);
    assert(jobs@ =~= old(jobs)@.insert(key@, JobView::Preparing));
}

/// Records that the preparation under `key` failed.
pub fn mark_job_failed(jobs: &mut JobTable, key: String, error: String)
    ensures
        final(jobs)@ == old(jobs)@.insert(key@, JobView::Failed(error@)),
{
    jobs.statuses.insert(key, JobStatus::Failed(error));
    assert(jobs@ =~= old(jobs)@.insert(key@, JobView::Failed(error@)));
}

/// Forgets the preparation under `key`.
pub fn clear_job(jobs: &mut JobTable, key: &str)
    ensures
        final(jobs)@ == old(jobs)@.remove(key@),
{
    jobs.statuses.remove(key);
    assert(jobs@ =~= old(jobs)@.remove(key@));
}

/// The table behind the end of the preparation under `key`: forgotten if it went well, else
/// failed with `error`.
pub open spec fn after_job(
    jobs: Map<Seq<char>, JobView>,
    key: Seq<char>,
    error: Option<Seq<char>>,
) -> Map<Seq<char>, JobView> {
    match error {
        None => jobs.remove(key),
        Some(e) => jobs.insert(key, JobView::Failed(e)),
    }
}

/// Records how the preparation under `key` ended.
pub fn finish_job(jobs: &mut JobTable, key: String, result: Result<(), String>)
    ensures
        final(jobs)@ == after_job(
            old(jobs)@,
            key@,
            match result {
                Ok(_) => None,
                Err(error) => Some(error@),
            },
        ),
{
    match result {
        Ok(_) => clear_job(jobs, key.as_str()),
        Err(error) => mark_job_failed(jobs, key, error),
    }
}

/// The state of the 64-bit FNV-1a hash after one more byte.
pub open spec fn fnv_byte(state: u64, byte: u8) -> u64 {
    (state ^ (byte as u64)).wrapping_mul(0x100000001b3)
}

/// The state of the hash after more bytes.
pub open spec fn fnv_bytes(state: u64, bytes: Seq<u8>) -> u64
    decreases bytes.len(),
{
    if bytes.len() == 0 {
        state
    } else {
        fnv_byte(fnv_bytes(state, bytes.drop_last()), bytes.last())
    }
}

/// The state of the hash after one call that writes `bytes`. A state of zero stands for a hash
/// that has not begun.
pub open spec fn fnv_written(state: u64, bytes: Seq<u8>) -> u64 {
    fnv_bytes(
        if state == 0 {
            0xcbf29ce484222325
        } else {
            state
        },
        bytes,
    )
}

/// The state of the hash after a text: its bytes, then a byte that no text holds.
pub open spec fn fnv_text(state: u64, text: Seq<char>) -> u64 {
    fnv_written(fnv_written(state, encode_utf8(text)), seq![0xffu8])
}

/// The text of the credentials; empty if there are none.
pub open spec fn auth_text(auth: Option<String>) -> Seq<char> {
    match auth {
        Some(text) => text@,
        None => Seq::empty(),
    }
}

/// The key under which a book is kept: the hash of its address and of the credentials.
pub open spec fn key_of(url: Seq<char>, auth: Seq<char>) -> Seq<char> {
    numbers::hex_text(fnv_text(fnv_text(0, url), auth) as nat, 16)
}

/// A 64-bit FNV-1a hash.
#[derive(Debug)]
pub struct Fnv1a64(pub u64);

impl Fnv1a64 {
    /// A hash that has not begun.
    pub fn new() -> (r: Self)
        ensures
            r.0 == 0,
    {
        Fnv1a64(0)
    }

    /// The hash so far.
    pub fn finish(&self) -> (r: u64)
        ensures
            r == self.0,
    {
        self.0
    }

    /// Hashes more bytes.
    pub fn write(&mut self, bytes: &[u8])
        ensures
            final(self).0 == fnv_written(old(self).0, bytes@),
    {
        let start: u64 = if self.0 == 0 {
            0xcbf29ce484222325
        } else {
            self.0
        };
        let mut state: u64 = start;
        let mut i: usize = 0;
        while i < bytes.len()
            invariant
                i <= bytes.len(),
                state == fnv_bytes(start, bytes@.take(i as int)),
            decreases bytes.len() - i,
        {
            proof {
                assert(bytes@.take(i + 1).drop_last() =~= bytes@.take(i as int));
            }
            state = (state ^ (bytes[i] as u64)).wrapping_mul(0x100000001b3);
            i += 1;
        }
        assert(bytes@.take(i as int) =~= bytes@);
        self.0 = state;
    }

    /// Hashes a text: its bytes, then a byte that no text holds.
    pub fn write_text(&mut self, text: &str)
        ensures
            final(self).0 == fnv_text(old(self).0, text@),
    {
        self.write(text.as_bytes());
        let end: [u8; 1] = [0xff];
        assert(end@ =~= seq![0xffu8]);
        self.write(&end);
    }
}

/// The key under which a book is kept. It tells apart books and credentials.
pub fn cache_key(url: &str, auth: &Option<String>) -> (r: String)
    ensures
        r@ == key_of(url@, auth_text(*auth)),
        r@.len() == 16,
        forall|i: int| 0 <= i < 16 ==> numbers::is_hex_digit(#[trigger] r@[i]),
{
    let mut hash: Fnv1a64 = Fnv1a64::new();
    hash.write_text(url);
    match auth {
        Some(text) => {
            hash.write_text(text.as_str());
        },
        None => {
            proof {
                reveal_strlit("");
                assert(""@ =~= Seq::<char>::empty());
            }
            hash.write_text("");
        },
    }
    let value: u64 = hash.finish();
    proof {
        numbers::lemma_hex_text(value as nat, 16);
    }
    write_hex(value, 16)
}

/// The file `name` in the directory `dir`.
pub open spec fn file_in(dir: Seq<char>, name: Seq<char>) -> Seq<char> {
    if dir.len() == 0 || dir.last() == '/' {
        dir + name
    } else {
        dir + "/"@ + name
    }
}

/// Where a book is kept.
pub open spec fn path_of(dir: Seq<char>, url: Seq<char>, auth: Seq<char>) -> Seq<char> {
    file_in(dir, key_of(url, auth) + ".epub"@)
}

/// Where the stripped book is kept: in the cache directory, under its key.
pub fn cache_path(cfg: &ProxyConfig, url: &str, auth: &Option<String>) -> (r: String)
    ensures
        r@ == path_of(cfg.cache_dir@, url@, auth_text(*auth)),
{
    let mut path: String = cfg.cache_dir.clone();
    let dir: Vec<char> = chars_of(cfg.cache_dir.as_str());
    let ghost name = key_of(url@, auth_text(*auth)) + ".epub"@;
    if dir.len() > 0 && dir[dir.len() - 1] != '/' {
        path.append("/");
    }
    let ghost front = path@;
    path.append(cache_key(url, auth).as_str());
    path.append(".epub");
    assert(path@ =~= front + name);
    path
}

/// `path` without the slashes at its end and without components that are a single dot there.
pub open spec fn without_trailing_dots(path: Seq<char>) -> Seq<char>
    decreases path.len(),
{
    if path.len() > 0 && path.last() == '/' {
        without_trailing_dots(path.drop_last())
    } else if path.len() > 1 && path.last() == '.' && path[path.len() - 2] == '/' {
        without_trailing_dots(path.drop_last())
    } else {
        path
    }
}

/// The last component of a path.
pub open spec fn last_component(path: Seq<char>) -> Seq<char> {
    text::after_last(without_trailing_dots(path), seq!['/'])
}

/// The last component of a path is the name of a file: it is not empty, and neither a dot nor two.
pub open spec fn names_file(path: Seq<char>) -> bool {
    let name = last_component(path);
    name.len() > 0 && name != "."@ && name != ".."@
}

/// A path up to the extension of the file that it names. A dot at the front of a name opens no
/// extension.
pub open spec fn without_extension(path: Seq<char>) -> Seq<char> {
    let whole = without_trailing_dots(path);
    let start = text::last_of(whole, seq!['/']) + 1;
    let dot = text::last_of(whole.skip(start), seq!['.']);
    if dot > 0 {
        whole.take(start + dot)
    } else {
        whole
    }
}

/// What a temporary file has in place of the extension.
pub open spec fn tmp_suffix(label: Seq<char>, nonce: nat) -> Seq<char> {
    "."@ + label + "."@ + numbers::decimal_text(nonce) + ".tmp"@
}

/// The name of a temporary file beside the file that `path` names; `path` itself if it names none.
pub open spec fn tmp_path(path: Seq<char>, label: Seq<char>, nonce: nat) -> Seq<char> {
    if names_file(path) {
        without_extension(path) + tmp_suffix(label, nonce)
    } else {
        path
    }
}

/// Where a path ends without the slashes at its end and without single dots there.
fn find_path_end(path: &Vec<char>) -> (r: usize)
    ensures
        r <= path@.len(),
        path@.take(r as int) == without_trailing_dots(path@),
{
    let mut end: usize = path.len();
    proof {
        assert(path@.take(end as int) =~= path@);
    }
    while end > 0 && (path[end - 1] == '/' || (end > 1 && path[end - 1] == '.' && path[end - 2]
        == '/'))
        invariant
            end <= path.len(),
            without_trailing_dots(path@) == without_trailing_dots(path@.take(end as int)),
        decreases end,
    {
        proof {
            assert(path@.take(end as int).drop_last() =~= path@.take(end - 1));
        }
        end -= 1;
    }
    end
}

/// The name of a temporary file beside the file that `path` names: `label` and `nonce` stand in
/// place of its extension. A path that names no file stays as it is.
pub fn unique_tmp_path(path: &str, label: &str, nonce: u128) -> (r: String)
    requires
        !label@.contains('/'),
    ensures
        r@ == tmp_path(path@, label@, nonce as nat),
{
    let chars: Vec<char> = chars_of(path);
    let path_end: usize = find_path_end(&chars);
    let whole: String = part(path, 0, path_end);
    let whole_chars: Vec<char> = chars_of(whole.as_str());
    let slash: [char; 1] = ['/'];
    let start: usize = find_past_last(&whole_chars, &slash);
    let file: String = part(whole.as_str(), start, whole_chars.len());
    let file_chars: Vec<char> = chars_of(file.as_str());
    let dot: [char; 1] = ['.'];
    let behind: usize = find_past_last(&file_chars, &dot);
    proof {
        assert(slash@ =~= seq!['/']);
        assert(dot@ =~= seq!['.']);
        assert(whole@ =~= without_trailing_dots(path@));
        assert(file@ =~= last_component(path@));
    }
    if file_chars.len() == 0 || same_text(file.as_str(), ".") || same_text(file.as_str(), "..") {
        return path.to_owned();
    }
    let end: usize = if behind > 1 {
        start + (behind - 1)
    } else {
        whole_chars.len()
    };
    let mut text: String = part(whole.as_str(), 0, end);
    assert(text@ =~= without_extension(path@));
    text.append(".");
    text.append(label);
    text.append(".");
    text.append(write_decimal(nonce).as_str());
    text.append(".tmp");
    assert(text@ =~= tmp_path(path@, label@, nonce as nat));
    text
}

/// What is known of a file in the cache.
#[derive(Clone, Copy, Debug)]
pub struct CachedFile {
    pub exists: bool,
    /// The seconds since it was written, where they can be told.
    pub age_secs: Option<u64>,
}

/// A file in the cache can be served. One that is to be served once never grows too old.
pub open spec fn is_fresh(file: CachedFile, ttl_secs: u64) -> bool {
    file.exists && (ttl_secs == 0 || (file.age_secs matches Some(age) && age <= ttl_secs))
}

/// A file in the cache is known to be too old.
pub open spec fn is_expired(file: CachedFile, ttl_secs: u64) -> bool {
    file.exists && ttl_secs != 0 && (file.age_secs matches Some(age) && age > ttl_secs)
}

/// Whether a file in the cache can be served.
pub fn cache_is_fresh(file: &CachedFile, ttl_secs: u64) -> (r: bool)
    ensures
        r == is_fresh(*file, ttl_secs),
{
    if !file.exists {
        return false;
    }
    if ttl_secs == 0 {
        return true;
    }
    match file.age_secs {
        Some(age) => age <= ttl_secs,
        None => false,
    }
}

/// Whether a file in the cache is too old and has to be deleted.
pub fn cache_is_expired(file: &CachedFile, ttl_secs: u64) -> (r: bool)
    ensures
        r == is_expired(*file, ttl_secs),
        r ==> !is_fresh(*file, ttl_secs),
{
    if !file.exists || ttl_secs == 0 {
        return false;
    }
    match file.age_secs {
        Some(age) => age > ttl_secs,
        None => false,
    }
}

/// A preparation that has to be started.
#[derive(Debug)]
pub struct PrepareJob {
    /// The address of the book.
    pub url: String,
    /// The credentials for it.
    pub authorization: Option<String>,
    /// How many bytes are read at most.
    pub max_body_bytes: u64,
    /// Where the stripped book is kept.
    pub cache_path: String,
    /// The key of the preparation.
    pub key: String,
}

/// What a request for a book does.
pub struct Answer {
    /// What the client is told.
    pub state: StateView,
    /// The table behind the request.
    pub jobs: Map<Seq<char>, JobView>,
    /// A preparation has to be started.
    pub starts: bool,
}

/// What a request does for the book under `key`, kept at `path`: a fresh file is served; a running
/// preparation is waited for; a failure is told once and then forgotten; else a preparation
/// starts.
pub open spec fn answer(
    jobs: Map<Seq<char>, JobView>,
    key: Seq<char>,
    path: Seq<char>,
    fresh: bool,
    ttl_secs: u64,
) -> Answer {
    if fresh {
        Answer {
            state: StateView::Ready { path, delete_after_open: ttl_secs == 0 },
            jobs,
            starts: false,
        }
    } else if !jobs.contains_key(key) {
        Answer {
            state: StateView::Preparing,
            jobs: jobs.insert(key, JobView::Preparing),
            starts: true,
        }
    } else {
        match jobs[key] {
            JobView::Preparing => Answer { state: StateView::Preparing, jobs, starts: false },
            JobView::Failed(e) => Answer {
                state: StateView::Failed(e),
                jobs: jobs.remove(key),
                starts: false,
            },
        }
    }
}

/// Tells how far a stripped book is. Where neither a fresh file nor a preparation exists, the
/// preparation that is returned has to be started. `file` is what is known of the file at
/// `cache_path`.
pub fn start_or_get(
    url: &str,
    auth: &Option<String>,
    cfg: &ProxyConfig,
    file: &CachedFile,
    jobs: &mut JobTable,
) -> (r: (DownloadState, Option<PrepareJob>))
    ensures
        ({
            let key = key_of(url@, auth_text(*auth));
            let path = path_of(cfg.cache_dir@, url@, auth_text(*auth));
            let a = answer(
                old(jobs)@,
                key,
                path,
                is_fresh(*file, cfg.cache_ttl_secs),
                cfg.cache_ttl_secs,
            );
            &&& r.0@ == a.state
            &&& final(jobs)@ == a.jobs
            &&& match r.1 {
                Some(job) => {
                    &&& a.starts
                    &&& job.url@ == url@
                    &&& text::optional(job.authorization) == text::optional_trimmed(
                        text::optional(*auth),
                    )
                    &&& job.max_body_bytes == cfg.max_body_bytes
                    &&& job.cache_path@ == path
                    &&& job.key@ == key
                },
                None => !a.starts,
            }
        }),
{
    let path: String = cache_path(cfg, url, auth);
    if cache_is_fresh(file, cfg.cache_ttl_secs) {
        return (
            DownloadState::Ready { path, delete_after_open: cfg.cache_ttl_secs == 0 },
            None,
        );
    }
    let key: String = cache_key(url, auth);
    match job_status(jobs, key.as_str()) {
        Some(JobStatus::Preparing) => (DownloadState::Preparing, None),
        Some(JobStatus::Failed(error)) => {
            clear_job(jobs, key.as_str());
            (DownloadState::Failed(error), None)
        },
        None => {
            mark_job_preparing(jobs, key.clone());
            let authorization: Option<String> = match auth {
                Some(text) => Some(trim(text.as_str())),
                None => None,
            };
            let job = PrepareJob {
                url: url.to_owned(),
                authorization,
                max_body_bytes: cfg.max_body_bytes,
                cache_path: path,
                key,
            };
            (DownloadState::Preparing, Some(job))
        },
    }
}

/// A request for a book that is neither kept nor in preparation starts its preparation, and
/// further requests wait for it: they start no second one and change nothing.
pub proof fn law_one_preparation_is_started(
    jobs: Map<Seq<char>, JobView>,
    key: Seq<char>,
    path: Seq<char>,
    ttl_secs: u64,
)
    requires
        !jobs.contains_key(key),
    ensures
        ({
            let first = answer(jobs, key, path, false, ttl_secs);
            let second = answer(first.jobs, key, path, false, ttl_secs);
            &&& first.state == StateView::Preparing
            &&& first.starts
            &&& second.state == StateView::Preparing
            &&& !second.starts
            &&& second.jobs == first.jobs
        }),
{
}

/// A failed preparation is told once, with its reason; the request after that starts another.
pub proof fn law_failure_is_told_once(
    jobs: Map<Seq<char>, JobView>,
    key: Seq<char>,
    path: Seq<char>,
    error: Seq<char>,
    ttl_secs: u64,
)
    ensures
        ({
            let failed = after_job(jobs, key, Some(error));
            let first = answer(failed, key, path, false, ttl_secs);
            let second = answer(first.jobs, key, path, false, ttl_secs);
            &&& first.state == StateView::Failed(error)
            &&& !first.starts
            &&& !first.jobs.contains_key(key)
            &&& second.state == StateView::Preparing
            &&& second.starts
        }),
{
}

/// Once a preparation went well, a request is served the file, and no preparation starts; the
/// file is deleted behind the request exactly if it is to be served once.
pub proof fn law_prepared_book_is_served(
    jobs: Map<Seq<char>, JobView>,
    key: Seq<char>,
    path: Seq<char>,
    ttl_secs: u64,
)
    ensures
        ({
            let done = after_job(jobs, key, None);
            let a = answer(done, key, path, true, ttl_secs);
            &&& a.state == (StateView::Ready { path, delete_after_open: ttl_secs == 0 })
            &&& !a.starts
            &&& a.jobs == done
            &&& !done.contains_key(key)
        }),
{
}

/// A book that was served once and deleted is prepared anew on the next request.
pub proof fn law_book_served_once_is_prepared_anew(
    jobs: Map<Seq<char>, JobView>,
    key: Seq<char>,
    path: Seq<char>,
    file: CachedFile,
    gone: CachedFile,
)
    requires
        !jobs.contains_key(key),
        file.exists,
        !gone.exists,
    ensures
        ({
            let served = answer(jobs, key, path, is_fresh(file, 0), 0);
            let next = answer(served.jobs, key, path, is_fresh(gone, 0), 0);
            &&& served.state == (StateView::Ready { path, delete_after_open: true })
            &&& next.state == StateView::Preparing
            &&& next.starts
        }),
{
}

/// A request and the end of a preparation leave all other books alone.
pub proof fn law_other_books_are_left_alone(
    jobs: Map<Seq<char>, JobView>,
    key: Seq<char>,
    path: Seq<char>,
    fresh: bool,
    ttl_secs: u64,
    error: Option<Seq<char>>,
    other: Seq<char>,
)
    requires
        other != key,
    ensures
        ({
            let asked = answer(jobs, key, path, fresh, ttl_secs).jobs;
            let ended = after_job(jobs, key, error);
            &&& asked.contains_key(other) == jobs.contains_key(other)
            &&& asked.contains_key(other) ==> asked[other] == jobs[other]
            &&& ended.contains_key(other) == jobs.contains_key(other)
            &&& ended.contains_key(other) ==> ended[other] == jobs[other]
        }),
{
}

/// The table says exactly which preparations are running, each of them once.
pub open spec fn tells_what_runs(
    jobs: Map<Seq<char>, JobView>,
    running: Multiset<Seq<char>>,
) -> bool {
    forall|key: Seq<char>| #[trigger]
        running.count(key) == (if jobs.contains_key(key) && jobs[key] == JobView::Preparing {
            1nat
        } else {
            0nat
        })
}

/// At no time does a book have two preparations running: the empty table tells what runs, a
/// request keeps that so, and so does the end of a running preparation.
pub proof fn law_at_most_one_preparation_runs(
    jobs: Map<Seq<char>, JobView>,
    running: Multiset<Seq<char>>,
    key: Seq<char>,
    path: Seq<char>,
    fresh: bool,
    ttl_secs: u64,
    error: Option<Seq<char>>,
)
    ensures
        tells_what_runs(Map::empty(), Multiset::empty()),
        tells_what_runs(jobs, running) ==> ({
            let a = answer(jobs, key, path, fresh, ttl_secs);
            tells_what_runs(
                a.jobs,
                if a.starts {
                    running.insert(key)
                } else {
                    running
                },
            )
        }),
        tells_what_runs(jobs, running) && running.contains(key) ==> tells_what_runs(
            after_job(jobs, key, error),
            running.remove(key),
        ),
{
    if tells_what_runs(jobs, running) {
        let a = answer(jobs, key, path, fresh, ttl_secs);
        let after = if a.starts {
            running.insert(key)
        } else {
            running
        };
        assert forall|k: Seq<char>| #[trigger]
            after.count(k) == (if a.jobs.contains_key(k) && a.jobs[k] == JobView::Preparing {
                1nat
            } else {
                0nat
            }) by {
            assert(running.count(k) <= 1);
        }
        if running.contains(key) {
            let rest = running.remove(key);
            let ended = after_job(jobs, key, error);
            assert forall|k: Seq<char>| #[trigger]
                rest.count(k) == (if ended.contains_key(k) && ended[k] == JobView::Preparing {
                    1nat
                } else {
                    0nat
                }) by {
                assert(running.count(k) <= 1);
            }
        }
    }
}

/// Temporary files of one book with different labels or nonces have different names.
pub proof fn law_tmp_paths_differ(
    path: Seq<char>,
    label: Seq<char>,
    nonce: nat,
    other_label: Seq<char>,
    other_nonce: nat,
)
    requires
        names_file(path),
        !label.contains('.'),
        !other_label.contains('.'),
        label != other_label || nonce != other_nonce,
    ensures
        tmp_path(path, label, nonce) != tmp_path(path, other_label, other_nonce),
{
    let a = tmp_suffix(label, nonce);
    let b = tmp_suffix(other_label, other_nonce);
    if tmp_path(path, label, nonce) == tmp_path(path, other_label, other_nonce) {
        let stem = without_extension(path);
        assert(a =~= (stem + a).skip(stem.len() as int));
        assert(b =~= (stem + b).skip(stem.len() as int));
        reveal_strlit(".");
        reveal_strlit(".tmp");
        lemma_label_ends(label, nonce);
        lemma_label_ends(other_label, other_nonce);
        assert(label =~= a.skip(1).take(label.len() as int));
        assert(other_label =~= b.skip(1).take(other_label.len() as int));
        let digits = numbers::decimal_text(nonce);
        let other_digits = numbers::decimal_text(other_nonce);
        let from = label.len() + 2;
        assert(digits =~= a.subrange(from as int, a.len() - 4));
        assert(other_digits =~= b.subrange(from as int, b.len() - 4));
        numbers::lemma_decimal_value(nonce);
        numbers::lemma_decimal_value(other_nonce);
    }
}

/// The label of a temporary file ends at the first dot behind it.
proof fn lemma_label_ends(label: Seq<char>, nonce: nat)
    requires
        !label.contains('.'),
    ensures
        text::first_of(tmp_suffix(label, nonce).skip(1), seq!['.']) == label.len(),
{
    reveal_strlit(".");
    reveal_strlit(".tmp");
    let marks = seq!['.'];
    let rest = tmp_suffix(label, nonce).skip(1);
    assert(marks[0] == '.');
    assert(rest[label.len() as int] == '.');
    assert forall|i: int| 0 <= i < label.len() implies !marks.contains(#[trigger] rest[i]) by {
        assert(rest[i] == label[i]);
        if label[i] == '.' {
            assert(label.contains('.'));
        }
    }
    text::lemma_first_of(rest, marks, label.len() as int);
}

/// No temporary file takes the place of a prepared book.
pub proof fn law_tmp_path_is_no_book(
    path: Seq<char>,
    label: Seq<char>,
    nonce: nat,
    dir: Seq<char>,
    url: Seq<char>,
    auth: Seq<char>,
)
    ensures
        tmp_path(path, label, nonce) != path_of(dir, url, auth),
{
    let tmp = tmp_path(path, label, nonce);
    let book = path_of(dir, url, auth);
    law_book_is_a_file(dir, url, auth);
    if names_file(path) {
        reveal_strlit(".tmp");
        reveal_strlit(".epub");
        assert(tmp.last() == 'p');
        assert(book.last() == 'b');
    }
}

/// Every book is kept in a file, so temporary files can stand beside it.
pub proof fn law_book_is_a_file(dir: Seq<char>, url: Seq<char>, auth: Seq<char>)
    ensures
        names_file(path_of(dir, url, auth)),
{
    reveal_strlit(".epub");
    reveal_strlit("/");
    reveal_strlit(".");
    reveal_strlit("..");
    let key = key_of(url, auth);
    let name = key + ".epub"@;
    let path = path_of(dir, url, auth);
    let marks = seq!['/'];
    numbers::lemma_hex_text(fnv_text(fnv_text(0, url), auth) as nat, 16);
    assert(marks[0] == '/');
    let start = path.len() - name.len();
    assert(path.last() == 'b');
    assert(without_trailing_dots(path) == path);
    assert forall|i: int| start <= i < path.len() implies !marks.contains(#[trigger] path[i]) by {
        assert(path[i] == name[i - start]);
        if i - start < 16 {
            assert(numbers::is_hex_digit(key[i - start]));
        }
    }
    text::lemma_last_of(path, marks, start - 1);
    assert(last_component(path).len() == 21);
}

/// A book that is kept too long is deleted and prepared anew.
pub proof fn law_old_book_is_prepared_anew(
    jobs: Map<Seq<char>, JobView>,
    key: Seq<char>,
    path: Seq<char>,
    age: u64,
    ttl_secs: u64,
)
    requires
        !jobs.contains_key(key),
        0 < ttl_secs < age,
    ensures
        ({
            let file = CachedFile { exists: true, age_secs: Some(age) };
            let a = answer(jobs, key, path, is_fresh(file, ttl_secs), ttl_secs);
            &&& is_expired(file, ttl_secs)
            &&& a.state == StateView::Preparing
            &&& a.starts
        }),
{
}

} // verus!
