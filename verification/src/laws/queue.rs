//! Laws of prepared books: their keys, their files, and what a request for one is answered.

use vstd::arithmetic::div_mod::*;
use vstd::prelude::*;
use vstd::utf8::*;

use crate::download_queue;
use crate::download_queue::{CachedFile, DownloadState, JobStatus, JobView, StateView};
use crate::laws::numerals;
use crate::laws::words;
use crate::numbers;
use crate::text;

verus! {

/// One byte is taken into a hash by an exclusive or, and a multiplication modulo the 64th power of
/// two.
pub proof fn law_hash_step(state: u64, byte: u8)
    ensures
        download_queue::fnv_byte(state, byte) as int == ((state ^ (byte as u64)) * 1099511628211)
            % 18446744073709551616,
{
}

/// A hash takes in each byte that is written to it, the last one behind all others, however many
/// there are. One that has not begun begins with the offset of the hash; no byte leaves it there.
pub proof fn law_hash_takes_in_every_byte(state: u64, bytes: Seq<u8>, byte: u8)
    ensures
        download_queue::fnv_written(state, bytes.push(byte)) as int == ((
        download_queue::fnv_written(state, bytes) ^ (byte as u64)) * 1099511628211)
            % 18446744073709551616,
        state != 0 ==> download_queue::fnv_written(state, Seq::empty()) == state,
        download_queue::fnv_written(0, Seq::empty()) == 14695981039346656037,
{
    assert(bytes.push(byte).drop_last() =~= bytes);
}

/// Bytes can be written to a begun hash at once or in two parts: it comes to the same. Only a first
/// part that brings the hash back to where it has not begun makes a difference.
pub proof fn law_hash_in_parts(state: u64, a: Seq<u8>, b: Seq<u8>)
    ensures
        download_queue::fnv_written(state, a + b) == download_queue::fnv_bytes(
            download_queue::fnv_written(state, a),
            b,
        ),
        download_queue::fnv_written(state, a) != 0 ==> download_queue::fnv_written(state, a + b)
            == download_queue::fnv_written(download_queue::fnv_written(state, a), b),
        state != 0 ==> download_queue::fnv_written(state, a) == download_queue::fnv_bytes(state, a),
{
    lemma_bytes_concat(
        if state == 0 {
            0xcbf29ce484222325
        } else {
            state
        },
        a,
        b,
    );
}

/// Bytes behind bytes.
proof fn lemma_bytes_concat(state: u64, a: Seq<u8>, b: Seq<u8>)
    ensures
        download_queue::fnv_bytes(state, a + b) == download_queue::fnv_bytes(
            download_queue::fnv_bytes(state, a),
            b,
        ),
    decreases b.len(),
{
    if b.len() == 0 {
        assert(a + b =~= a);
    } else {
        assert((a + b).drop_last() =~= a + b.drop_last());
        lemma_bytes_concat(state, a, b.drop_last());
    }
}

/// Multiplying by the prime of the hash can be undone: it has an inverse modulo the 64th power of
/// two.
proof fn lemma_multiplying_is_injective(a: u64, b: u64)
    requires
        (a * 1099511628211) % 18446744073709551616 == (b * 1099511628211) % 18446744073709551616,
    ensures
        a == b,
{
    lemma_undo(a as int);
    lemma_undo(b as int);
}

/// The inverse of the prime gives back what was multiplied by it.
proof fn lemma_undo(a: int)
    requires
        0 <= a < 18446744073709551616,
    ensures
        (((a * 1099511628211) % 18446744073709551616) * 14886173955864302971)
            % 18446744073709551616 == a,
{
    lemma_mul_mod_noop_left(a * 1099511628211, 14886173955864302971, 18446744073709551616);
    let round: int = 887285111055;
    assert((a * 1099511628211) * 14886173955864302971 == 18446744073709551616 * (a * round) + a)
        by (nonlinear_arith)
        requires
            round == 887285111055,
    ;
    lemma_mod_multiples_vanish(a * round, a, 18446744073709551616);
    lemma_small_mod(a as nat, 18446744073709551616);
}

/// Taking in one byte loses nothing: different states stay different, and different bytes make them
/// different.
pub proof fn law_hash_step_is_injective(x: u64, y: u64, b: u8, c: u8)
    ensures
        x != y ==> download_queue::fnv_byte(x, b) != download_queue::fnv_byte(y, b),
        b != c ==> download_queue::fnv_byte(x, b) != download_queue::fnv_byte(x, c),
{
    let wide_b = b as u64;
    let wide_c = c as u64;
    if download_queue::fnv_byte(x, b) == download_queue::fnv_byte(y, b) {
        lemma_multiplying_is_injective(x ^ wide_b, y ^ wide_b);
        assert(x == y) by (bit_vector)
            requires
                x ^ wide_b == y ^ wide_b,
        ;
    }
    if download_queue::fnv_byte(x, b) == download_queue::fnv_byte(x, c) {
        lemma_multiplying_is_injective(x ^ wide_b, x ^ wide_c);
        assert(wide_b == wide_c) by (bit_vector)
            requires
                x ^ wide_b == x ^ wide_c,
        ;
    }
}

/// The bytes are as many, and differ at this position and at no other.
pub open spec fn differ_at(a: Seq<u8>, b: Seq<u8>, at: int) -> bool {
    &&& a.len() == b.len()
    &&& 0 <= at < a.len()
    &&& a[at] != b[at]
    &&& forall|i: int| 0 <= i < a.len() && i != at ==> #[trigger] a[i] == b[i]
}

/// Different states stay different under the same bytes.
proof fn lemma_states_stay_different(x: u64, y: u64, bytes: Seq<u8>)
    requires
        x != y,
    ensures
        download_queue::fnv_bytes(x, bytes) != download_queue::fnv_bytes(y, bytes),
    decreases bytes.len(),
{
    if bytes.len() > 0 {
        lemma_states_stay_different(x, y, bytes.drop_last());
        law_hash_step_is_injective(
            download_queue::fnv_bytes(x, bytes.drop_last()),
            download_queue::fnv_bytes(y, bytes.drop_last()),
            bytes.last(),
            bytes.last(),
        );
    }
}

/// Bytes that differ at one position, whichever, are hashed differently from any one state.
pub proof fn law_hash_sees_every_position(state: u64, a: Seq<u8>, b: Seq<u8>, at: int)
    requires
        differ_at(a, b, at),
    ensures
        download_queue::fnv_written(state, a) != download_queue::fnv_written(state, b),
{
    let begin: u64 = if state == 0 {
        0xcbf29ce484222325
    } else {
        state
    };
    let front = a.take(at);
    let back = a.skip(at + 1);
    assert(a =~= front + seq![a[at]] + back);
    assert(b =~= front + seq![b[at]] + back);
    lemma_bytes_concat(begin, front + seq![a[at]], back);
    lemma_bytes_concat(begin, front + seq![b[at]], back);
    let x = download_queue::fnv_bytes(begin, front);
    assert((front + seq![a[at]]).drop_last() =~= front);
    assert((front + seq![b[at]]).drop_last() =~= front);
    law_hash_step_is_injective(x, x, a[at], b[at]);
    lemma_states_stay_different(
        download_queue::fnv_byte(x, a[at]),
        download_queue::fnv_byte(x, b[at]),
        back,
    );
}

/// One state is that of a hash that has not begun, the other that of one that just has: what is
/// written next is hashed alike from them.
pub open spec fn begin_alike(x: u64, y: u64) -> bool {
    x == 0 && y == 14695981039346656037 || y == 0 && x == 14695981039346656037
}

/// Different states stay different under what is written next.
proof fn lemma_written_stays_different(x: u64, y: u64, bytes: Seq<u8>)
    requires
        x != y,
        !begin_alike(x, y),
    ensures
        download_queue::fnv_written(x, bytes) != download_queue::fnv_written(y, bytes),
{
    let begin: u64 = 0xcbf29ce484222325;
    lemma_states_stay_different(
        if x == 0 {
            begin
        } else {
            x
        },
        if y == 0 {
            begin
        } else {
            y
        },
        bytes,
    );
}

/// The states that the hash of a key goes through: behind the address, behind its end, and behind
/// the credentials.
pub open spec fn key_states(url: Seq<char>, auth: Seq<char>) -> (u64, u64, u64) {
    let address = download_queue::fnv_written(0, encode_utf8(url));
    let ended = download_queue::fnv_written(address, seq![0xffu8]);
    (address, ended, download_queue::fnv_written(ended, encode_utf8(auth)))
}

/// A text is hashed as its bytes and the byte that no text holds, and a key is the sixteen digits of
/// the hash of the address and then of the credentials.
pub proof fn law_key(url: Seq<char>, auth: Seq<char>)
    ensures
        download_queue::key_of(url, auth) == numbers::hex_text(
            download_queue::fnv_written(key_states(url, auth).2, seq![0xffu8]) as nat,
            16,
        ),
{
}

/// Two addresses whose bytes are as many and differ at one position have different keys under the
/// same credentials. That needs the states behind them not to be those that begin alike.
pub proof fn law_keys_tell_addresses_apart(
    url: Seq<char>,
    other: Seq<char>,
    auth: Seq<char>,
    at: int,
)
    requires
        differ_at(encode_utf8(url), encode_utf8(other), at),
        !begin_alike(key_states(url, auth).0, key_states(other, auth).0),
        !begin_alike(key_states(url, auth).1, key_states(other, auth).1),
        !begin_alike(key_states(url, auth).2, key_states(other, auth).2),
    ensures
        download_queue::key_of(url, auth) != download_queue::key_of(other, auth),
{
    let (a, b, c) = key_states(url, auth);
    let (x, y, z) = key_states(other, auth);
    let end = seq![0xffu8];
    law_hash_sees_every_position(0, encode_utf8(url), encode_utf8(other), at);
    lemma_written_stays_different(a, x, end);
    lemma_written_stays_different(b, y, encode_utf8(auth));
    lemma_written_stays_different(c, z, end);
    numerals::law_hex_tells_numbers_apart(
        download_queue::fnv_written(c, end),
        download_queue::fnv_written(z, end),
    );
}

/// Two credentials whose bytes are as many and differ at one position have different keys for the
/// same address, if the states behind them are not those that begin alike.
pub proof fn law_keys_tell_credentials_apart(
    url: Seq<char>,
    auth: Seq<char>,
    other: Seq<char>,
    at: int,
)
    requires
        differ_at(encode_utf8(auth), encode_utf8(other), at),
        !begin_alike(key_states(url, auth).2, key_states(url, other).2),
    ensures
        download_queue::key_of(url, auth) != download_queue::key_of(url, other),
{
    let c = key_states(url, auth).2;
    let z = key_states(url, other).2;
    let end = seq![0xffu8];
    law_hash_sees_every_position(
        key_states(url, auth).1,
        encode_utf8(auth),
        encode_utf8(other),
        at,
    );
    lemma_written_stays_different(c, z, end);
    numerals::law_hex_tells_numbers_apart(
        download_queue::fnv_written(c, end),
        download_queue::fnv_written(z, end),
    );
}

/// Credentials count with their whole text, and missing ones as empty ones.
pub proof fn law_credentials(auth: String)
    ensures
        download_queue::auth_text(Some(auth)) == auth@,
        download_queue::auth_text(None).len() == 0,
{
}

/// A book is kept in its directory, under its key and the extension of EPUB, behind one slash.
pub proof fn law_book_path(dir: Seq<char>, url: Seq<char>, auth: Seq<char>)
    ensures
        ({
            let name = download_queue::key_of(url, auth) + ".epub"@;
            &&& download_queue::path_of(Seq::empty(), url, auth) == name
            &&& download_queue::path_of(dir + "/"@, url, auth) == dir + "/"@ + name
            &&& dir.len() > 0 && dir.last() != '/' ==> download_queue::path_of(dir, url, auth)
                == dir + "/"@ + name
        }),
{
    reveal_strlit("/");
    let name = download_queue::key_of(url, auth) + ".epub"@;
    assert(Seq::<char>::empty() + name =~= name);
    assert((dir + "/"@).last() == '/');
}

/// Books with different keys are kept in different files.
pub proof fn law_book_paths_differ(
    dir: Seq<char>,
    url: Seq<char>,
    auth: Seq<char>,
    other_url: Seq<char>,
    other_auth: Seq<char>,
)
    requires
        download_queue::key_of(url, auth) != download_queue::key_of(other_url, other_auth),
    ensures
        download_queue::path_of(dir, url, auth) != download_queue::path_of(
            dir,
            other_url,
            other_auth,
        ),
{
    let a = download_queue::path_of(dir, url, auth);
    let b = download_queue::path_of(dir, other_url, other_auth);
    let key = download_queue::key_of(url, auth);
    let other = download_queue::key_of(other_url, other_auth);
    if a == b {
        reveal_strlit(".epub");
        reveal_strlit("/");
        numbers::lemma_hex_text(
            download_queue::fnv_text(download_queue::fnv_text(0, url), auth) as nat,
            16,
        );
        numbers::lemma_hex_text(
            download_queue::fnv_text(download_queue::fnv_text(0, other_url), other_auth) as nat,
            16,
        );
        assert(key =~= a.subrange(a.len() - 21, a.len() - 5));
        assert(other =~= b.subrange(b.len() - 21, b.len() - 5));
    }
}

/// Nothing, or a path that ends in a slash.
pub open spec fn is_directory_part(front: Seq<char>) -> bool {
    front.len() == 0 || front.last() == '/'
}

/// The last component of a path that ends in a name.
proof fn lemma_last_component(front: Seq<char>, name: Seq<char>)
    requires
        is_directory_part(front),
        name.len() > 0,
        name != "."@,
        !name.contains('/'),
    ensures
        download_queue::without_trailing_dots(front + name) == front + name,
        text::last_of(front + name, seq!['/']) == front.len() - 1,
        download_queue::last_component(front + name) == name,
{
    reveal_strlit(".");
    let path = front + name;
    let slash = seq!['/'];
    assert(slash[0] == '/');
    assert forall|i: int| 0 <= i < name.len() implies !slash.contains(#[trigger] name[i]) by {
        assert(name.contains(name[i]));
    }
    assert(name.contains(name.last()));
    assert(path.last() == name.last());
    if name.len() > 1 {
        assert(path[path.len() - 2] == name[name.len() - 2]);
        assert(name.contains(name[name.len() - 2]));
    } else {
        assert(name.last() != '.') by {
            if name.last() == '.' {
                assert(name =~= "."@);
            }
        }
    }
    words::law_after_last(front, name, slash);
}

/// A temporary file stands beside the file that it is for: its name is that of the file, without its
/// extension, and behind it the label, the nonce and the extension of temporary files.
pub proof fn law_tmp_path(
    front: Seq<char>,
    stem: Seq<char>,
    ext: Seq<char>,
    label: Seq<char>,
    nonce: nat,
)
    requires
        is_directory_part(front),
        stem.len() > 0,
        !stem.contains('/'),
        ext.len() > 0,
        !ext.contains('/'),
        !ext.contains('.'),
    ensures
        download_queue::names_file(front + (stem + "."@ + ext)),
        download_queue::tmp_path(front + (stem + "."@ + ext), label, nonce) == front + stem + (
        "."@ + label + "."@ + numbers::decimal_text(nonce) + ".tmp"@),
{
    reveal_strlit(".");
    reveal_strlit("..");
    let name = stem + "."@ + ext;
    let path = front + name;
    let dot = seq!['.'];
    assert(dot[0] == '.');
    if name.contains('/') {
        let i = choose|i: int| 0 <= i < name.len() && name[i] == '/';
        if i < stem.len() {
            assert(stem[i] == '/');
        } else {
            assert(ext[i - stem.len() - 1] == '/');
        }
    }
    lemma_last_component(front, name);
    assert forall|i: int| 0 <= i < ext.len() implies !dot.contains(#[trigger] ext[i]) by {
        assert(ext.contains(ext[i]));
    }
    words::law_after_last(stem + "."@, ext, dot);
    assert(name =~= stem + "."@ + ext);
    assert(path.skip(front.len() as int) =~= name);
    assert(path.take((front.len() + stem.len()) as int) =~= front + stem);
}

/// A name with no dot but at its front has no extension to lose.
pub proof fn law_tmp_path_without_extension(
    front: Seq<char>,
    name: Seq<char>,
    label: Seq<char>,
    nonce: nat,
)
    requires
        is_directory_part(front),
        name.len() > 0,
        name != "."@,
        !name.contains('/'),
        forall|i: int| 0 < i < name.len() ==> #[trigger] name[i] != '.',
    ensures
        download_queue::names_file(front + name),
        download_queue::tmp_path(front + name, label, nonce) == front + name + ("."@ + label + "."@
            + numbers::decimal_text(nonce) + ".tmp"@),
{
    reveal_strlit(".");
    reveal_strlit("..");
    let path = front + name;
    let dot = seq!['.'];
    assert(dot[0] == '.');
    lemma_last_component(front, name);
    assert(name != ".."@) by {
        if name == ".."@ {
            assert(name[1] == '.');
        }
    }
    assert(path.skip(front.len() as int) =~= name);
    let at: int = if name[0] == '.' {
        0
    } else {
        -1
    };
    assert forall|i: int| at < i < name.len() implies !dot.contains(#[trigger] name[i]) by {}
    text::lemma_last_of(name, dot, at);
}

/// A path that ends in `..` names no file, and stays as it is.
pub proof fn law_tmp_path_of_no_file(front: Seq<char>, label: Seq<char>, nonce: nat)
    requires
        is_directory_part(front),
    ensures
        !download_queue::names_file(front + ".."@),
        download_queue::tmp_path(front + ".."@, label, nonce) == front + ".."@,
        download_queue::tmp_path(Seq::empty(), label, nonce).len() == 0,
{
    reveal_strlit(".");
    reveal_strlit("..");
    assert(".."@.len() != "."@.len());
    lemma_last_component(front, ".."@);
    let none = Seq::<char>::empty();
    assert(download_queue::without_trailing_dots(none) == none);
    words::law_after_last(none, none, seq!['/']);
    assert(none + none =~= none);
}

/// Slashes at the end of a path, and single dots between them, do not matter to a temporary file.
pub proof fn law_tmp_path_of_trailing_slash(path: Seq<char>, label: Seq<char>, nonce: nat)
    ensures
        download_queue::names_file(path + "/"@) == download_queue::names_file(path),
        download_queue::names_file(path + "/."@) == download_queue::names_file(path),
        download_queue::names_file(path) ==> download_queue::tmp_path(path + "/"@, label, nonce)
            == download_queue::tmp_path(path, label, nonce) && download_queue::tmp_path(
            path + "/."@,
            label,
            nonce,
        ) == download_queue::tmp_path(path, label, nonce),
{
    reveal_strlit("/");
    reveal_strlit("/.");
    assert((path + "/"@).drop_last() =~= path);
    assert((path + "/."@).drop_last() =~= path + "/"@);
    reveal_with_fuel(download_queue::without_trailing_dots, 3);
}

/// A kept book is fresh, however old, if books are served once; else it is while it is no older than
/// it may be, and expired once it is older. A book that is not there is neither, and neither is one
/// whose age cannot be told.
pub proof fn law_age(age: u64, ttl_secs: u64, age_secs: Option<u64>)
    ensures
        !download_queue::is_fresh((CachedFile { exists: false, age_secs }), ttl_secs),
        !download_queue::is_expired((CachedFile { exists: false, age_secs }), ttl_secs),
        download_queue::is_fresh((CachedFile { exists: true, age_secs }), 0),
        !download_queue::is_expired((CachedFile { exists: true, age_secs }), 0),
        ttl_secs > 0 ==> {
            let known = CachedFile { exists: true, age_secs: Some(age) };
            let unknown = CachedFile { exists: true, age_secs: None };
            &&& download_queue::is_fresh(known, ttl_secs) <==> age <= ttl_secs
            &&& download_queue::is_expired(known, ttl_secs) <==> age > ttl_secs
            &&& !download_queue::is_fresh(unknown, ttl_secs)
            &&& !download_queue::is_expired(unknown, ttl_secs)
        },
{
}

/// A request for a fresh book is served its file, whatever the table holds, and changes nothing. The
/// file is deleted behind it exactly if books are served once.
pub proof fn law_fresh_book_is_served(
    jobs: Map<Seq<char>, JobView>,
    key: Seq<char>,
    path: Seq<char>,
    ttl_secs: u64,
)
    ensures
        ({
            let a = download_queue::answer(jobs, key, path, true, ttl_secs);
            &&& a.state matches StateView::Ready { path: p, delete_after_open }
            &&& p == path
            &&& delete_after_open <==> ttl_secs == 0
            &&& a.jobs == jobs
            &&& !a.starts
        }),
{
}

/// Without a fresh book, a request starts a preparation exactly if the table holds none, and no
/// request is served a file.
pub proof fn law_other_requests(
    jobs: Map<Seq<char>, JobView>,
    key: Seq<char>,
    path: Seq<char>,
    ttl_secs: u64,
    other: Seq<char>,
)
    ensures
        ({
            let a = download_queue::answer(jobs, key, path, false, ttl_secs);
            &&& a.starts <==> !jobs.contains_key(key)
            &&& a.starts ==> a.state == StateView::Preparing && a.jobs.contains_key(key)
                && a.jobs[key] == JobView::Preparing
            &&& jobs.contains_key(key) && jobs[key] == JobView::Preparing ==> a.state
                == StateView::Preparing && a.jobs == jobs
            &&& jobs.contains_key(key) ==> (jobs[key] matches JobView::Failed(e) ==> a.state
                == StateView::Failed(e) && !a.jobs.contains_key(key))
            &&& other != key ==> (a.jobs.contains_key(other) <==> jobs.contains_key(other)) && (
            jobs.contains_key(other) ==> a.jobs[other] == jobs[other])
        }),
{
}

/// A preparation that ends leaves no entry of its own if it went well, and its error if it failed;
/// the entries of others stay.
pub proof fn law_ended_preparation(
    jobs: Map<Seq<char>, JobView>,
    key: Seq<char>,
    error: Seq<char>,
    other: Seq<char>,
)
    ensures
        !download_queue::after_job(jobs, key, None).contains_key(key),
        download_queue::after_job(jobs, key, Some(error)).contains_key(key),
        download_queue::after_job(jobs, key, Some(error))[key] == JobView::Failed(error),
        other != key && jobs.contains_key(other) ==> {
            &&& download_queue::after_job(jobs, key, None).contains_key(other)
            &&& download_queue::after_job(jobs, key, None)[other] == jobs[other]
            &&& download_queue::after_job(jobs, key, Some(error)).contains_key(other)
            &&& download_queue::after_job(jobs, key, Some(error))[other] == jobs[other]
        },
        other != key && !jobs.contains_key(other) ==> !download_queue::after_job(
            jobs,
            key,
            None,
        ).contains_key(other) && !download_queue::after_job(jobs, key, Some(error)).contains_key(
            other,
        ),
{
}

/// The models of states hold all that the states hold.
pub proof fn law_state_models(path: String, delete_after_open: bool, error: String)
    ensures
        (DownloadState::Ready { path, delete_after_open })@ == (StateView::Ready {
            path: path@,
            delete_after_open,
        }),
        DownloadState::Preparing@ == StateView::Preparing,
        DownloadState::Failed(error)@ == StateView::Failed(error@),
        JobStatus::Preparing@ == JobView::Preparing,
        JobStatus::Failed(error)@ == JobView::Failed(error@),
{
}

} // verus!
