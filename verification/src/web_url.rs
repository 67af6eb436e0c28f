//! URLs as plain values, parsed, joined and extended by the url crate.

use url::Url;
use vstd::prelude::*;
use vstd::string::*;
use vstd::utf8::*;

verus! {

/// What the proxy reads of a URL.
#[derive(Debug)]
pub struct WebUrl {
    /// The URL written out.
    pub text: String,
    /// Its path.
    pub path: String,
    /// The decoded name and value of each pair of its query, in order.
    pub pairs: Vec<(String, String)>,
}

/// The model of a `WebUrl`.
pub struct UrlView {
    pub text: Seq<char>,
    pub path: Seq<char>,
    pub pairs: Seq<(Seq<char>, Seq<char>)>,
}

impl View for WebUrl {
    type V = UrlView;

    open spec fn view(&self) -> UrlView {
        UrlView { text: self.text@, path: self.path@, pairs: pair_views(self.pairs@) }
    }
}

/// The models of a list of pairs.
pub open spec fn pair_views(pairs: Seq<(String, String)>) -> Seq<(Seq<char>, Seq<char>)> {
    pairs.map_values(|p: (String, String)| (p.0@, p.1@))
}

/// The URL that a text is.
pub uninterp spec fn parsed_url(text: Seq<char>) -> Result<UrlView, url::ParseError>;

/// The URL that `reference` names when it is read from the URL `base`.
pub uninterp spec fn joined_url(base: Seq<char>, reference: Seq<char>) -> Result<
    UrlView,
    url::ParseError,
>;

/// `base` is a web address.
pub open spec fn is_web_address(base: Seq<char>) -> bool {
    &&& "http://"@.is_prefix_of(base) || "https://"@.is_prefix_of(base)
    &&& parsed_url(base) is Ok
}

/// A query fits behind the URL that `path` names when it is read from `base`: the URL is shorter
/// than four gigabytes. The url crate keeps the position of a query in 32 bits, and panics where a
/// query is appended behind that.
pub open spec fn takes_query(base: Seq<char>, path: Seq<char>) -> bool {
    joined_url(base, path) matches Ok(joined) ==> encode_utf8(joined.text).len() <= 0xffff_ffff
}

/// Parsing the text of the URL gives the URL.
pub open spec fn parses_back(u: UrlView) -> bool {
    parsed_url(u.text) == Ok::<UrlView, url::ParseError>(u)
}

/// If the text of the URL can be parsed, that gives the path and the query pairs of the URL.
pub open spec fn parses_alike(u: UrlView) -> bool {
    parsed_url(u.text) matches Ok(parsed) ==> parsed.path == u.path && parsed.pairs == u.pairs
}

/// `c` is a small ASCII letter.
pub open spec fn is_small_letter(c: char) -> bool {
    'a' <= c && c <= 'z'
}

/// `word` consists of small ASCII letters.
pub open spec fn is_word(word: Seq<char>) -> bool {
    word.len() > 0 && forall|i: int| 0 <= i < word.len() ==> is_small_letter(#[trigger] word[i])
}

/// `path` is a slash and a word behind it.
pub open spec fn is_word_path(path: Seq<char>) -> bool {
    path.len() > 0 && path[0] == '/' && is_word(path.skip(1))
}

/// The capital hexadecimal digit of a number below 16.
pub open spec fn hex_digit(n: u8) -> char {
    if n < 10 {
        ((n + 0x30) as u8) as char
    } else {
        ((n - 10 + 0x41) as u8) as char
    }
}

/// A byte as it stands in a form-encoded name or value.
pub open spec fn form_byte(b: u8) -> Seq<char> {
    if 0x30 <= b <= 0x39 || 0x41 <= b <= 0x5a || 0x61 <= b <= 0x7a || b == 0x2a || b == 0x2d || b
        == 0x2e || b == 0x5f {
        seq![b as char]
    } else if b == 0x20 {
        seq!['+']
    } else {
        seq!['%', hex_digit((b / 16) as u8), hex_digit((b % 16) as u8)]
    }
}

/// Bytes as they stand in a form-encoded name or value.
pub open spec fn form_bytes(bytes: Seq<u8>) -> Seq<char>
    decreases bytes.len(),
{
    if bytes.len() == 0 {
        Seq::empty()
    } else {
        form_byte(bytes[0]) + form_bytes(bytes.skip(1))
    }
}

/// A query that holds the one pair `key` and `value`, with its question mark.
pub open spec fn query_of(key: Seq<char>, value: Seq<char>) -> Seq<char> {
    "?"@ + form_bytes(encode_utf8(key)) + "="@ + form_bytes(encode_utf8(value))
}

/// `url::Url::parse`, with what the proxy reads of the URL. A text that opens with a slash has
/// no scheme and is no URL.
#[verifier::external_body]
pub(crate) fn parse_url(text: &str) -> (r: Result<WebUrl, url::ParseError>)
    ensures
        (match r {
            Ok(u) => parsed_url(text@) == Ok::<UrlView, url::ParseError>(u@),
            Err(e) => parsed_url(text@) == Err::<UrlView, url::ParseError>(e),
        }),
        text@.len() > 0 && text@[0] == '/' ==> r is Err,
{
    let url = Url::parse(text)?;
    let pairs = url.query_pairs().into_owned().collect();
    Ok(WebUrl { text: url.to_string(), path: url.path().to_string(), pairs })
}

/// `url::Url::join` on the URL that `base` is, with what the proxy reads of the result. Where
/// `base` is a web address and `reference` a word path with a query of one pair, and the query fits
/// behind the path, the result has that path and that pair: the query is taken over as it stands
/// and decoded.
#[verifier::external_body]
pub(crate) fn join_url(base: &str, reference: &str) -> (r: Result<WebUrl, url::ParseError>)
    ensures
        (match r {
            Ok(u) => joined_url(base@, reference@) == Ok::<UrlView, url::ParseError>(u@),
            Err(e) => joined_url(base@, reference@) == Err::<UrlView, url::ParseError>(e),
        }),
        forall|path: Seq<char>, key: Seq<char>, value: Seq<char>|
            is_web_address(base@) && is_word_path(path) && takes_query(base@, path) && is_word(key)
                && reference@ == #[trigger] (path + query_of(key, value)) ==> (r is Ok
                && r->Ok_0.path@ == path && r->Ok_0@.pairs == seq![(key, value)]),
{
    let url = Url::parse(base)?.join(reference)?;
    let pairs = url.query_pairs().into_owned().collect();
    Ok(WebUrl { text: url.to_string(), path: url.path().to_string(), pairs })
}

/// `url::Url::join` with a word path on the URL that `base` is, then
/// `url::form_urlencoded::Serializer::append_pair` on its query. The joined URL has neither
/// query nor fragment, so the pair comes last in the text, form-encoded, and is the only one.
/// On a web address the join succeeds, the path is the given one, and it stands right before the
/// query. Where the text of the result is parsed again, the path and the query are found in it as
/// they were written. It can be parsed if the text of the joined URL can: that is not so of every
/// URL, for the host of one that was read from international letters can be too long to be read
/// in its ASCII form.
#[verifier::external_body]
pub(crate) fn join_with_pair(base: &str, path: &str, key: &str, value: &str) -> (r: Result<
    WebUrl,
    url::ParseError,
>)
    requires
        is_word_path(path@),
        takes_query(base@, path@),
    ensures
        (match r {
            Ok(u) => {
                &&& joined_url(base@, path@) matches Ok(joined)
                &&& u.text@ == joined.text + query_of(key@, value@)
                &&& u.path@ == joined.path
                &&& u@.pairs == seq![(key@, value@)]
            },
            Err(e) => joined_url(base@, path@) == Err::<UrlView, url::ParseError>(e),
        }),
        is_web_address(base@) ==> r is Ok && r->Ok_0.path@ == path@ && (path@ + query_of(
            key@,
            value@,
        )).is_suffix_of(r->Ok_0.text@),
        is_web_address(base@) ==> r is Ok && parses_alike(r->Ok_0@),
        is_web_address(base@) && (joined_url(base@, path@) matches Ok(joined) && parses_back(
            joined,
        )) ==> r is Ok && parses_back(r->Ok_0@),
{
    let mut url = Url::parse(base)?.join(path)?;
    url.query_pairs_mut().append_pair(key, value);
    let pairs = url.query_pairs().into_owned().collect();
    Ok(WebUrl { text: url.to_string(), path: url.path().to_string(), pairs })
}

/// Whether a query fits behind the URL that `path` names when it is read from `base`.
pub fn can_take_query(base: &str, path: &str) -> (r: bool)
    ensures
        r == takes_query(base@, path@),
{
    match join_url(base, path) {
        Ok(joined) => {
            let bytes: &[u8] = joined.text.as_str().as_bytes();
            bytes.len() as u64 <= 0xffff_ffff
        },
        Err(_) => true,
    }
}

} // verus!
