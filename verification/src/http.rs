//! HTTP requests and replies: what a request asks for, what is fetched upstream for it, and what
//! the client is answered.

use vstd::prelude::*;
use vstd::string::*;

use crate::config::ProxyConfig;
use crate::download_queue;
use crate::download_queue::{DownloadState, StateView};
use crate::error::{invalid_url, ProxyError};
use crate::opds;
use crate::opds::{can_hold_links, rewrite};
use crate::text;
use crate::text::{equal_ignoring_case, same_text, trim, trim_trailing};
use crate::web_url;
use crate::web_url::{join_url, parse_url, UrlView, WebUrl};
use crate::xml;

verus! {

/// A request as a client sends it.
#[derive(Debug)]
pub struct IncomingRequest {
    /// The target of the request line.
    pub url: String,
    /// The name and the value of each header, in order.
    pub headers: Vec<(String, String)>,
}

/// The value of the first header named `field`, in capitals or small letters.
pub open spec fn header_value(headers: Seq<(Seq<char>, Seq<char>)>, field: Seq<char>) -> Option<
    Seq<char>,
>
    decreases headers.len(),
{
    if headers.len() == 0 {
        None
    } else if text::same_ignoring_case(headers[0].0, field) {
        Some(headers[0].1)
    } else {
        header_value(headers.skip(1), field)
    }
}

/// The header of a request named `field`.
pub open spec fn header_of(req: IncomingRequest, field: Seq<char>) -> Option<Seq<char>> {
    header_value(web_url::pair_views(req.headers@), field)
}

/// The value of the first pair named `key`.
pub open spec fn pair_value(pairs: Seq<(Seq<char>, Seq<char>)>, key: Seq<char>) -> Option<Seq<char>>
    decreases pairs.len(),
{
    if pairs.len() == 0 {
        None
    } else if pairs[0].0 == key {
        Some(pairs[0].1)
    } else {
        pair_value(pairs.skip(1), key)
    }
}

/// The address of this proxy as far as the request tells it.
pub open spec fn own_address(req: IncomingRequest) -> Seq<char> {
    "http://"@ + match header_of(req, "Host"@) {
        Some(host) => host,
        None => "localhost:8088"@,
    }
}

/// The URL that a request asks for: its target if that is a whole URL, else its target read from
/// the address of this proxy.
pub open spec fn target_of(req: IncomingRequest) -> Result<UrlView, url::ParseError> {
    match web_url::parsed_url(req.url@) {
        Ok(u) => Ok(u),
        Err(_) => web_url::joined_url(own_address(req), req.url@),
    }
}

/// The address under which links of a catalog lead to this proxy.
pub open spec fn link_base(cfg: ProxyConfig, req: IncomingRequest) -> Seq<char> {
    match cfg.public_url {
        Some(u) => text::without_trailing(u@, '/'),
        None => own_address(req),
    }
}

/// The value of the first header named `field`, in capitals or small letters.
pub fn get_header(req: &IncomingRequest, field: &str) -> (r: Option<String>)
    ensures
        text::optional(r) == header_of(*req, field@),
{
    let ghost all = web_url::pair_views(req.headers@);
    let mut i: usize = 0;
    proof {
        assert(all.skip(0) =~= all);
    }
    while i < req.headers.len()
        invariant
            all == web_url::pair_views(req.headers@),
            i <= req.headers.len(),
            header_value(all, field@) == header_value(all.skip(i as int), field@),
        decreases req.headers.len() - i,
    {
        proof {
            assert(all.skip(i as int)[0] == (req.headers@[i as int].0@, req.headers@[i as int].1@));
            assert(all.skip(i as int).skip(1) =~= all.skip(i + 1));
        }
        if equal_ignoring_case(req.headers[i].0.as_str(), field) {
            return Some(req.headers[i].1.clone());
        }
        i += 1;
    }
    None
}

/// The decoded value of the first query pair of a URL named `key`.
pub fn query_param(url: &WebUrl, key: &str) -> (r: Option<String>)
    ensures
        text::optional(r) == pair_value(url@.pairs, key@),
{
    let ghost all = url@.pairs;
    let mut i: usize = 0;
    proof {
        assert(all.skip(0) =~= all);
    }
    while i < url.pairs.len()
        invariant
            all == url@.pairs,
            i <= url.pairs.len(),
            pair_value(all, key@) == pair_value(all.skip(i as int), key@),
        decreases url.pairs.len() - i,
    {
        proof {
            assert(all.skip(i as int)[0] == (url.pairs@[i as int].0@, url.pairs@[i as int].1@));
            assert(all.skip(i as int).skip(1) =~= all.skip(i + 1));
        }
        if same_text(url.pairs[i].0.as_str(), key) {
            return Some(url.pairs[i].1.clone());
        }
        i += 1;
    }
    None
}

/// The address of this proxy as far as the request tells it.
fn request_address(req: &IncomingRequest) -> (r: String)
    ensures
        r@ == own_address(*req),
{
    let mut base: String = "http://".to_owned();
    match get_header(req, "Host") {
        Some(host) => base.append(host.as_str()),
        None => base.append("localhost:8088"),
    }
    base
}

/// The URL that a request asks for. Where the target is one of the proxy's paths with an upstream
/// URL in its query, as the links of a catalog have it, that path and that URL come out again.
pub fn request_target(req: &IncomingRequest) -> (r: Result<WebUrl, ProxyError>)
    ensures
        (match r {
            Ok(u) => target_of(*req) == Ok::<UrlView, url::ParseError>(u@),
            Err(x) => target_of(*req) matches Err(e) && x == ProxyError::Url(e),
        }),
        forall|path: Seq<char>, upstream: Seq<char>|
            web_url::is_web_address(own_address(*req)) && web_url::is_word_path(path)
                && web_url::takes_query(own_address(*req), path) && req.url@
                == #[trigger] (path + web_url::query_of("u"@, upstream))
                ==> (r is Ok && r->Ok_0@.path == path && r->Ok_0@.pairs == seq![("u"@, upstream)]),
{
    proof {
        reveal_strlit("u");
        assert(web_url::is_word("u"@));
        assert forall|path: Seq<char>, upstream: Seq<char>|
            web_url::is_word_path(path) && req.url@ == #[trigger] (path + web_url::query_of(
                "u"@,
                upstream,
            )) implies req.url@.len() > 0 && req.url@[0] == '/' by {}
    }
    if let Ok(url) = parse_url(req.url.as_str()) {
        return Ok(url);
    }
    match join_url(request_address(req).as_str(), req.url.as_str()) {
        Ok(url) => Ok(url),
        Err(e) => Err(invalid_url(e)),
    }
}

/// The address under which links of a catalog lead to this proxy.
pub fn public_base(cfg: &ProxyConfig, req: &IncomingRequest) -> (r: String)
    ensures
        r@ == link_base(*cfg, *req),
{
    match &cfg.public_url {
        Some(u) => trim_trailing(u.as_str(), '/'),
        None => request_address(req),
    }
}

/// What a reply carries.
#[derive(Debug)]
pub enum Body {
    /// Plain text.
    Text(String),
    /// Bytes of the type that the reply's headers give.
    Data(Vec<u8>),
}

/// The model of a `Body`.
pub enum BodyView {
    Text(Seq<char>),
    Data(Seq<u8>),
}

impl View for Body {
    type V = BodyView;

    open spec fn view(&self) -> BodyView {
        match *self {
            Body::Text(text) => BodyView::Text(text@),
            Body::Data(bytes) => BodyView::Data(bytes@),
        }
    }
}

/// A reply to a client.
#[derive(Debug)]
pub struct Reply {
    pub status: u16,
    pub headers: Vec<(String, String)>,
    pub body: Body,
}

/// The model of a `Reply`.
pub struct ReplyView {
    pub status: u16,
    pub headers: Seq<(Seq<char>, Seq<char>)>,
    pub body: BodyView,
}

impl View for Reply {
    type V = ReplyView;

    open spec fn view(&self) -> ReplyView {
        ReplyView {
            status: self.status,
            headers: web_url::pair_views(self.headers@),
            body: self.body@,
        }
    }
}

/// A reply of plain text.
pub open spec fn text_reply(status: u16, text: Seq<char>) -> ReplyView {
    ReplyView { status, headers: Seq::empty(), body: BodyView::Text(text) }
}

/// A reply of data of a given type.
pub open spec fn data_reply(content_type: Seq<char>, bytes: Seq<u8>) -> ReplyView {
    ReplyView {
        status: 200,
        headers: seq![("Content-Type"@, content_type)],
        body: BodyView::Data(bytes),
    }
}

/// A reply of plain text.
fn reply_text(status: u16, text: String) -> (r: Reply)
    ensures
        r@ == text_reply(status, text@),
{
    let headers: Vec<(String, String)> = Vec::new();
    assert(web_url::pair_views(headers@) =~= Seq::empty());
    Reply { status, headers, body: Body::Text(text) }
}

/// A header.
fn header_kv(field: &str, value: &str) -> (r: (String, String))
    ensures
        (r.0@, r.1@) == (field@, value@),
{
    (field.to_owned(), value.to_owned())
}

/// A reply of data of a given type.
fn reply_data(content_type: &str, bytes: Vec<u8>) -> (r: Reply)
    ensures
        r@ == data_reply(content_type@, bytes@),
        r.status == 200,
        r.body == Body::Data(bytes),
{
    let mut headers: Vec<(String, String)> = Vec::new();
    headers.push(header_kv("Content-Type", content_type));
    assert(web_url::pair_views(headers@) =~= seq![("Content-Type"@, content_type@)]);
    Reply { status: 200, headers, body: Body::Data(bytes) }
}

/// A request that is sent upstream.
#[derive(Debug)]
pub struct UpstreamRequest {
    pub url: String,
    /// The value of its `Authorization` header, if it has one.
    pub authorization: Option<String>,
}

/// What a request leads to.
#[derive(Debug)]
pub enum Action {
    /// The health route. It has no answer: the program panics on it.
    Health,
    /// The reply is known.
    Respond(Reply),
    /// A catalog is fetched and rewritten with links that lead to `base`.
    Feed { upstream: UpstreamRequest, base: String },
    /// A file is fetched and handed on.
    Fetch(UpstreamRequest),
    /// A stripped book is asked for.
    Download { url: String, auth: Option<String> },
}

/// The model of an `Action`.
pub enum ActionView {
    Health,
    Respond(ReplyView),
    Feed { url: Seq<char>, authorization: Option<Seq<char>>, base: Seq<char> },
    Fetch { url: Seq<char>, authorization: Option<Seq<char>> },
    Download { url: Seq<char>, auth: Option<Seq<char>> },
}

impl View for Action {
    type V = ActionView;

    open spec fn view(&self) -> ActionView {
        match *self {
            Action::Health => ActionView::Health,
            Action::Respond(reply) => ActionView::Respond(reply@),
            Action::Feed { upstream, base } => ActionView::Feed {
                url: upstream.url@,
                authorization: text::optional(upstream.authorization),
                base: base@,
            },
            Action::Fetch(upstream) => ActionView::Fetch {
                url: upstream.url@,
                authorization: text::optional(upstream.authorization),
            },
            Action::Download { url, auth } => ActionView::Download {
                url: url@,
                auth: text::optional(auth),
            },
        }
    }
}

/// What a request for `target` leads to.
pub open spec fn action_of(
    target: UrlView,
    storyteller_url: Seq<char>,
    auth: Option<Seq<char>>,
    base: Seq<char>,
) -> ActionView {
    let upstream = pair_value(target.pairs, "u"@);
    if target.path == "/health"@ {
        ActionView::Health
    } else if target.path == "/"@ || target.path == "/opds"@ {
        ActionView::Feed {
            url: match upstream {
                Some(u) => u,
                None => storyteller_url + "/opds"@,
            },
            authorization: auth,
            base,
        }
    } else if target.path == "/fetch"@ {
        match upstream {
            Some(url) => ActionView::Fetch { url, authorization: text::optional_trimmed(auth) },
            None => ActionView::Respond(text_reply(400, "missing u"@)),
        }
    } else if target.path == "/download"@ {
        match upstream {
            Some(url) => ActionView::Download { url, auth },
            None => ActionView::Respond(text_reply(400, "missing u"@)),
        }
    } else {
        ActionView::Respond(text_reply(404, "not found"@))
    }
}

/// What the catalog route leads to: the catalog that the request names, or that at the root.
fn route_opds(cfg: &ProxyConfig, target: &WebUrl, auth: Option<String>, base: String) -> (r: Action)
    ensures
        r@ == (ActionView::Feed {
            url: match pair_value(target@.pairs, "u"@) {
                Some(u) => u,
                None => cfg.storyteller_url@ + "/opds"@,
            },
            authorization: text::optional(auth),
            base: base@,
        }),
{
    let url: String = match query_param(target, "u") {
        Some(u) => u,
        None => {
            let mut root: String = cfg.storyteller_url.clone();
            root.append("/opds");
            root
        },
    };
    Action::Feed { upstream: UpstreamRequest { url, authorization: auth }, base }
}

/// What the file route leads to.
fn route_fetch(target: &WebUrl, auth: Option<String>) -> (r: Action)
    ensures
        r@ == (match pair_value(target@.pairs, "u"@) {
            Some(url) => ActionView::Fetch {
                url,
                authorization: text::optional_trimmed(text::optional(auth)),
            },
            None => ActionView::Respond(text_reply(400, "missing u"@)),
        }),
{
    match query_param(target, "u") {
        Some(url) => {
            let authorization: Option<String> = match auth {
                Some(text) => Some(trim(text.as_str())),
                None => None,
            };
            Action::Fetch(UpstreamRequest { url, authorization })
        },
        None => Action::Respond(reply_text(400, "missing u".to_owned())),
    }
}

/// What the book route leads to.
fn route_download(target: &WebUrl, auth: Option<String>) -> (r: Action)
    ensures
        r@ == (match pair_value(target@.pairs, "u"@) {
            Some(url) => ActionView::Download { url, auth: text::optional(auth) },
            None => ActionView::Respond(text_reply(400, "missing u"@)),
        }),
{
    match query_param(target, "u") {
        Some(url) => Action::Download { url, auth },
        None => Action::Respond(reply_text(400, "missing u".to_owned())),
    }
}

/// Dispatches a request for `target` to the matching route.
pub fn route(target: &WebUrl, cfg: &ProxyConfig, auth: Option<String>, base: String) -> (r: Action)
    ensures
        r@ == action_of(
            target@,
            cfg.storyteller_url@,
            text::optional(auth),
            base@,
        ),
{
    let path: &str = target.path.as_str();
    if same_text(path, "/health") {
        Action::Health
    } else if same_text(path, "/") || same_text(path, "/opds") {
        route_opds(cfg, target, auth, base)
    } else if same_text(path, "/fetch") {
        route_fetch(target, auth)
    } else if same_text(path, "/download") {
        route_download(target, auth)
    } else {
        Action::Respond(reply_text(404, "not found".to_owned()))
    }
}

/// Dispatches one request to the matching route. A request for one of the proxy's paths with an
/// upstream URL in its query, as the links of a catalog have it, leads to that upstream URL. A
/// request for `/health` leads to `Action::Health`, on which the program panics: no response is
/// sent, and the thread that handles the request ends.
pub fn handle(req: &IncomingRequest, cfg: &ProxyConfig) -> (r: Result<Action, ProxyError>)
    ensures
        (match r {
            Ok(action) => {
                &&& target_of(*req) matches Ok(target)
                &&& action@ == action_of(
                    target,
                    cfg.storyteller_url@,
                    header_of(*req, "Authorization"@),
                    link_base(*cfg, *req),
                )
            },
            Err(x) => target_of(*req) matches Err(e) && x == ProxyError::Url(e),
        }),
        forall|upstream: Seq<char>|
            web_url::is_web_address(own_address(*req)) && web_url::takes_query(
                own_address(*req),
                "/opds"@,
            ) && req.url@ == "/opds"@
                + #[trigger] web_url::query_of("u"@, upstream) ==> (r is Ok && r->Ok_0@ == (
            ActionView::Feed {
                url: upstream,
                authorization: header_of(*req, "Authorization"@),
                base: link_base(*cfg, *req),
            })),
        forall|upstream: Seq<char>|
            web_url::is_web_address(own_address(*req)) && web_url::takes_query(
                own_address(*req),
                "/fetch"@,
            ) && req.url@ == "/fetch"@
                + #[trigger] web_url::query_of("u"@, upstream) ==> (r is Ok && r->Ok_0@ == (
            ActionView::Fetch {
                url: upstream,
                authorization: text::optional_trimmed(header_of(*req, "Authorization"@)),
            })),
        forall|upstream: Seq<char>|
            web_url::is_web_address(own_address(*req)) && web_url::takes_query(
                own_address(*req),
                "/download"@,
            ) && req.url@ == "/download"@
                + #[trigger] web_url::query_of("u"@, upstream) ==> (r is Ok && r->Ok_0@ == (
            ActionView::Download { url: upstream, auth: header_of(*req, "Authorization"@) })),
{
    let target: WebUrl = match request_target(req) {
        Ok(target) => target,
        Err(x) => {
            proof {
                lemma_route_paths();
            }
            return Err(x);
        },
    };
    let auth: Option<String> = get_header(req, "Authorization");
    let base: String = public_base(cfg, req);
    proof {
        lemma_route_paths();
        assert forall|path: Seq<char>, upstream: Seq<char>|
            web_url::is_web_address(own_address(*req)) && web_url::is_word_path(path)
                && web_url::takes_query(own_address(*req), path) && req.url@
                == #[trigger] (path + web_url::query_of(
                "u"@,
                upstream,
            )) implies target@.path == path && pair_value(target@.pairs, "u"@) == Some(
            upstream,
        ) by {
            assert(target@.pairs[0] == ("u"@, upstream));
        }
    }
    Ok(route(&target, cfg, auth, base))
}

/// The paths of the proxy's routes are word paths and differ from one another.
proof fn lemma_route_paths()
    ensures
        web_url::is_word_path("/opds"@),
        web_url::is_word_path("/fetch"@),
        web_url::is_word_path("/download"@),
        "/opds"@.len() == 5,
        "/fetch"@.len() == 6,
        "/download"@.len() == 9,
        "/health"@.len() == 7,
        "/"@.len() == 1,
{
    reveal_strlit("/opds");
    reveal_strlit("/fetch");
    reveal_strlit("/download");
    reveal_strlit("/health");
    reveal_strlit("/");
}

/// The type of an upstream response, or `default` where it gives none.
pub open spec fn type_or(content_type: Option<String>, default: Seq<char>) -> Seq<char> {
    match content_type {
        Some(text) => text@,
        None => default,
    }
}

/// The reply to a catalog request, made of the upstream response: the catalog rewritten, of the
/// type that it came with.
pub fn feed_reply(
    feed_url: &str,
    base: &str,
    content_type: Option<String>,
    body: &[u8],
) -> (r: Result<Reply, ProxyError>)
    requires
        opds::links_fit(base@),
    ensures
        (match opds::feed_rewritten(xml::document(body@), feed_url@, base@) {
            Ok(bytes) => {
                &&& r is Ok
                &&& r->Ok_0@ == data_reply(
                    type_or(content_type, "application/atom+xml;profile=opds-catalog"@),
                    bytes,
                )
                &&& r->Ok_0.status == 200
                &&& r->Ok_0.body matches Body::Data(sent)
                &&& sent@ == bytes
            },
            Err(x) => r == Err::<Reply, ProxyError>(x),
        }),
{
    let rewritten: Vec<u8> = match rewrite(body, feed_url, base) {
        Ok(bytes) => bytes,
        Err(x) => {
            return Err(x);
        },
    };
    match content_type {
        Some(text) => Ok(reply_data(text.as_str(), rewritten)),
        None => Ok(reply_data("application/atom+xml;profile=opds-catalog", rewritten)),
    }
}

/// The reply to a catalog request as `feed_reply` makes it; `None` if `base` is so long that no
/// link can be built on it.
pub fn feed_reply_where_links_fit(
    feed_url: &str,
    base: &str,
    content_type: Option<String>,
    body: &[u8],
) -> (r: Option<Result<Reply, ProxyError>>)
    ensures
        r is Some <==> opds::links_fit(base@),
        r matches Some(reply) ==> (match opds::feed_rewritten(
            xml::document(body@),
            feed_url@,
            base@,
        ) {
            Ok(bytes) => {
                &&& reply is Ok
                &&& reply->Ok_0@ == data_reply(
                    type_or(content_type, "application/atom+xml;profile=opds-catalog"@),
                    bytes,
                )
                &&& reply->Ok_0.status == 200
                &&& reply->Ok_0.body matches Body::Data(sent)
                &&& sent@ == bytes
            },
            Err(x) => reply == Err::<Reply, ProxyError>(x),
        }),
{
    if can_hold_links(base) {
        Some(feed_reply(feed_url, base, content_type, body))
    } else {
        None
    }
}

/// The reply to a file request, made of the upstream response: the same bytes of the same type.
pub fn fetch_reply(content_type: Option<String>, body: Vec<u8>) -> (r: Reply)
    ensures
        r@ == data_reply(type_or(content_type, "application/octet-stream"@), body@),
        r.status == 200,
        r.body == Body::Data(body),
{
    match content_type {
        Some(text) => reply_data(text.as_str(), body),
        None => reply_data("application/octet-stream", body),
    }
}

/// The reply where an upstream request failed: that the client is not authorised, if upstream
/// said so, else what went wrong.
pub open spec fn upstream_failure(status: Option<u16>, message: Seq<char>) -> ReplyView {
    if status == Some(401u16) {
        text_reply(401, "unauthorised"@)
    } else {
        text_reply(502, "upstream error: "@ + message)
    }
}

/// The reply where an upstream request failed, with the status that upstream answered, if it
/// answered one.
pub fn upstream_failure_reply(status: Option<u16>, message: &str) -> (r: Reply)
    ensures
        r@ == upstream_failure(status, message@),
{
    let refused: bool = match status {
        Some(code) => code == 401,
        None => false,
    };
    if refused {
        reply_text(401, "unauthorised".to_owned())
    } else {
        let mut text: String = "upstream error: ".to_owned();
        text.append(message);
        reply_text(502, text)
    }
}

/// The reply to a request for a stripped book.
#[derive(Debug)]
pub enum DownloadReply {
    /// The file at `path` is sent with these headers. It is deleted once it is open, if
    /// `delete_after_open` is set.
    File { path: String, delete_after_open: bool, headers: Vec<(String, String)> },
    /// The reply is known.
    Respond(Reply),
}

/// The model of a `DownloadReply`.
pub enum DownloadReplyView {
    File { path: Seq<char>, delete_after_open: bool, headers: Seq<(Seq<char>, Seq<char>)> },
    Respond(ReplyView),
}

impl View for DownloadReply {
    type V = DownloadReplyView;

    open spec fn view(&self) -> DownloadReplyView {
        match *self {
            DownloadReply::File { path, delete_after_open, headers } => DownloadReplyView::File {
                path: path@,
                delete_after_open,
                headers: web_url::pair_views(headers@),
            },
            DownloadReply::Respond(reply) => DownloadReplyView::Respond(reply@),
        }
    }
}

/// The reply while a book is being prepared: the client may ask again in ten seconds.
pub open spec fn processing() -> ReplyView {
    ReplyView {
        status: 202,
        headers: seq![("Retry-After"@, "10"@)],
        body: BodyView::Text("processing\n"@),
    }
}

/// The reply to a request for a book in the given state.
pub open spec fn reply_to(state: StateView) -> DownloadReplyView {
    match state {
        StateView::Ready { path, delete_after_open } => DownloadReplyView::File {
            path,
            delete_after_open,
            headers: seq![
                ("Content-Type"@, "application/epub+zip"@),
                ("Content-Disposition"@, "attachment; filename=\"readaloud-stripped.epub\""@),
            ],
        },
        StateView::Preparing => DownloadReplyView::Respond(processing()),
        StateView::Failed(error) => DownloadReplyView::Respond(
            text_reply(502, "epub rewrite error: "@ + error),
        ),
    }
}

/// The reply while a book is being prepared.
fn respond_processing() -> (r: Reply)
    ensures
        r@ == processing(),
{
    let mut headers: Vec<(String, String)> = Vec::new();
    headers.push(header_kv("Retry-After", "10"));
    assert(web_url::pair_views(headers@) =~= seq![("Retry-After"@, "10"@)]);
    Reply { status: 202, headers, body: Body::Text("processing\n".to_owned()) }
}

/// The reply that sends a stripped book.
fn respond_epub_file(path: String, delete_after_open: bool) -> (r: DownloadReply)
    ensures
        r@ == reply_to(StateView::Ready { path: path@, delete_after_open }),
{
    let mut headers: Vec<(String, String)> = Vec::new();
    headers.push(header_kv("Content-Type", "application/epub+zip"));
    headers.push(
        header_kv("Content-Disposition", "attachment; filename=\"readaloud-stripped.epub\""),
    );
    assert(web_url::pair_views(headers@) =~= seq![
        ("Content-Type"@, "application/epub+zip"@),
        ("Content-Disposition"@, "attachment; filename=\"readaloud-stripped.epub\""@),
    ]);
    DownloadReply::File { path, delete_after_open, headers }
}

/// The reply to a request for a book in the given state.
pub fn download_reply(state: DownloadState) -> (r: DownloadReply)
    ensures
        r@ == reply_to(state@),
{
    match state {
        DownloadState::Ready { path, delete_after_open } => respond_epub_file(
            path,
            delete_after_open,
        ),
        DownloadState::Preparing => DownloadReply::Respond(respond_processing()),
        DownloadState::Failed(error) => {
            let mut text: String = "epub rewrite error: ".to_owned();
            text.append(error.as_str());
            DownloadReply::Respond(reply_text(502, text))
        },
    }
}

/// A download can be retried: the first request for a book starts its preparation and is told
/// that it is processing, a retry is told the same and starts nothing, and once the preparation
/// went well the same request is sent the book.
pub proof fn law_download_can_be_retried(
    jobs: Map<Seq<char>, download_queue::JobView>,
    key: Seq<char>,
    path: Seq<char>,
    ttl_secs: u64,
)
    requires
        !jobs.contains_key(key),
    ensures
        ({
            let first = download_queue::answer(jobs, key, path, false, ttl_secs);
            let retry = download_queue::answer(first.jobs, key, path, false, ttl_secs);
            let done = download_queue::after_job(retry.jobs, key, None);
            let last = download_queue::answer(done, key, path, true, ttl_secs);
            &&& first.starts
            &&& reply_to(first.state) == DownloadReplyView::Respond(processing())
            &&& !retry.starts
            &&& reply_to(retry.state) == DownloadReplyView::Respond(processing())
            &&& !last.starts
            &&& reply_to(last.state) == reply_to(
                StateView::Ready { path, delete_after_open: ttl_secs == 0 },
            )
        }),
{
}

/// A request that names no upstream URL is refused by the file and the book route, and a path
/// that is no route is not found; neither asks anything of upstream.
pub proof fn law_bad_requests_are_refused(
    target: UrlView,
    storyteller_url: Seq<char>,
    auth: Option<Seq<char>>,
    base: Seq<char>,
)
    ensures
        (target.path == "/fetch"@ || target.path == "/download"@) && pair_value(
            target.pairs,
            "u"@,
        ) is None ==> action_of(target, storyteller_url, auth, base) == ActionView::Respond(
            text_reply(400, "missing u"@),
        ),
        target.path != "/"@ && target.path != "/opds"@ && target.path != "/fetch"@ && target.path
            != "/download"@ && target.path != "/health"@ ==> action_of(
            target,
            storyteller_url,
            auth,
            base,
        ) == ActionView::Respond(text_reply(404, "not found"@)),
{
    lemma_route_paths();
}

/// A proxy link gives back the upstream URL that it was built for: where the text of a URL is
/// parsed as a URL with the one parameter `u`, as those of the proxy links are, the value of `u` is
/// read from it, and a request for that whole text leads to that value.
pub proof fn law_proxy_link_gives_back_its_upstream(
    req: IncomingRequest,
    link: UrlView,
    upstream: Seq<char>,
    storyteller_url: Seq<char>,
    auth: Option<Seq<char>>,
    base: Seq<char>,
)
    requires
        web_url::parsed_url(req.url@) == Ok::<UrlView, url::ParseError>(link),
        link.pairs == seq![("u"@, upstream)],
    ensures
        pair_value(link.pairs, "u"@) == Some(upstream),
        target_of(req) == Ok::<UrlView, url::ParseError>(link),
        link.path == "/opds"@ ==> action_of(link, storyteller_url, auth, base) == (
        ActionView::Feed { url: upstream, authorization: auth, base }),
        link.path == "/fetch"@ ==> action_of(link, storyteller_url, auth, base) == (
        ActionView::Fetch { url: upstream, authorization: text::optional_trimmed(auth) }),
        link.path == "/download"@ ==> action_of(link, storyteller_url, auth, base) == (
        ActionView::Download { url: upstream, auth }),
{
    lemma_route_paths();
    assert(link.pairs[0] == ("u"@, upstream));
}

} // verus!
