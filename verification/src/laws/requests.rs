//! Laws of requests and replies.

use vstd::prelude::*;

use crate::config::ProxyConfig;
use crate::download_queue::StateView;
use crate::error::ProxyError;
use crate::http;
use crate::http::{Action, ActionView, Body, DownloadReply, IncomingRequest, Reply};
use crate::laws::words;
use crate::opds;
use crate::text;
use crate::web_url;
use crate::web_url::UrlView;
use crate::xml;

verus! {

/// The models of pairs hold each pair at its place.
pub proof fn law_pair_models(pairs: Seq<(String, String)>, i: int)
    requires
        0 <= i < pairs.len(),
    ensures
        web_url::pair_views(pairs).len() == pairs.len(),
        web_url::pair_views(pairs)[i] == (pairs[i].0@, pairs[i].1@),
{
}

/// The names of two headers are one, without regard to case.
pub open spec fn is_header(name: Seq<char>, field: Seq<char>) -> bool {
    name.len() == field.len() && forall|k: int|
        0 <= k < name.len() ==> words::are_one_letter(#[trigger] name[k], field[k])
}

/// The value of a header is that of the first header of that name, whole, wherever it stands and in
/// whatever case its name is written.
pub proof fn law_first_header_counts(req: IncomingRequest, field: Seq<char>, i: int)
    requires
        0 <= i < req.headers@.len(),
        is_header(req.headers@[i].0@, field),
        forall|j: int| 0 <= j < i ==> !is_header((#[trigger] req.headers@[j]).0@, field),
    ensures
        http::header_of(req, field) == Some(req.headers@[i].1@),
{
    let headers = web_url::pair_views(req.headers@);
    assert(headers[i] == (req.headers@[i].0@, req.headers@[i].1@));
    assert forall|j: int| 0 <= j < i implies !is_header((#[trigger] headers[j]).0, field) by {
        assert(headers[j].0 == req.headers@[j].0@);
    }
    lemma_first_header(headers, field, i);
}

/// The first header of a name.
proof fn lemma_first_header(headers: Seq<(Seq<char>, Seq<char>)>, field: Seq<char>, i: int)
    requires
        0 <= i < headers.len(),
        is_header(headers[i].0, field),
        forall|j: int| 0 <= j < i ==> !is_header((#[trigger] headers[j]).0, field),
    ensures
        http::header_value(headers, field) == Some(headers[i].1),
    decreases i,
{
    words::law_same_ignoring_case(headers[0].0, field);
    if i > 0 {
        assert(!is_header(headers[0].0, field));
        let rest = headers.skip(1);
        assert(rest[i - 1] == headers[i]);
        assert forall|j: int| 0 <= j < i - 1 implies !is_header((#[trigger] rest[j]).0, field) by {
            assert(rest[j] == headers[j + 1]);
        }
        lemma_first_header(rest, field, i - 1);
    }
}

/// A header that a request does not have has no value.
pub proof fn law_missing_header(req: IncomingRequest, field: Seq<char>)
    requires
        forall|j: int|
            0 <= j < req.headers@.len() ==> !is_header((#[trigger] req.headers@[j]).0@, field),
    ensures
        http::header_of(req, field) is None,
{
    let headers = web_url::pair_views(req.headers@);
    assert forall|j: int| 0 <= j < headers.len() implies !is_header(
        (#[trigger] headers[j]).0,
        field,
    ) by {
        assert(headers[j].0 == req.headers@[j].0@);
    }
    lemma_no_header(headers, field);
}

/// No header of a name.
proof fn lemma_no_header(headers: Seq<(Seq<char>, Seq<char>)>, field: Seq<char>)
    requires
        forall|j: int| 0 <= j < headers.len() ==> !is_header((#[trigger] headers[j]).0, field),
    ensures
        http::header_value(headers, field) is None,
    decreases headers.len(),
{
    if headers.len() > 0 {
        words::law_same_ignoring_case(headers[0].0, field);
        assert(!is_header(headers[0].0, field));
        let rest = headers.skip(1);
        assert forall|j: int| 0 <= j < rest.len() implies !is_header(
            (#[trigger] rest[j]).0,
            field,
        ) by {
            assert(rest[j] == headers[j + 1]);
        }
        lemma_no_header(rest, field);
    }
}

/// The value of a query parameter is that of the first pair of that name, whole, wherever it stands.
pub proof fn law_first_pair_counts(pairs: Seq<(Seq<char>, Seq<char>)>, key: Seq<char>, i: int)
    requires
        0 <= i < pairs.len(),
        pairs[i].0 == key,
        forall|j: int| 0 <= j < i ==> (#[trigger] pairs[j]).0 != key,
    ensures
        http::pair_value(pairs, key) == Some(pairs[i].1),
    decreases i,
{
    if i > 0 {
        assert(pairs[0].0 != key);
        let rest = pairs.skip(1);
        assert(rest[i - 1] == pairs[i]);
        assert forall|j: int| 0 <= j < i - 1 implies (#[trigger] rest[j]).0 != key by {
            assert(rest[j] == pairs[j + 1]);
        }
        law_first_pair_counts(rest, key, i - 1);
    }
}

/// A query parameter that is not there has no value.
pub proof fn law_missing_pair(pairs: Seq<(Seq<char>, Seq<char>)>, key: Seq<char>)
    requires
        forall|j: int| 0 <= j < pairs.len() ==> (#[trigger] pairs[j]).0 != key,
    ensures
        http::pair_value(pairs, key) is None,
    decreases pairs.len(),
{
    if pairs.len() > 0 {
        assert(pairs[0].0 != key);
        let rest = pairs.skip(1);
        assert forall|j: int| 0 <= j < rest.len() implies (#[trigger] rest[j]).0 != key by {
            assert(rest[j] == pairs[j + 1]);
        }
        law_missing_pair(rest, key);
    }
}

/// A request reaches the proxy at the host that it names, or at the default one.
pub proof fn law_own_address(req: IncomingRequest)
    ensures
        http::header_of(req, "Host"@) matches Some(host) ==> http::own_address(req) == "http://"@
            + host,
        http::header_of(req, "Host"@) is None ==> http::own_address(req)
            == "http://localhost:8088"@,
{
    reveal_strlit("http://");
    reveal_strlit("localhost:8088");
    reveal_strlit("http://localhost:8088");
    assert("http://"@ + "localhost:8088"@ =~= "http://localhost:8088"@);
}

/// The target of a request is what its request line gives: a URL by itself, or else one that is read
/// from the address at which the request reaches the proxy.
pub proof fn law_target(req: IncomingRequest)
    ensures
        web_url::parsed_url(req.url@) matches Ok(u) ==> http::target_of(req) == Ok::<
            UrlView,
            url::ParseError,
        >(u),
        web_url::parsed_url(req.url@) is Err ==> http::target_of(req) == web_url::joined_url(
            http::own_address(req),
            req.url@,
        ),
{
}

/// Links lead to the public address, without the slashes at its end, where one is set, and else to
/// the address at which the request reached the proxy.
pub proof fn law_link_base(
    cfg: ProxyConfig,
    req: IncomingRequest,
    address: Seq<char>,
    slashes: Seq<char>,
)
    requires
        address.len() == 0 || address.last() != '/',
        forall|i: int| 0 <= i < slashes.len() ==> #[trigger] slashes[i] == '/',
    ensures
        cfg.public_url matches Some(u) ==> (u@ == address + slashes ==> http::link_base(cfg, req)
            == address),
        cfg.public_url is None ==> http::link_base(cfg, req) == http::own_address(req),
{
    words::law_without_trailing(address, slashes, '/');
}

/// The model of a body holds all of it.
pub proof fn law_body_model(text: String, bytes: Vec<u8>)
    ensures
        Body::Text(text)@ == http::BodyView::Text(text@),
        Body::Data(bytes)@ == http::BodyView::Data(bytes@),
        bytes@.len() == bytes.len(),
{
}

/// A reply of data carries the data itself, byte for byte and to its end, however long it is, with
/// the status of success and its type as the only header.
pub proof fn law_data_reply_carries_its_bytes(r: Reply, content_type: Seq<char>, bytes: Seq<u8>)
    requires
        r@ == http::data_reply(content_type, bytes),
    ensures
        r.status == 200,
        r.headers@.len() == 1,
        r.headers@[0].0@ == "Content-Type"@,
        r.headers@[0].1@ == content_type,
        r.body matches Body::Data(sent) && sent@ == bytes && sent@.len() == bytes.len(),
{
    assert(web_url::pair_views(r.headers@).len() == 1);
    assert(web_url::pair_views(r.headers@)[0] == ("Content-Type"@, content_type));
}

/// Replies with different data differ, also where one is the front of the other.
pub proof fn law_data_replies_tell_their_bytes_apart(
    content_type: Seq<char>,
    bytes: Seq<u8>,
    more: Seq<u8>,
)
    requires
        more.len() > 0,
    ensures
        http::data_reply(content_type, bytes) != http::data_reply(content_type, bytes + more),
{
    assert(bytes.len() != (bytes + more).len());
}

/// A reply to a catalog request carries exactly the rewritten catalog, whatever its length.
pub proof fn law_catalog_reply_carries_the_catalog(
    r: Reply,
    feed: Seq<char>,
    base: Seq<char>,
    content_type: Seq<char>,
    body: Seq<u8>,
    rewritten: Seq<u8>,
)
    requires
        opds::feed_rewritten(xml::document(body), feed, base) == Ok::<Seq<u8>, ProxyError>(
            rewritten,
        ),
        r@ == http::data_reply(
            content_type,
            opds::feed_rewritten(xml::document(body), feed, base)->Ok_0,
        ),
    ensures
        r.body matches Body::Data(sent) && sent@ == rewritten,
        r.status == 200,
{
    law_data_reply_carries_its_bytes(r, content_type, rewritten);
}

/// A reply of text carries its status and the whole text, and no header.
pub proof fn law_text_reply_carries_its_text(r: Reply, status: u16, text: Seq<char>)
    requires
        r@ == http::text_reply(status, text),
    ensures
        r.status == status,
        r.headers@.len() == 0,
        r.body matches Body::Text(sent) && sent@ == text,
{
    assert(web_url::pair_views(r.headers@).len() == 0);
}

/// The type of a response is the one that it gives, else the default one.
pub proof fn law_type(content_type: String, default: Seq<char>)
    ensures
        http::type_or(Some(content_type), default) == content_type@,
        http::type_or(None, default) == default,
{
}

/// Where upstream fails, the client is told that it is not authorised exactly if upstream said so,
/// and else what went wrong.
pub proof fn law_upstream_failure(r: Reply, status: Option<u16>, message: Seq<char>)
    requires
        r@ == http::upstream_failure(status, message),
    ensures
        r.headers@.len() == 0,
        status == Some(401u16) ==> r.status == 401 && (r.body matches Body::Text(sent) && sent@
            == "unauthorised"@),
        status != Some(401u16) ==> r.status == 502 && (r.body matches Body::Text(sent) && sent@
            == "upstream error: "@ + message),
{
    assert(web_url::pair_views(r.headers@).len() == 0);
}

/// A request for a book is answered with its file, or that it is in preparation, to be asked for
/// again in ten seconds, or why its preparation failed.
pub proof fn law_download_reply(r: DownloadReply, state: StateView)
    requires
        r@ == http::reply_to(state),
    ensures
        state matches StateView::Ready { path, delete_after_open } ==> (r matches DownloadReply::File {
            path: p,
            delete_after_open: d,
            headers,
        } && p@ == path && d == delete_after_open && headers@.len() == 2 && headers@[0].0@
            == "Content-Type"@ && headers@[0].1@ == "application/epub+zip"@ && headers@[1].0@
            == "Content-Disposition"@ && headers@[1].1@
            == "attachment; filename=\"readaloud-stripped.epub\""@),
        state is Preparing ==> (r matches DownloadReply::Respond(reply) && reply.status == 202
            && reply.headers@.len() == 1 && reply.headers@[0].0@ == "Retry-After"@
            && reply.headers@[0].1@ == "10"@ && (reply.body matches Body::Text(sent) && sent@
            == "processing\n"@)),
        state matches StateView::Failed(error) ==> (r matches DownloadReply::Respond(reply)
            && reply.status == 502 && reply.headers@.len() == 0 && (
        reply.body matches Body::Text(sent) && sent@ == "epub rewrite error: "@ + error)),
{
    match r {
        DownloadReply::File { path, delete_after_open, headers } => {
            let views = web_url::pair_views(headers@);
            if state is Ready {
                assert(views.len() == 2);
                assert(views[0] == ("Content-Type"@, "application/epub+zip"@));
                assert(views[1] == (
                    "Content-Disposition"@,
                    "attachment; filename=\"readaloud-stripped.epub\""@,
                ));
            }
        },
        DownloadReply::Respond(reply) => {
            let views = web_url::pair_views(reply.headers@);
            if state is Preparing {
                assert(views.len() == 1);
                assert(views[0] == ("Retry-After"@, "10"@));
            } else if state is Failed {
                assert(views.len() == 0);
            }
        },
    }
}

/// The routes are different paths.
proof fn lemma_routes()
    ensures
        "/health"@.len() == 7,
        "/"@.len() == 1,
        "/opds"@.len() == 5,
        "/fetch"@.len() == 6,
        "/download"@.len() == 9,
{
    reveal_strlit("/health");
    reveal_strlit("/");
    reveal_strlit("/opds");
    reveal_strlit("/fetch");
    reveal_strlit("/download");
}

/// The catalog route, and the root, ask for the catalog that the first `u` of the query names, or,
/// without one, for the one at the root of the upstream service; with the credentials as they came.
pub proof fn law_catalog_route(
    target: UrlView,
    storyteller_url: Seq<char>,
    auth: Option<Seq<char>>,
    base: Seq<char>,
    i: int,
)
    requires
        target.path == "/"@ || target.path == "/opds"@,
    ensures
        0 <= i < target.pairs.len() && target.pairs[i].0 == "u"@ && (forall|j: int|
            0 <= j < i ==> (#[trigger] target.pairs[j]).0 != "u"@) ==> http::action_of(
            target,
            storyteller_url,
            auth,
            base,
        ) == (ActionView::Feed { url: target.pairs[i].1, authorization: auth, base }),
        (forall|j: int| 0 <= j < target.pairs.len() ==> (#[trigger] target.pairs[j]).0 != "u"@)
            ==> http::action_of(target, storyteller_url, auth, base) == (ActionView::Feed {
            url: storyteller_url + "/opds"@,
            authorization: auth,
            base,
        }),
{
    lemma_routes();
    lemma_parameter(target, i);
}

/// The parameter `u` of a target.
proof fn lemma_parameter(target: UrlView, i: int)
    ensures
        0 <= i < target.pairs.len() && target.pairs[i].0 == "u"@ && (forall|j: int|
            0 <= j < i ==> (#[trigger] target.pairs[j]).0 != "u"@) ==> http::pair_value(
            target.pairs,
            "u"@,
        ) == Some(target.pairs[i].1),
        (forall|j: int| 0 <= j < target.pairs.len() ==> (#[trigger] target.pairs[j]).0 != "u"@)
            ==> http::pair_value(target.pairs, "u"@) is None,
{
    if 0 <= i < target.pairs.len() && target.pairs[i].0 == "u"@ && (forall|j: int|
        0 <= j < i ==> (#[trigger] target.pairs[j]).0 != "u"@) {
        law_first_pair_counts(target.pairs, "u"@, i);
    }
    if forall|j: int| 0 <= j < target.pairs.len() ==> (#[trigger] target.pairs[j]).0 != "u"@ {
        law_missing_pair(target.pairs, "u"@);
    }
}

/// The file route and the book route ask for what the first `u` of the query names, the file route
/// with trimmed credentials; without one, the request is refused.
pub proof fn law_file_and_book_routes(
    target: UrlView,
    storyteller_url: Seq<char>,
    auth: Option<Seq<char>>,
    base: Seq<char>,
    i: int,
)
    requires
        target.path == "/fetch"@ || target.path == "/download"@,
    ensures
        0 <= i < target.pairs.len() && target.pairs[i].0 == "u"@ && (forall|j: int|
            0 <= j < i ==> (#[trigger] target.pairs[j]).0 != "u"@) ==> http::action_of(
            target,
            storyteller_url,
            auth,
            base,
        ) == (if target.path == "/fetch"@ {
            ActionView::Fetch {
                url: target.pairs[i].1,
                authorization: match auth {
                    Some(a) => Some(text::trimmed(a)),
                    None => None,
                },
            }
        } else {
            ActionView::Download { url: target.pairs[i].1, auth }
        }),
        (forall|j: int| 0 <= j < target.pairs.len() ==> (#[trigger] target.pairs[j]).0 != "u"@)
            ==> http::action_of(target, storyteller_url, auth, base) == ActionView::Respond(
            http::text_reply(400, "missing u"@),
        ),
{
    lemma_routes();
    lemma_parameter(target, i);
}

/// The health route is the path of that name and no other, and every path without a route is
/// answered that it is not found, whatever its query.
pub proof fn law_other_paths(
    target: UrlView,
    storyteller_url: Seq<char>,
    auth: Option<Seq<char>>,
    base: Seq<char>,
)
    ensures
        http::action_of(target, storyteller_url, auth, base) == ActionView::Health <==> target.path
            == "/health"@,
        target.path != "/health"@ && target.path != "/"@ && target.path != "/opds"@ && target.path
            != "/fetch"@ && target.path != "/download"@ ==> http::action_of(
            target,
            storyteller_url,
            auth,
            base,
        ) == ActionView::Respond(http::text_reply(404, "not found"@)),
{
    lemma_routes();
}

/// The model of an action holds all that the action holds.
pub proof fn law_action_model(a: Action)
    ensures
        a is Health <==> a@ is Health,
        a matches Action::Respond(reply) ==> a@ == ActionView::Respond(reply@),
        a matches Action::Feed { upstream, base } ==> a@ == (ActionView::Feed {
            url: upstream.url@,
            authorization: text::optional(upstream.authorization),
            base: base@,
        }),
        a matches Action::Fetch(upstream) ==> a@ == (ActionView::Fetch {
            url: upstream.url@,
            authorization: text::optional(upstream.authorization),
        }),
        a matches Action::Download { url, auth } ==> a@ == (ActionView::Download {
            url: url@,
            auth: text::optional(auth),
        }),
{
}

/// The model of a reply holds its status, its body, and each of its headers at its place.
pub proof fn law_reply_model(r: Reply, i: int)
    ensures
        r@.status == r.status,
        r@.body == r.body@,
        r@.headers.len() == r.headers@.len(),
        0 <= i < r.headers@.len() ==> r@.headers[i] == (r.headers@[i].0@, r.headers@[i].1@),
{
}

} // verus!
