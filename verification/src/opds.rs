//! OPDS catalogs: which books and links a client gets to see, and where the links lead.

use vstd::prelude::*;
use vstd::string::*;
use vstd::utf8::*;

use crate::error::{invalid_url, xml_err, ProxyError};
use crate::text::{bytes_are, contains, same_text};
use crate::web_url::{can_take_query, join_url, join_with_pair, parse_url, WebUrl};
use crate::xml::{
    attr_or_empty, attr_value, collect_element, escape_text, has_local_name, push_attribute,
    push_tag_end, read_document, skip_element, Document, EventKind, XmlEvent,
};
use crate::rewriting;
use crate::text;
use crate::web_url;
use crate::web_url::UrlView;
use crate::xml;
use crate::xml::{DocumentView, EventView};

verus! {

/// A link relation offers a book for download.
pub open spec fn offers_book(rel: Seq<char>) -> bool {
    text::occurs_in(rel, "acquisition"@)
}

/// The URL asks for a book in the readaloud format.
pub open spec fn asks_for_readaloud(u: UrlView) -> bool {
    u.pairs.contains(("format"@, "readaloud"@))
}

/// The event is a link.
pub open spec fn is_link_tag(e: EventView) -> bool {
    xml::is_tag_of(e, "link"@)
}

/// The event opens an entry of the catalog.
pub open spec fn opens_entry(e: EventView) -> bool {
    e.kind == EventKind::Start && xml::is_tag_of(e, "entry"@)
}

/// The event is a link that offers a book for download.
pub open spec fn is_book_link(e: EventView) -> bool {
    is_link_tag(e) && offers_book(xml::attribute_or_empty(e, "rel"@))
}

/// The event is a link that leads to a book in the readaloud format.
pub open spec fn leads_to_readaloud(e: EventView, feed: Seq<char>) -> bool {
    match xml::attribute_text(e, "href"@) {
        Some(href) => match web_url::joined_url(feed, href) {
            Ok(u) => asks_for_readaloud(u),
            Err(_) => false,
        },
        None => false,
    }
}

/// A link that offers a book in another format than readaloud is left out.
pub open spec fn leaves_out_link(e: EventView, feed: Seq<char>) -> bool {
    offers_book(xml::attribute_or_empty(e, "rel"@)) && !leads_to_readaloud(e, feed)
}

/// The path of the proxy that serves what a link leads to.
pub open spec fn proxy_path(rel: Seq<char>, typ: Seq<char>, readaloud: bool) -> Seq<char> {
    if text::occurs_in(typ, "application/atom+xml"@) {
        "/opds"@
    } else if offers_book(rel) && readaloud {
        "/download"@
    } else {
        "/fetch"@
    }
}

/// A query fits behind each of the proxy's paths on `base`.
pub open spec fn links_fit(base: Seq<char>) -> bool {
    &&& web_url::takes_query(base, "/opds"@)
    &&& web_url::takes_query(base, "/download"@)
    &&& web_url::takes_query(base, "/fetch"@)
}

/// The proxy's own URL that stands for `upstream`.
pub open spec fn proxy_link(base: Seq<char>, path: Seq<char>, upstream: Seq<char>) -> Result<
    Seq<char>,
    ProxyError,
> {
    match web_url::joined_url(base, path) {
        Ok(joined) => Ok(joined.text + web_url::query_of("u"@, upstream)),
        Err(e) => Err(ProxyError::Url(e)),
    }
}

/// The attributes of a link, with its target replaced and all else as it is.
pub open spec fn redirected(attributes: Seq<(Seq<u8>, Seq<u8>)>, target: Seq<char>) -> Seq<
    (Seq<u8>, Seq<u8>),
> {
    attributes.map_values(
        |a: (Seq<u8>, Seq<u8>)|
            if a.0 == encode_utf8("href"@) {
                (a.0, encode_utf8(xml::escaped(target)))
            } else {
                a
            },
    )
}

/// A link that stays, as it is written: one without a target as it was, any other with its target
/// replaced by the proxy's own URL for it.
pub open spec fn link_event(e: EventView, feed: Seq<char>, base: Seq<char>) -> Result<
    EventView,
    ProxyError,
> {
    match xml::attribute_text(e, "href"@) {
        None => Ok(e),
        Some(href) => match web_url::joined_url(feed, href) {
            Err(x) => Err(ProxyError::Url(x)),
            Ok(u) => {
                let path = proxy_path(
                    xml::attribute_or_empty(e, "rel"@),
                    xml::attribute_or_empty(e, "type"@),
                    asks_for_readaloud(u),
                );
                match proxy_link(base, path, u.text) {
                    Err(x) => Err(x),
                    Ok(target) => {
                        let attributes = redirected(e.attributes, target);
                        Ok(
                            EventView {
                                kind: e.kind,
                                name: e.name,
                                attributes,
                                markup: xml::tag_markup(e.name, attributes, e.kind),
                            },
                        )
                    },
                }
            },
        },
    }
}

/// The markup of a link that stays.
pub open spec fn link_markup(e: EventView, feed: Seq<char>, base: Seq<char>) -> Result<
    Seq<u8>,
    ProxyError,
> {
    match link_event(e, feed, base) {
        Ok(written) => Ok(written.markup),
        Err(x) => Err(x),
    }
}

/// Whether a relation offers a book for download.
pub fn is_acquisition(rel: &str) -> (r: bool)
    ensures
        r == offers_book(rel@),
{
    contains(rel, "acquisition")
}

/// Whether an event is a link.
pub fn is_link(e: &XmlEvent) -> (r: bool)
    ensures
        r == is_link_tag(e@),
{
    has_local_name(e, "link")
}

/// Whether an event opens an entry or is an empty one.
pub fn is_entry(e: &XmlEvent) -> (r: bool)
    ensures
        r == xml::is_tag_of(e@, "entry"@),
{
    has_local_name(e, "entry")
}

/// Whether a URL asks for a book in the readaloud format.
pub fn is_readaloud(url: &WebUrl) -> (r: bool)
    ensures
        r == asks_for_readaloud(url@),
        r <==> exists|i: int|
            0 <= i < url.pairs@.len() && (#[trigger] url.pairs@[i]).0@ == "format"@
                && url.pairs@[i].1@ == "readaloud"@,
{
    let ghost all = url@.pairs;
    let mut i: usize = 0;
    while i < url.pairs.len()
        invariant
            all == url@.pairs,
            i <= url.pairs.len(),
            forall|j: int| 0 <= j < i ==> all[j] != ("format"@, "readaloud"@),
            forall|j: int|
                0 <= j < i ==> (#[trigger] url.pairs@[j]).0@ != "format"@ || url.pairs@[j].1@
                    != "readaloud"@,
        decreases url.pairs.len() - i,
    {
        assert(all[i as int] == (url.pairs@[i as int].0@, url.pairs@[i as int].1@));
        if same_text(url.pairs[i].0.as_str(), "format") && same_text(
            url.pairs[i].1.as_str(),
            "readaloud",
        ) {
            return true;
        }
        i += 1;
    }
    false
}

/// Whether `href`, read from the feed's URL, asks for a book in the readaloud format.
pub fn href_has_readaloud_format(feed_url: &str, href: &str) -> (r: Result<bool, ProxyError>)
    ensures
        (match r {
            Ok(b) => {
                &&& web_url::joined_url(feed_url@, href@) matches Ok(u)
                &&& b == asks_for_readaloud(u)
            },
            Err(e) => {
                &&& web_url::joined_url(feed_url@, href@) matches Err(x)
                &&& e == ProxyError::Url(x)
            },
        }),
{
    match join_url(feed_url, href) {
        Ok(url) => Ok(is_readaloud(&url)),
        Err(e) => Err(invalid_url(e)),
    }
}

/// Whether a link is left out: it offers a book, but not a readaloud one.
pub fn should_drop_link(e: &XmlEvent, feed_url: &str) -> (r: bool)
    ensures
        r == leaves_out_link(e@, feed_url@),
{
    if !is_acquisition(attr_or_empty(e, "rel").as_str()) {
        return false;
    }
    match attr_value(e, "href") {
        Some(href) => match href_has_readaloud_format(feed_url, href.as_str()) {
            Ok(readaloud) => !readaloud,
            Err(_) => true,
        },
        None => true,
    }
}

/// Builds the proxy's own URL that stands for `upstream_url`: the proxy's base, one of its paths
/// and the upstream URL as the parameter `u`. Where its text is parsed again, that path and that
/// parameter come out, and it can be parsed if the text of the base with the path can.
pub fn proxied_url(proxy_base: &str, path: &str, upstream_url: &str) -> (r: Result<
    WebUrl,
    ProxyError,
>)
    requires
        web_url::is_word_path(path@),
        web_url::takes_query(proxy_base@, path@),
    ensures
        (match r {
            Ok(u) => {
                &&& proxy_link(proxy_base@, path@, upstream_url@) == Ok::<Seq<char>, ProxyError>(
                    u.text@,
                )
                &&& u@.pairs == seq![("u"@, upstream_url@)]
            },
            Err(e) => proxy_link(proxy_base@, path@, upstream_url@) == Err::<
                Seq<char>,
                ProxyError,
            >(e),
        }),
        web_url::is_web_address(proxy_base@) ==> r is Ok && r->Ok_0.path@ == path@ && (path@
            + web_url::query_of("u"@, upstream_url@)).is_suffix_of(r->Ok_0.text@)
            && web_url::parses_alike(r->Ok_0@),
        web_url::is_web_address(proxy_base@) && (web_url::joined_url(
            proxy_base@,
            path@,
        ) matches Ok(joined) && web_url::parses_back(joined)) ==> r is Ok && web_url::parses_back(
            r->Ok_0@,
        ),
{
    match join_with_pair(proxy_base, path, "u", upstream_url) {
        Ok(url) => Ok(url),
        Err(e) => Err(invalid_url(e)),
    }
}

/// Whether a query fits behind each of the proxy's paths on `proxy_base`.
pub fn can_hold_links(proxy_base: &str) -> (r: bool)
    ensures
        r == links_fit(proxy_base@),
{
    can_take_query(proxy_base, "/opds") && can_take_query(proxy_base, "/download")
        && can_take_query(proxy_base, "/fetch")
}

/// The proxy's paths are word paths.
pub proof fn lemma_proxy_paths(rel: Seq<char>, typ: Seq<char>, readaloud: bool)
    ensures
        web_url::is_word_path(proxy_path(rel, typ, readaloud)),
{
    reveal_strlit("/opds");
    reveal_strlit("/download");
    reveal_strlit("/fetch");
}

/// The proxy's own URL for what `href`, read from the feed's URL, leads to.
pub fn routed_url(
    href: &str,
    rel: &str,
    typ: &str,
    is_readaloud: bool,
    feed_url: &str,
    proxy_base: &str,
) -> (r: Result<String, ProxyError>)
    requires
        links_fit(proxy_base@),
    ensures
        (match web_url::joined_url(feed_url@, href@) {
            Err(x) => r == Err::<String, ProxyError>(ProxyError::Url(x)),
            Ok(u) => match proxy_link(
                proxy_base@,
                proxy_path(rel@, typ@, is_readaloud),
                u.text,
            ) {
                Ok(target) => r matches Ok(text) && text@ == target,
                Err(x) => r == Err::<String, ProxyError>(x),
            },
        }),
{
    let upstream: WebUrl = match join_url(feed_url, href) {
        Ok(url) => url,
        Err(e) => {
            return Err(invalid_url(e));
        },
    };
    let path: &str = if contains(typ, "application/atom+xml") {
        "/opds"
    } else if is_acquisition(rel) && is_readaloud {
        "/download"
    } else {
        "/fetch"
    };
    proof {
        lemma_proxy_paths(rel@, typ@, is_readaloud);
    }
    match proxied_url(proxy_base, path, upstream.text.as_str()) {
        Ok(url) => Ok(url.text),
        Err(e) => Err(e),
    }
}

/// A link that stays, as it is written out.
pub fn rewrite_link(e: &XmlEvent, feed_url: &str, proxy_base: &str) -> (r: Result<
    Vec<u8>,
    ProxyError,
>)
    requires
        links_fit(proxy_base@),
    ensures
        (match r {
            Ok(bytes) => link_markup(e@, feed_url@, proxy_base@) == Ok::<Seq<u8>, ProxyError>(
                bytes@,
            ),
            Err(x) => link_markup(e@, feed_url@, proxy_base@) == Err::<Seq<u8>, ProxyError>(x),
        }),
{
    let href: String = match attr_value(e, "href") {
        Some(href) => href,
        None => {
            let mut bytes: Vec<u8> = Vec::new();
            bytes.extend_from_slice(e.markup.as_slice());
            assert(bytes@ =~= e@.markup);
            return Ok(bytes);
        },
    };
    let rel: String = attr_or_empty(e, "rel");
    let typ: String = attr_or_empty(e, "type");
    let is_readaloud: bool = match href_has_readaloud_format(feed_url, href.as_str()) {
        Ok(b) => b,
        Err(x) => {
            return Err(x);
        },
    };
    let target: String = match routed_url(
        href.as_str(),
        rel.as_str(),
        typ.as_str(),
        is_readaloud,
        feed_url,
        proxy_base,
    ) {
        Ok(text) => text,
        Err(x) => {
            return Err(x);
        },
    };
    let value: String = escape_text(target.as_str());
    let ghost all = redirected(e@.attributes, target@);
    let mut out: Vec<u8> = Vec::new();
    out.push(0x3c);
    out.extend_from_slice(e.name.as_slice());
    let ghost front = out@;
    let mut i: usize = 0;
    proof {
        assert(front =~= seq![0x3cu8] + e@.name);
        assert(out@ =~= front + xml::attributes_markup(all.take(0)));
    }
    while i < e.attributes.len()
        invariant
            all == redirected(e@.attributes, target@),
            value@ == xml::escaped(target@),
            i <= e.attributes.len(),
            out@ == front + xml::attributes_markup(all.take(i as int)),
        decreases e.attributes.len() - i,
    {
        let ghost before = out@;
        proof {
            assert(all.take(i + 1).drop_last() =~= all.take(i as int));
            assert(e@.attributes[i as int] == (
                e.attributes@[i as int].0@,
                e.attributes@[i as int].1@,
            ));
        }
        if bytes_are(e.attributes[i].0.as_slice(), "href") {
            push_attribute(&mut out, e.attributes[i].0.as_slice(), value.as_str().as_bytes());
        } else {
            push_attribute(&mut out, e.attributes[i].0.as_slice(), e.attributes[i].1.as_slice());
        }
        proof {
            assert(out@ =~= front + xml::attributes_markup(all.take(i + 1)));
        }
        i += 1;
    }
    proof {
        assert(all.take(i as int) =~= all);
    }
    push_tag_end(&mut out, e.kind);
    assert(out@ =~= xml::tag_markup(e@.name, all, e@.kind));
    Ok(out)
}

/// The links of a document, each left out or led through the proxy, and all else as it was.
pub open spec fn links_rewritten(
    events: Seq<EventView>,
    failure: Option<quick_xml::Error>,
    feed: Seq<char>,
    base: Seq<char>,
) -> Result<Seq<u8>, ProxyError>
    decreases events.len(),
{
    if events.len() == 0 {
        rewriting::at_end(failure)
    } else {
        let e = events[0];
        let rest = events.skip(1);
        if !is_link_tag(e) {
            rewriting::prefixed(e.markup, links_rewritten(rest, failure, feed, base))
        } else if !leaves_out_link(e, feed) {
            match link_markup(e, feed, base) {
                Ok(bytes) => rewriting::prefixed(bytes, links_rewritten(rest, failure, feed, base)),
                Err(x) => Err(x),
            }
        } else if e.kind == EventKind::Empty {
            links_rewritten(rest, failure, feed, base)
        } else {
            proof {
                xml::lemma_span_bound(rest, e.name, 1);
            }
            match xml::span(rest, e.name, 1) {
                Some(n) => links_rewritten(rest.skip(n as int), failure, feed, base),
                None => rewriting::at_end(failure),
            }
        }
    }
}

/// `links_rewritten` of a whole document.
pub open spec fn document_links_rewritten(
    doc: DocumentView,
    feed: Seq<char>,
    base: Seq<char>,
) -> Result<Seq<u8>, ProxyError> {
    links_rewritten(doc.events, doc.failure, feed, base)
}

/// The first thing in an entry that cannot be judged: a link to a book whose target is no URL,
/// or the error that ended the reading.
pub open spec fn entry_failure(
    events: Seq<EventView>,
    failure: Option<quick_xml::Error>,
    feed: Seq<char>,
) -> Option<ProxyError>
    decreases events.len(),
{
    if events.len() == 0 {
        match failure {
            Some(e) => Some(ProxyError::Xml(e)),
            None => None,
        }
    } else {
        match book_link_failure(events[0], feed) {
            Some(x) => Some(ProxyError::Url(x)),
            None => entry_failure(events.skip(1), failure, feed),
        }
    }
}

/// Why the target of a link to a book is no URL, if it is none.
pub open spec fn book_link_failure(e: EventView, feed: Seq<char>) -> Option<url::ParseError> {
    if is_book_link(e) {
        match xml::attribute_text(e, "href"@) {
            Some(href) => match web_url::joined_url(feed, href) {
                Ok(_) => None,
                Err(x) => Some(x),
            },
            None => None,
        }
    } else {
        None
    }
}

/// Some link of the events offers a book.
pub open spec fn has_book_link(events: Seq<EventView>) -> bool {
    exists|i: int| 0 <= i < events.len() && is_book_link(#[trigger] events[i])
}

/// Some link of the events offers a readaloud book.
pub open spec fn has_readaloud_link(events: Seq<EventView>, feed: Seq<char>) -> bool {
    exists|i: int|
        0 <= i < events.len() && is_book_link(#[trigger] events[i]) && leads_to_readaloud(
            events[i],
            feed,
        )
}

/// An entry stays if it offers no book at all or a readaloud one.
pub open spec fn entry_stays(doc: DocumentView, feed: Seq<char>) -> Result<bool, ProxyError> {
    match entry_failure(doc.events, doc.failure, feed) {
        Some(x) => Err(x),
        None => Ok(!has_book_link(doc.events) || has_readaloud_link(doc.events, feed)),
    }
}

/// An entry, read as a document of its own, as it is written out: nothing if it does not stay, else
/// itself with its links rewritten.
pub open spec fn entry_document_rewritten(
    doc: DocumentView,
    feed: Seq<char>,
    base: Seq<char>,
) -> Result<Seq<u8>, ProxyError> {
    match entry_stays(doc, feed) {
        Err(x) => Err(x),
        Ok(stays) => if stays {
            document_links_rewritten(doc, feed, base)
        } else {
            Ok(Seq::empty())
        },
    }
}

/// An entry of a catalog as it is written out.
pub open spec fn entry_rewritten(entry: Seq<u8>, feed: Seq<char>, base: Seq<char>) -> Result<
    Seq<u8>,
    ProxyError,
> {
    entry_document_rewritten(xml::document(entry), feed, base)
}

/// The document is a single entry.
pub open spec fn is_one_entry(doc: DocumentView) -> bool {
    doc.failure is None && xml::is_one_element(doc.events) && opens_entry(doc.events[0])
}

/// A catalog as a client gets it: the entries that stay, with their links rewritten, the links
/// outside entries rewritten too, and all else as it was.
pub open spec fn catalog_rewritten(
    events: Seq<EventView>,
    failure: Option<quick_xml::Error>,
    feed: Seq<char>,
    base: Seq<char>,
) -> Result<Seq<u8>, ProxyError>
    decreases events.len(),
{
    if events.len() == 0 {
        rewriting::at_end(failure)
    } else {
        let e = events[0];
        let rest = events.skip(1);
        let end = xml::span(rest, e.name, 1);
        proof {
            xml::lemma_span_bound(rest, e.name, 1);
        }
        if opens_entry(e) {
            match end {
                Some(n) => match entry_rewritten(
                    xml::markup_of(events.take((n + 1) as int)),
                    feed,
                    base,
                ) {
                    Ok(bytes) => rewriting::prefixed(
                        bytes,
                        catalog_rewritten(rest.skip(n as int), failure, feed, base),
                    ),
                    Err(x) => Err(x),
                },
                None => match failure {
                    Some(x) => Err(ProxyError::Xml(x)),
                    None => entry_rewritten(xml::markup_of(events), feed, base),
                },
            }
        } else if !is_link_tag(e) {
            rewriting::prefixed(e.markup, catalog_rewritten(rest, failure, feed, base))
        } else if !leaves_out_link(e, feed) {
            match link_markup(e, feed, base) {
                Ok(bytes) => rewriting::prefixed(
                    bytes,
                    catalog_rewritten(rest, failure, feed, base),
                ),
                Err(x) => Err(x),
            }
        } else if e.kind == EventKind::Empty {
            catalog_rewritten(rest, failure, feed, base)
        } else {
            match end {
                Some(n) => catalog_rewritten(rest.skip(n as int), failure, feed, base),
                None => rewriting::at_end(failure),
            }
        }
    }
}

/// Leads the links of a document through the proxy.
pub fn rewrite_document_links(doc: Document, feed_url: &str, proxy_base: &str) -> (r: Result<
    Vec<u8>,
    ProxyError,
>)
    requires
        links_fit(proxy_base@),
    ensures
        (match r {
            Ok(bytes) => document_links_rewritten(doc@, feed_url@, proxy_base@) == Ok::<
                Seq<u8>,
                ProxyError,
            >(bytes@),
            Err(x) => document_links_rewritten(doc@, feed_url@, proxy_base@) == Err::<
                Seq<u8>,
                ProxyError,
            >(x),
        }),
{
    let Document { events, failure } = doc;
    let ghost all = xml::event_views(events@);
    let ghost whole = links_rewritten(all, failure, feed_url@, proxy_base@);
    let mut out: Vec<u8> = Vec::new();
    let mut i: usize = 0;
    proof {
        assert(all.skip(0) =~= all);
        rewriting::lemma_prefix_empty(whole);
    }
    while i < events.len()
        invariant
            links_fit(proxy_base@),
            all == xml::event_views(events@),
            whole == document_links_rewritten(doc@, feed_url@, proxy_base@),
            i <= events.len(),
            whole == rewriting::prefixed(
                out@,
                links_rewritten(all.skip(i as int), failure, feed_url@, proxy_base@),
            ),
        decreases events.len() - i,
    {
        let e: &XmlEvent = &events[i];
        let ghost here = all.skip(i as int);
        let ghost before = out@;
        proof {
            assert(here[0] == e@);
            assert(here.skip(1) =~= all.skip(i + 1));
        }
        if !is_link(e) {
            out.extend_from_slice(e.markup.as_slice());
            proof {
                assert(out@ =~= before + e@.markup);
                let rest = links_rewritten(all.skip(i + 1), failure, feed_url@, proxy_base@);
                rewriting::lemma_prefix_twice(before, e@.markup, rest);
            }
            i += 1;
        } else if !should_drop_link(e, feed_url) {
            match rewrite_link(e, feed_url, proxy_base) {
                Ok(bytes) => {
                    out.extend_from_slice(bytes.as_slice());
                    proof {
                        assert(out@ =~= before + bytes@);
                        let rest = links_rewritten(
                            all.skip(i + 1),
                            failure,
                            feed_url@,
                            proxy_base@,
                        );
                        rewriting::lemma_prefix_twice(before, bytes@, rest);
                    }
                },
                Err(x) => {
                    return Err(x);
                },
            }
            i += 1;
        } else if e.kind == EventKind::Empty {
            i += 1;
        } else {
            match skip_element(&events, i + 1, &e.name) {
                Some(end) => {
                    proof {
                        assert(here.skip(1).skip(end - (i + 1)) =~= all.skip(end as int));
                    }
                    i = end;
                },
                None => {
                    assert(whole == rewriting::prefixed(before, rewriting::at_end(failure)));
                    i = events.len();
                    assert(all.skip(i as int).len() == 0);
                },
            }
        }
    }
    match failure {
        Some(x) => Err(xml_err(x)),
        None => {
            assert(out@ + Seq::<u8>::empty() =~= out@);
            Ok(out)
        },
    }
}

/// Leads the links of a document through the proxy.
pub fn rewrite_links(input: &[u8], feed_url: &str, proxy_base: &str) -> (r: Result<
    Vec<u8>,
    ProxyError,
>)
    requires
        links_fit(proxy_base@),
    ensures
        (match r {
            Ok(bytes) => document_links_rewritten(
                xml::document(input@),
                feed_url@,
                proxy_base@,
            ) == Ok::<Seq<u8>, ProxyError>(bytes@),
            Err(x) => document_links_rewritten(
                xml::document(input@),
                feed_url@,
                proxy_base@,
            ) == Err::<Seq<u8>, ProxyError>(x),
        }),
{
    rewrite_document_links(read_document(input), feed_url, proxy_base)
}

/// Whether an entry stays: it offers no book at all, or a readaloud one.
pub fn should_keep_document(doc: Document, feed_url: &str) -> (r: Result<bool, ProxyError>)
    ensures
        r == entry_stays(doc@, feed_url@),
{
    let Document { events, failure } = doc;
    let ghost all = xml::event_views(events@);
    let ghost trouble = entry_failure(all, failure, feed_url@);
    let mut has_acquisition: bool = false;
    let mut has_readaloud: bool = false;
    let mut i: usize = 0;
    proof {
        assert(all.skip(0) =~= all);
    }
    while i < events.len()
        invariant
            all == xml::event_views(events@),
            i <= events.len(),
            doc@ == (DocumentView { events: all, failure }),
            trouble == entry_failure(all, failure, feed_url@),
            trouble == entry_failure(all.skip(i as int), failure, feed_url@),
            has_acquisition == (exists|j: int| 0 <= j < i && is_book_link(#[trigger] all[j])),
            has_readaloud == (exists|j: int|
                0 <= j < i && is_book_link(#[trigger] all[j]) && leads_to_readaloud(
                    all[j],
                    feed_url@,
                )),
        decreases events.len() - i,
    {
        let e: &XmlEvent = &events[i];
        proof {
            assert(all.skip(i as int)[0] == all[i as int]);
            assert(all[i as int] == e@);
            assert(all.skip(i as int).skip(1) =~= all.skip(i + 1));
        }
        if is_link(e) && is_acquisition(attr_or_empty(e, "rel").as_str()) {
            has_acquisition = true;
            match attr_value(e, "href") {
                Some(href) => match href_has_readaloud_format(feed_url, href.as_str()) {
                    Ok(readaloud) => {
                        if readaloud {
                            has_readaloud = true;
                        }
                    },
                    Err(x) => {
                        return Err(x);
                    },
                },
                None => {},
            }
        }
        i += 1;
    }
    match failure {
        Some(x) => Err(xml_err(x)),
        None => Ok(!has_acquisition || has_readaloud),
    }
}

/// Whether an entry stays: it offers no book at all, or a readaloud one.
pub fn should_keep_entry(entry: &[u8], feed_url: &str) -> (r: Result<bool, ProxyError>)
    ensures
        r == entry_stays(xml::document(entry@), feed_url@),
        xml::reads_element_back(entry@, xml::document(entry@)),
{
    should_keep_document(read_document(entry), feed_url)
}

/// `catalog_rewritten` of a whole document.
pub open spec fn document_rewritten(doc: DocumentView, feed: Seq<char>, base: Seq<char>) -> Result<
    Seq<u8>,
    ProxyError,
> {
    catalog_rewritten(doc.events, doc.failure, feed, base)
}

/// The collected entry as it is written out.
fn rewrite_entry(entry: &[u8], feed_url: &str, proxy_base: &str) -> (r: Result<
    Vec<u8>,
    ProxyError,
>)
    requires
        links_fit(proxy_base@),
    ensures
        (match r {
            Ok(bytes) => entry_rewritten(entry@, feed_url@, proxy_base@) == Ok::<
                Seq<u8>,
                ProxyError,
            >(bytes@),
            Err(x) => entry_rewritten(entry@, feed_url@, proxy_base@) == Err::<
                Seq<u8>,
                ProxyError,
            >(x),
        }),
        xml::reads_element_back(entry@, xml::document(entry@)),
{
    match should_keep_entry(entry, feed_url) {
        Err(x) => Err(x),
        Ok(stays) => {
            if stays {
                rewrite_links(entry, feed_url, proxy_base)
            } else {
                Ok(Vec::new())
            }
        },
    }
}

/// Rewrites a catalog: drops the entries and links that lead to no readaloud book and leads the
/// other links through the proxy.
pub fn rewrite_document(doc: Document, feed_url: &str, proxy_base: &str) -> (r: Result<
    Vec<u8>,
    ProxyError,
>)
    requires
        links_fit(proxy_base@),
    ensures
        (match r {
            Ok(bytes) => document_rewritten(doc@, feed_url@, proxy_base@) == Ok::<
                Seq<u8>,
                ProxyError,
            >(bytes@),
            Err(x) => document_rewritten(doc@, feed_url@, proxy_base@) == Err::<
                Seq<u8>,
                ProxyError,
            >(x),
        }),
        is_one_entry(doc@) ==> xml::reads_element_back(
            xml::markup_of(doc@.events),
            xml::document(xml::markup_of(doc@.events)),
        ),
{
    let Document { events, failure } = doc;
    let ghost all = xml::event_views(events@);
    let ghost whole = catalog_rewritten(all, failure, feed_url@, proxy_base@);
    let mut out: Vec<u8> = Vec::new();
    let mut i: usize = 0;
    proof {
        assert(all.skip(0) =~= all);
        rewriting::lemma_prefix_empty(whole);
    }
    while i < events.len()
        invariant
            links_fit(proxy_base@),
            all == xml::event_views(events@),
            whole == document_rewritten(doc@, feed_url@, proxy_base@),
            doc@ == (DocumentView { events: all, failure }),
            i <= events.len(),
            is_one_entry(doc@) ==> i == 0 || xml::reads_element_back(
                xml::markup_of(all),
                xml::document(xml::markup_of(all)),
            ),
            whole == rewriting::prefixed(
                out@,
                catalog_rewritten(all.skip(i as int), failure, feed_url@, proxy_base@),
            ),
        decreases events.len() - i,
    {
        let e: &XmlEvent = &events[i];
        let ghost here = all.skip(i as int);
        let ghost before = out@;
        proof {
            assert(here[0] == e@);
            assert(here.skip(1) =~= all.skip(i + 1));
        }
        if e.kind == EventKind::Start && is_entry(e) {
            let (entry, closed) = collect_element(&events, i);
            proof {
                if is_one_entry(doc@) && i == 0 {
                    assert(here =~= all);
                    assert(here.take(all.len() as int) =~= all);
                }
            }
            let end: usize = match closed {
                Some(end) => end,
                None => events.len(),
            };
            if closed.is_none() && failure.is_some() {
                assert(all.skip(end as int).len() == 0);
            } else {
                proof {
                    assert(here.skip(1).skip(end - (i + 1)) =~= all.skip(end as int));
                }
                match rewrite_entry(entry.as_slice(), feed_url, proxy_base) {
                    Ok(bytes) => {
                        out.extend_from_slice(bytes.as_slice());
                        proof {
                            assert(out@ =~= before + bytes@);
                            let rest = catalog_rewritten(
                                all.skip(end as int),
                                failure,
                                feed_url@,
                                proxy_base@,
                            );
                            rewriting::lemma_prefix_twice(before, bytes@, rest);
                            if closed is None {
                                assert(bytes@ + Seq::<u8>::empty() =~= bytes@);
                            }
                        }
                    },
                    Err(x) => {
                        return Err(x);
                    },
                }
            }
            i = end;
        } else if !is_link(e) {
            out.extend_from_slice(e.markup.as_slice());
            proof {
                assert(out@ =~= before + e@.markup);
                let rest = catalog_rewritten(all.skip(i + 1), failure, feed_url@, proxy_base@);
                rewriting::lemma_prefix_twice(before, e@.markup, rest);
            }
            i += 1;
        } else if !should_drop_link(e, feed_url) {
            match rewrite_link(e, feed_url, proxy_base) {
                Ok(bytes) => {
                    out.extend_from_slice(bytes.as_slice());
                    proof {
                        assert(out@ =~= before + bytes@);
                        let rest = catalog_rewritten(
                            all.skip(i + 1),
                            failure,
                            feed_url@,
                            proxy_base@,
                        );
                        rewriting::lemma_prefix_twice(before, bytes@, rest);
                    }
                },
                Err(x) => {
                    return Err(x);
                },
            }
            i += 1;
        } else if e.kind == EventKind::Empty {
            i += 1;
        } else {
            match skip_element(&events, i + 1, &e.name) {
                Some(end) => {
                    proof {
                        assert(here.skip(1).skip(end - (i + 1)) =~= all.skip(end as int));
                    }
                    i = end;
                },
                None => {
                    assert(whole == rewriting::prefixed(before, rewriting::at_end(failure)));
                    i = events.len();
                    assert(all.skip(i as int).len() == 0);
                },
            }
        }
    }
    match failure {
        Some(x) => Err(xml_err(x)),
        None => {
            assert(out@ + Seq::<u8>::empty() =~= out@);
            Ok(out)
        },
    }
}

/// Rewrites a catalog. Both URLs have to be such.
pub open spec fn feed_rewritten(doc: DocumentView, feed: Seq<char>, base: Seq<char>) -> Result<
    Seq<u8>,
    ProxyError,
> {
    match (web_url::parsed_url(feed), web_url::parsed_url(base)) {
        (Err(x), _) => Err(ProxyError::Url(x)),
        (_, Err(x)) => Err(ProxyError::Url(x)),
        _ => document_rewritten(doc, feed, base),
    }
}

/// Rewrites all OPDS link targets in an XML document and drops what leads to no readaloud book. A
/// document that is a single entry comes out as that entry does. Two complete documents one behind
/// the other come out as both of them do. A document without entries and links comes out as it
/// went in. What comes out is the markup of events, and each link among them may be shown.
pub fn rewrite(input: &[u8], feed_url: &str, proxy_base: &str) -> (r: Result<Vec<u8>, ProxyError>)
    requires
        links_fit(proxy_base@),
    ensures
        (match r {
            Ok(bytes) => feed_rewritten(xml::document(input@), feed_url@, proxy_base@) == Ok::<
                Seq<u8>,
                ProxyError,
            >(bytes@),
            Err(x) => feed_rewritten(xml::document(input@), feed_url@, proxy_base@) == Err::<
                Seq<u8>,
                ProxyError,
            >(x),
        }),
        web_url::parsed_url(feed_url@) is Ok && web_url::parsed_url(proxy_base@) is Ok
            && is_one_entry(xml::document(input@)) ==> (match entry_document_rewritten(
            xml::document(input@),
            feed_url@,
            proxy_base@,
        ) {
            Ok(bytes) => r is Ok && r->Ok_0@ == bytes,
            Err(x) => r == Err::<Vec<u8>, ProxyError>(x),
        }),
        forall|a: Seq<u8>, b: Seq<u8>|
            input@ == #[trigger] (a + b) && xml::is_complete(a) && xml::is_complete(b)
                && xml::opens_with_markup(b) ==> (match (
                feed_rewritten(xml::document(a), feed_url@, proxy_base@),
                feed_rewritten(xml::document(b), feed_url@, proxy_base@),
            ) {
                (Ok(x), Ok(y)) => r is Ok && r->Ok_0@ == x + y,
                _ => true,
            }),
        web_url::parsed_url(feed_url@) is Ok && web_url::parsed_url(proxy_base@) is Ok
            && xml::document(input@).failure is None && has_nothing_to_rewrite(
            xml::document(input@).events,
        ) ==> r is Ok && xml::is_same_text(input@, r->Ok_0@),
        r is Ok ==> exists|list: Seq<EventView>|
            r->Ok_0@ == #[trigger] xml::markup_of(list) && shows_wanted_links(list, proxy_base@),
{
    if let Err(e) = parse_url(feed_url) {
        return Err(invalid_url(e));
    }
    if let Err(e) = parse_url(proxy_base) {
        return Err(invalid_url(e));
    }
    let doc: Document = read_document(input);
    let r = rewrite_document(doc, feed_url, proxy_base);
    proof {
        if is_one_entry(doc@) {
            lemma_one_entry(input@, feed_url@, proxy_base@);
        }
        law_written_catalog_may_be_shown(doc@.events, doc@.failure, feed_url@, proxy_base@);
        if let Ok(list) = written_catalog(doc@.events, doc@.failure, feed_url@, proxy_base@) {
            assert(shows_wanted_links(list, proxy_base@));
        }
        if has_nothing_to_rewrite(doc@.events) {
            law_other_markup_is_kept(doc@.events, doc@.failure, feed_url@, proxy_base@);
            let markup = xml::markup_of(doc@.events);
            assert(markup + Seq::<u8>::empty() =~= markup);
        }
        assert forall|a: Seq<u8>, b: Seq<u8>|
            input@ == #[trigger] (a + b) && xml::is_complete(a) && xml::is_complete(b)
                && xml::opens_with_markup(b) implies (match (
            feed_rewritten(xml::document(a), feed_url@, proxy_base@),
            feed_rewritten(xml::document(b), feed_url@, proxy_base@),
        ) {
            (Ok(x), Ok(y)) => r is Ok && r->Ok_0@ == x + y,
            _ => true,
        }) by {
            lemma_two_documents(a, b, doc@, feed_url@, proxy_base@);
        }
    }
    r
}

/// A single entry comes out as its own document does.
proof fn lemma_one_entry(input: Seq<u8>, feed: Seq<char>, base: Seq<char>)
    requires
        is_one_entry(xml::document(input)),
        xml::reads_element_back(
            xml::markup_of(xml::document(input).events),
            xml::document(xml::markup_of(xml::document(input).events)),
        ),
    ensures
        document_rewritten(xml::document(input), feed, base) == entry_document_rewritten(
            xml::document(input),
            feed,
            base,
        ),
{
    let doc = xml::document(input);
    let n = (doc.events.len() - 1) as nat;
    reveal(xml::reads_element_back);
    assert(doc.events.subrange(0, doc.events.len() as int) =~= doc.events);
    assert(xml::markup_of(xml::document(input).events.subrange(0, doc.events.len() as int))
        == xml::markup_of(doc.events));
    assert(xml::document(xml::markup_of(doc.events)) == doc);
    assert(doc.events.take((n + 1) as int) =~= doc.events);
    let rest = doc.events.skip(1).skip(n as int);
    assert(rest.len() == 0);
    assert(catalog_rewritten(rest, None, feed, base) == rewriting::at_end(None));
    if let Ok(bytes) = entry_document_rewritten(doc, feed, base) {
        assert(bytes + Seq::<u8>::empty() =~= bytes);
    }
}

/// Two complete documents one behind the other come out as both of them do.
proof fn lemma_two_documents(
    a: Seq<u8>,
    b: Seq<u8>,
    doc: DocumentView,
    feed: Seq<char>,
    base: Seq<char>,
)
    requires
        xml::reads_in_parts(a + b, doc),
        xml::is_complete(a),
        xml::is_complete(b),
        xml::opens_with_markup(b),
    ensures
        feed_rewritten(xml::document(a), feed, base) is Ok && feed_rewritten(
            xml::document(b),
            feed,
            base,
        ) is Ok ==> document_rewritten(doc, feed, base) == Ok::<Seq<u8>, ProxyError>(
            feed_rewritten(xml::document(a), feed, base)->Ok_0 + feed_rewritten(
                xml::document(b),
                feed,
                base,
            )->Ok_0,
        ),
{
    reveal(xml::reads_in_parts);
    lemma_closed_is_whole(xml::document(a).events, Seq::empty(), feed);
    law_rewriting_is_piecewise(
        xml::document(a).events,
        xml::document(b).events,
        None,
        feed,
        base,
    );
}

/// Events in which every element is closed are whole pieces of a catalog.
proof fn lemma_closed_is_whole(events: Seq<EventView>, open: Seq<Seq<u8>>, feed: Seq<char>)
    requires
        xml::nesting(events, open) == Some(Seq::<Seq<u8>>::empty()),
    ensures
        are_whole(events, feed),
    decreases events.len(),
{
    if events.len() > 0 {
        let e = events[0];
        let rest = events.skip(1);
        xml::lemma_span_bound(rest, e.name, 1);
        if e.kind == EventKind::Start {
            assert(open.push(e.name) + Seq::<Seq<u8>>::empty() =~= open.push(e.name));
            assert(xml::occurrences(Seq::<Seq<u8>>::empty(), e.name) == 0);
            xml::lemma_span_in_nesting(rest, open, e.name, Seq::empty());
            let n = xml::span(rest, e.name, 1)->0;
            lemma_closed_is_whole(rest.skip(n as int), open, feed);
            lemma_closed_is_whole(rest, open.push(e.name), feed);
        } else if e.kind == EventKind::End {
            lemma_closed_is_whole(rest, open.drop_last(), feed);
        } else {
            lemma_closed_is_whole(rest, open, feed);
        }
    }
}

/// `events` are whole pieces of a catalog: every entry and every link that is left out is closed
/// in them.
pub open spec fn are_whole(events: Seq<EventView>, feed: Seq<char>) -> bool
    decreases events.len(),
{
    events.len() > 0 ==> {
        let e = events[0];
        let rest = events.skip(1);
        let end = xml::span(rest, e.name, 1);
        proof {
            xml::lemma_span_bound(rest, e.name, 1);
        }
        if opens_entry(e) || (is_link_tag(e) && leaves_out_link(e, feed) && e.kind
            == EventKind::Start) {
            end matches Some(n) && are_whole(rest.skip(n as int), feed)
        } else {
            are_whole(rest, feed)
        }
    }
}

/// A catalog is rewritten piece by piece: what stands before whole pieces, and behind them, has
/// no say in what becomes of them.
pub proof fn law_rewriting_is_piecewise(
    front: Seq<EventView>,
    back: Seq<EventView>,
    failure: Option<quick_xml::Error>,
    feed: Seq<char>,
    base: Seq<char>,
)
    requires
        are_whole(front, feed),
    ensures
        catalog_rewritten(front + back, failure, feed, base) == (match catalog_rewritten(
            front,
            None,
            feed,
            base,
        ) {
            Ok(bytes) => rewriting::prefixed(bytes, catalog_rewritten(back, failure, feed, base)),
            Err(x) => Err(x),
        }),
    decreases front.len(),
{
    let after = catalog_rewritten(back, failure, feed, base);
    if front.len() == 0 {
        assert(front + back =~= back);
        rewriting::lemma_prefix_empty(after);
    } else {
        let e = front[0];
        let rest = front.skip(1);
        let both = front + back;
        assert(both[0] == e);
        assert(both.skip(1) =~= rest + back);
        xml::lemma_span_bound(rest, e.name, 1);
        let closes = opens_entry(e) || (is_link_tag(e) && leaves_out_link(e, feed) && e.kind
            == EventKind::Start);
        let next = if closes {
            rest.skip(xml::span(rest, e.name, 1)->0 as int)
        } else {
            rest
        };
        if closes {
            let n = xml::span(rest, e.name, 1)->0;
            xml::lemma_span_extends(rest, back, e.name, 1);
            assert((rest + back).skip(n as int) =~= next + back);
            assert(both.take((n + 1) as int) =~= front.take((n + 1) as int));
        }
        law_rewriting_is_piecewise(next, back, failure, feed, base);
        let piece = if opens_entry(e) {
            entry_rewritten(
                xml::markup_of(front.take((xml::span(rest, e.name, 1)->0 + 1) as int)),
                feed,
                base,
            )
        } else if !is_link_tag(e) {
            Ok(e.markup)
        } else if !leaves_out_link(e, feed) {
            link_markup(e, feed, base)
        } else {
            Ok(Seq::empty())
        };
        let tail = catalog_rewritten(next, None, feed, base);
        if let Ok(bytes) = piece {
            if let Ok(more) = tail {
                rewriting::lemma_prefix_twice(bytes, more, after);
                rewriting::lemma_prefix_empty(tail);
                rewriting::lemma_prefix_empty(rewriting::prefixed(more, after));
            }
        }
    }
}

/// An entry that offers books, but none in the readaloud format, is left out of the catalog.
pub proof fn law_entry_without_readaloud_is_left_out(
    events: Seq<EventView>,
    n: nat,
    failure: Option<quick_xml::Error>,
    feed: Seq<char>,
    base: Seq<char>,
)
    requires
        events.len() > 0,
        opens_entry(events[0]),
        xml::span(events.skip(1), events[0].name, 1) == Some(n),
        ({
            let doc = xml::document(xml::markup_of(events.take((n + 1) as int)));
            &&& entry_failure(doc.events, doc.failure, feed) is None
            &&& has_book_link(doc.events)
            &&& !has_readaloud_link(doc.events, feed)
        }),
    ensures
        catalog_rewritten(events, failure, feed, base) == catalog_rewritten(
            events.skip((n + 1) as int),
            failure,
            feed,
            base,
        ),
{
    xml::lemma_span_bound(events.skip(1), events[0].name, 1);
    assert(events.skip(1).skip(n as int) =~= events.skip((n + 1) as int));
    rewriting::lemma_prefix_empty(
        catalog_rewritten(events.skip((n + 1) as int), failure, feed, base),
    );
}

/// An entry that offers a readaloud book stays, and so does one that offers no book at all: its
/// links are rewritten.
pub proof fn law_other_entries_stay(
    events: Seq<EventView>,
    n: nat,
    failure: Option<quick_xml::Error>,
    feed: Seq<char>,
    base: Seq<char>,
)
    requires
        events.len() > 0,
        opens_entry(events[0]),
        xml::span(events.skip(1), events[0].name, 1) == Some(n),
        ({
            let doc = xml::document(xml::markup_of(events.take((n + 1) as int)));
            &&& entry_failure(doc.events, doc.failure, feed) is None
            &&& !has_book_link(doc.events) || has_readaloud_link(doc.events, feed)
        }),
    ensures
        catalog_rewritten(events, failure, feed, base) == (match document_links_rewritten(
            xml::document(xml::markup_of(events.take((n + 1) as int))),
            feed,
            base,
        ) {
            Ok(bytes) => rewriting::prefixed(
                bytes,
                catalog_rewritten(events.skip((n + 1) as int), failure, feed, base),
            ),
            Err(x) => Err(x),
        }),
{
    xml::lemma_span_bound(events.skip(1), events[0].name, 1);
    assert(events.skip(1).skip(n as int) =~= events.skip((n + 1) as int));
}

/// A link that offers a book in another format than readaloud is left out, with all that it
/// encloses, within entries and outside them.
pub proof fn law_link_to_other_format_is_left_out(
    events: Seq<EventView>,
    n: nat,
    failure: Option<quick_xml::Error>,
    feed: Seq<char>,
    base: Seq<char>,
)
    requires
        events.len() > 0,
        is_book_link(events[0]),
        !leads_to_readaloud(events[0], feed),
        if events[0].kind == EventKind::Empty {
            n == 0
        } else {
            xml::span(events.skip(1), events[0].name, 1) == Some(n)
        },
    ensures
        catalog_rewritten(events, failure, feed, base) == catalog_rewritten(
            events.skip((n + 1) as int),
            failure,
            feed,
            base,
        ),
        links_rewritten(events, failure, feed, base) == links_rewritten(
            events.skip((n + 1) as int),
            failure,
            feed,
            base,
        ),
{
    lemma_link_opens_no_entry(events[0]);
    xml::lemma_span_bound(events.skip(1), events[0].name, 1);
    assert(events.skip(1).skip(n as int) =~= events.skip((n + 1) as int));
}

/// A link is no entry.
proof fn lemma_link_opens_no_entry(e: EventView)
    requires
        is_link_tag(e),
    ensures
        !opens_entry(e),
{
    reveal_strlit("link");
    reveal_strlit("entry");
    encode_utf8_decode_utf8("link"@);
    encode_utf8_decode_utf8("entry"@);
    assert("link"@.len() != "entry"@.len());
}

/// No event opens an entry or is a link.
pub open spec fn has_nothing_to_rewrite(events: Seq<EventView>) -> bool {
    forall|i: int|
        0 <= i < events.len() ==> !opens_entry(#[trigger] events[i]) && !is_link_tag(events[i])
}

/// The markup of a catalog without entries and links comes out as it went in.
pub proof fn law_other_markup_is_kept(
    events: Seq<EventView>,
    failure: Option<quick_xml::Error>,
    feed: Seq<char>,
    base: Seq<char>,
)
    requires
        has_nothing_to_rewrite(events),
    ensures
        catalog_rewritten(events, failure, feed, base) == rewriting::prefixed(
            xml::markup_of(events),
            rewriting::at_end(failure),
        ),
    decreases events.len(),
{
    if events.len() == 0 {
        rewriting::lemma_prefix_empty(rewriting::at_end(failure));
    } else {
        let rest = events.skip(1);
        assert forall|i: int| 0 <= i < rest.len() implies !opens_entry(#[trigger] rest[i])
            && !is_link_tag(rest[i]) by {
            assert(rest[i] == events[i + 1]);
        }
        law_other_markup_is_kept(rest, failure, feed, base);
        rewriting::lemma_prefix_twice(
            events[0].markup,
            xml::markup_of(rest),
            rewriting::at_end(failure),
        );
    }
}

/// A link with a target leads through the proxy: its target is replaced by the proxy's own URL
/// for what it led to, on the catalog route for a catalog, on the book route for a readaloud book,
/// and on the file route for all else.
pub proof fn law_links_lead_through_the_proxy(
    e: EventView,
    href: Seq<char>,
    upstream: UrlView,
    path: Seq<char>,
    own: UrlView,
    feed: Seq<char>,
    base: Seq<char>,
)
    requires
        is_link_tag(e),
        xml::attribute_text(e, "href"@) == Some(href),
        web_url::joined_url(feed, href) == Ok::<UrlView, url::ParseError>(upstream),
        ({
            let catalog = text::occurs_in(
                xml::attribute_or_empty(e, "type"@),
                "application/atom+xml"@,
            );
            let book = is_book_link(e) && leads_to_readaloud(e, feed);
            path == (if catalog {
                "/opds"@
            } else if book {
                "/download"@
            } else {
                "/fetch"@
            })
        }),
        web_url::joined_url(base, path) == Ok::<UrlView, url::ParseError>(own),
    ensures
        link_markup(e, feed, base) == Ok::<Seq<u8>, ProxyError>(
            xml::tag_markup(
                e.name,
                redirected(e.attributes, own.text + web_url::query_of("u"@, upstream.text)),
                e.kind,
            ),
        ),
{
}

/// A link without a target stays as it is.
pub proof fn law_link_without_target_is_kept(e: EventView, feed: Seq<char>, base: Seq<char>)
    requires
        xml::attribute_text(e, "href"@) is None,
    ensures
        link_markup(e, feed, base) == Ok::<Seq<u8>, ProxyError>(e.markup),
{
}

/// An entry that offers books, but none in the readaloud format, leaves no trace wherever it
/// stands: the catalog comes out as it does without it.
pub proof fn law_unwanted_entry_leaves_no_trace(
    front: Seq<EventView>,
    entry: Seq<EventView>,
    back: Seq<EventView>,
    failure: Option<quick_xml::Error>,
    feed: Seq<char>,
    base: Seq<char>,
)
    requires
        are_whole(front, feed),
        entry.len() > 0,
        opens_entry(entry[0]),
        xml::span(entry.skip(1), entry[0].name, 1) == Some((entry.len() - 1) as nat),
        ({
            let doc = xml::document(xml::markup_of(entry));
            &&& entry_failure(doc.events, doc.failure, feed) is None
            &&& has_book_link(doc.events)
            &&& !has_readaloud_link(doc.events, feed)
        }),
    ensures
        catalog_rewritten(front + entry + back, failure, feed, base) == catalog_rewritten(
            front + back,
            failure,
            feed,
            base,
        ),
{
    let n = (entry.len() - 1) as nat;
    let rest = entry + back;
    assert(rest[0] == entry[0]);
    assert(rest.skip(1) =~= entry.skip(1) + back);
    xml::lemma_span_extends(entry.skip(1), back, entry[0].name, 1);
    assert(rest.take((n + 1) as int) =~= entry);
    assert(rest.skip((n + 1) as int) =~= back);
    law_entry_without_readaloud_is_left_out(rest, n, failure, feed, base);
    assert(front + entry + back =~= front + rest);
    law_rewriting_is_piecewise(front, rest, failure, feed, base);
    law_rewriting_is_piecewise(front, back, failure, feed, base);
}

/// A link that offers a book in another format than readaloud leaves no trace wherever it stands
/// outside the entries: the catalog comes out as it does without it.
pub proof fn law_unwanted_link_leaves_no_trace(
    front: Seq<EventView>,
    link: Seq<EventView>,
    back: Seq<EventView>,
    failure: Option<quick_xml::Error>,
    feed: Seq<char>,
    base: Seq<char>,
)
    requires
        are_whole(front, feed),
        link.len() > 0,
        is_book_link(link[0]),
        !leads_to_readaloud(link[0], feed),
        if link[0].kind == EventKind::Empty {
            link.len() == 1
        } else {
            xml::span(link.skip(1), link[0].name, 1) == Some((link.len() - 1) as nat)
        },
    ensures
        catalog_rewritten(front + link + back, failure, feed, base) == catalog_rewritten(
            front + back,
            failure,
            feed,
            base,
        ),
{
    let n = (link.len() - 1) as nat;
    let rest = link + back;
    assert(rest[0] == link[0]);
    assert(rest.skip(1) =~= link.skip(1) + back);
    if link[0].kind != EventKind::Empty {
        xml::lemma_span_extends(link.skip(1), back, link[0].name, 1);
    }
    assert(rest.skip((n + 1) as int) =~= back);
    law_link_to_other_format_is_left_out(rest, n, failure, feed, base);
    assert(front + link + back =~= front + rest);
    law_rewriting_is_piecewise(front, rest, failure, feed, base);
    law_rewriting_is_piecewise(front, back, failure, feed, base);
}

/// An entry that offers a readaloud book, or no book at all, stays wherever it stands: it comes
/// out with its links rewritten, between what comes of the catalog before and behind it.
pub proof fn law_wanted_entry_stays_in_its_place(
    front: Seq<EventView>,
    entry: Seq<EventView>,
    back: Seq<EventView>,
    failure: Option<quick_xml::Error>,
    feed: Seq<char>,
    base: Seq<char>,
)
    requires
        are_whole(front, feed),
        entry.len() > 0,
        opens_entry(entry[0]),
        xml::span(entry.skip(1), entry[0].name, 1) == Some((entry.len() - 1) as nat),
        ({
            let doc = xml::document(xml::markup_of(entry));
            &&& entry_failure(doc.events, doc.failure, feed) is None
            &&& !has_book_link(doc.events) || has_readaloud_link(doc.events, feed)
        }),
    ensures
        catalog_rewritten(front + entry + back, failure, feed, base) == (match catalog_rewritten(
            front,
            None,
            feed,
            base,
        ) {
            Ok(before) => match document_links_rewritten(
                xml::document(xml::markup_of(entry)),
                feed,
                base,
            ) {
                Ok(bytes) => rewriting::prefixed(
                    before + bytes,
                    catalog_rewritten(back, failure, feed, base),
                ),
                Err(x) => Err(x),
            },
            Err(x) => Err(x),
        }),
{
    let n = (entry.len() - 1) as nat;
    let rest = entry + back;
    assert(rest[0] == entry[0]);
    assert(rest.skip(1) =~= entry.skip(1) + back);
    xml::lemma_span_extends(entry.skip(1), back, entry[0].name, 1);
    assert(rest.take((n + 1) as int) =~= entry);
    assert(rest.skip((n + 1) as int) =~= back);
    law_other_entries_stay(rest, n, failure, feed, base);
    assert(front + entry + back =~= front + rest);
    law_rewriting_is_piecewise(front, rest, failure, feed, base);
    if let Ok(before) = catalog_rewritten(front, None, feed, base) {
        if let Ok(bytes) = document_links_rewritten(
            xml::document(xml::markup_of(entry)),
            feed,
            base,
        ) {
            rewriting::lemma_prefix_twice(
                before,
                bytes,
                catalog_rewritten(back, failure, feed, base),
            );
        }
    }
}

/// `events` are whole pieces of an entry: every link that is left out is closed in them.
pub open spec fn links_are_whole(events: Seq<EventView>, feed: Seq<char>) -> bool
    decreases events.len(),
{
    events.len() > 0 ==> {
        let e = events[0];
        let rest = events.skip(1);
        proof {
            xml::lemma_span_bound(rest, e.name, 1);
        }
        if is_link_tag(e) && leaves_out_link(e, feed) && e.kind == EventKind::Start {
            xml::span(rest, e.name, 1) matches Some(n) && links_are_whole(rest.skip(n as int), feed)
        } else {
            links_are_whole(rest, feed)
        }
    }
}

/// The links of an entry are rewritten piece by piece: what stands before whole pieces, and behind
/// them, has no say in what becomes of them.
pub proof fn law_link_rewriting_is_piecewise(
    front: Seq<EventView>,
    back: Seq<EventView>,
    failure: Option<quick_xml::Error>,
    feed: Seq<char>,
    base: Seq<char>,
)
    requires
        links_are_whole(front, feed),
    ensures
        links_rewritten(front + back, failure, feed, base) == (match links_rewritten(
            front,
            None,
            feed,
            base,
        ) {
            Ok(bytes) => rewriting::prefixed(bytes, links_rewritten(back, failure, feed, base)),
            Err(x) => Err(x),
        }),
    decreases front.len(),
{
    let after = links_rewritten(back, failure, feed, base);
    if front.len() == 0 {
        assert(front + back =~= back);
        rewriting::lemma_prefix_empty(after);
    } else {
        let e = front[0];
        let rest = front.skip(1);
        let both = front + back;
        assert(both[0] == e);
        assert(both.skip(1) =~= rest + back);
        xml::lemma_span_bound(rest, e.name, 1);
        let closes = is_link_tag(e) && leaves_out_link(e, feed) && e.kind == EventKind::Start;
        let next = if closes {
            rest.skip(xml::span(rest, e.name, 1)->0 as int)
        } else {
            rest
        };
        if closes {
            let n = xml::span(rest, e.name, 1)->0;
            xml::lemma_span_extends(rest, back, e.name, 1);
            assert((rest + back).skip(n as int) =~= next + back);
        }
        law_link_rewriting_is_piecewise(next, back, failure, feed, base);
        let piece = if !is_link_tag(e) {
            Ok(e.markup)
        } else {
            link_markup(e, feed, base)
        };
        let tail = links_rewritten(next, None, feed, base);
        if let Ok(bytes) = piece {
            if let Ok(more) = tail {
                rewriting::lemma_prefix_twice(bytes, more, after);
            }
        }
    }
}

/// A link that offers a book in another format than readaloud leaves no trace wherever it stands
/// in an entry: the entry comes out as it does without it.
pub proof fn law_unwanted_link_leaves_no_trace_in_an_entry(
    front: Seq<EventView>,
    link: Seq<EventView>,
    back: Seq<EventView>,
    failure: Option<quick_xml::Error>,
    feed: Seq<char>,
    base: Seq<char>,
)
    requires
        links_are_whole(front, feed),
        link.len() > 0,
        is_book_link(link[0]),
        !leads_to_readaloud(link[0], feed),
        if link[0].kind == EventKind::Empty {
            link.len() == 1
        } else {
            xml::span(link.skip(1), link[0].name, 1) == Some((link.len() - 1) as nat)
        },
    ensures
        links_rewritten(front + link + back, failure, feed, base) == links_rewritten(
            front + back,
            failure,
            feed,
            base,
        ),
{
    let n = (link.len() - 1) as nat;
    let rest = link + back;
    assert(rest[0] == link[0]);
    assert(rest.skip(1) =~= link.skip(1) + back);
    if link[0].kind != EventKind::Empty {
        xml::lemma_span_extends(link.skip(1), back, link[0].name, 1);
    }
    assert(rest.skip((n + 1) as int) =~= back);
    law_link_to_other_format_is_left_out(rest, n, failure, feed, base);
    assert(front + link + back =~= front + rest);
    law_link_rewriting_is_piecewise(front, rest, failure, feed, base);
    law_link_rewriting_is_piecewise(front, back, failure, feed, base);
}

/// `list` with `front` before it, where `list` is no error.
pub open spec fn with_front(
    front: Seq<EventView>,
    list: Result<Seq<EventView>, ProxyError>,
) -> Result<Seq<EventView>, ProxyError> {
    match list {
        Ok(events) => Ok(front + events),
        Err(x) => Err(x),
    }
}

/// The events of a document as they are written: its links left out or led through the proxy, and
/// all else as it was.
pub open spec fn written_links(
    events: Seq<EventView>,
    failure: Option<quick_xml::Error>,
    feed: Seq<char>,
    base: Seq<char>,
) -> Result<Seq<EventView>, ProxyError>
    decreases events.len(),
{
    if events.len() == 0 {
        match failure {
            Some(x) => Err(ProxyError::Xml(x)),
            None => Ok(Seq::empty()),
        }
    } else {
        let e = events[0];
        let rest = events.skip(1);
        if !is_link_tag(e) {
            with_front(seq![e], written_links(rest, failure, feed, base))
        } else if !leaves_out_link(e, feed) {
            match link_event(e, feed, base) {
                Ok(written) => with_front(
                    seq![written],
                    written_links(rest, failure, feed, base),
                ),
                Err(x) => Err(x),
            }
        } else if e.kind == EventKind::Empty {
            written_links(rest, failure, feed, base)
        } else {
            proof {
                xml::lemma_span_bound(rest, e.name, 1);
            }
            match xml::span(rest, e.name, 1) {
                Some(n) => written_links(rest.skip(n as int), failure, feed, base),
                None => written_links(Seq::empty(), failure, feed, base),
            }
        }
    }
}

/// The events of an entry as they are written: none if it does not stay.
pub open spec fn written_entry(entry: Seq<u8>, feed: Seq<char>, base: Seq<char>) -> Result<
    Seq<EventView>,
    ProxyError,
> {
    let doc = xml::document(entry);
    match entry_stays(doc, feed) {
        Err(x) => Err(x),
        Ok(stays) => if stays {
            written_links(doc.events, doc.failure, feed, base)
        } else {
            Ok(Seq::empty())
        },
    }
}

/// The events of a catalog as they are written: those of the entries that stay, the links outside
/// the entries left out or led through the proxy, and all else as it was.
pub open spec fn written_catalog(
    events: Seq<EventView>,
    failure: Option<quick_xml::Error>,
    feed: Seq<char>,
    base: Seq<char>,
) -> Result<Seq<EventView>, ProxyError>
    decreases events.len(),
{
    if events.len() == 0 {
        written_links(events, failure, feed, base)
    } else {
        let e = events[0];
        let rest = events.skip(1);
        let end = xml::span(rest, e.name, 1);
        proof {
            xml::lemma_span_bound(rest, e.name, 1);
        }
        if opens_entry(e) {
            match end {
                Some(n) => match written_entry(
                    xml::markup_of(events.take((n + 1) as int)),
                    feed,
                    base,
                ) {
                    Ok(list) => with_front(
                        list,
                        written_catalog(rest.skip(n as int), failure, feed, base),
                    ),
                    Err(x) => Err(x),
                },
                None => match failure {
                    Some(x) => Err(ProxyError::Xml(x)),
                    None => written_entry(xml::markup_of(events), feed, base),
                },
            }
        } else if !is_link_tag(e) {
            with_front(seq![e], written_catalog(rest, failure, feed, base))
        } else if !leaves_out_link(e, feed) {
            match link_event(e, feed, base) {
                Ok(written) => with_front(
                    seq![written],
                    written_catalog(rest, failure, feed, base),
                ),
                Err(x) => Err(x),
            }
        } else if e.kind == EventKind::Empty {
            written_catalog(rest, failure, feed, base)
        } else {
            match end {
                Some(n) => written_catalog(rest.skip(n as int), failure, feed, base),
                None => written_links(Seq::empty(), failure, feed, base),
            }
        }
    }
}

/// The markup of a list of events, where there is one.
pub open spec fn written_bytes(list: Result<Seq<EventView>, ProxyError>) -> Result<
    Seq<u8>,
    ProxyError,
> {
    match list {
        Ok(events) => Ok(xml::markup_of(events)),
        Err(x) => Err(x),
    }
}

/// `path` is one of the paths that links of a catalog lead to.
pub open spec fn is_proxy_path(path: Seq<char>) -> bool {
    path == "/opds"@ || path == "/download"@ || path == "/fetch"@
}

/// The value of an attribute is the proxy's own URL, on `path`, for `upstream`.
pub open spec fn leads_through_proxy(
    value: Seq<u8>,
    base: Seq<char>,
    path: Seq<char>,
    upstream: UrlView,
) -> bool {
    is_proxy_path(path) && match proxy_link(base, path, upstream.text) {
        Ok(target) => value == encode_utf8(xml::escaped(target)),
        Err(_) => false,
    }
}

/// A link may be shown: if it has a target, that leads through the proxy; and if it offers a book,
/// it has a target, and what that stands for is a book in the readaloud format.
pub open spec fn may_be_shown(e: EventView, base: Seq<char>) -> bool {
    let offers = offers_book(xml::attribute_or_empty(e, "rel"@));
    match xml::find_attribute(e.attributes, encode_utf8("href"@)) {
        None => !offers,
        Some(value) => leads_to_wanted(value, base, offers),
    }
}

/// The value of an attribute is the proxy's own URL for something upstream, which is a readaloud
/// book if it has to be a book.
pub open spec fn leads_to_wanted(value: Seq<u8>, base: Seq<char>, book: bool) -> bool {
    exists|path: Seq<char>, upstream: UrlView|
        #![trigger leads_through_proxy(value, base, path, upstream)]
        leads_through_proxy(value, base, path, upstream) && (book ==> asks_for_readaloud(upstream))
}

/// All links of the list may be shown.
pub open spec fn shows_wanted_links(list: Seq<EventView>, base: Seq<char>) -> bool {
    forall|i: int|
        0 <= i < list.len() && is_link_tag(#[trigger] list[i]) ==> may_be_shown(list[i], base)
}

/// The attributes of a link whose target was replaced.
proof fn lemma_find_in_redirected(
    attributes: Seq<(Seq<u8>, Seq<u8>)>,
    target: Seq<char>,
    key: Seq<u8>,
)
    ensures
        xml::find_attribute(redirected(attributes, target), key) == (match xml::find_attribute(
            attributes,
            key,
        ) {
            Some(value) => if key == encode_utf8("href"@) {
                Some(encode_utf8(xml::escaped(target)))
            } else {
                Some(value)
            },
            None => None,
        }),
    decreases attributes.len(),
{
    if attributes.len() > 0 {
        assert(redirected(attributes, target).skip(1) =~= redirected(attributes.skip(1), target));
        lemma_find_in_redirected(attributes.skip(1), target, key);
    }
}

/// The target of a link that was led through the proxy is the proxy's URL, as `attr_value` reads
/// it: the escaped text of that URL. All other attributes are what they were.
pub proof fn law_rewritten_link_has_the_proxy_target(
    attributes: Seq<(Seq<u8>, Seq<u8>)>,
    target: Seq<char>,
)
    ensures
        xml::find_attribute(attributes, encode_utf8("href"@)) is Some ==> xml::find_attribute(
            redirected(attributes, target),
            encode_utf8("href"@),
        ) == Some(encode_utf8(xml::escaped(target))),
        forall|key: Seq<u8>|
            key != encode_utf8("href"@) ==> #[trigger] xml::find_attribute(
                redirected(attributes, target),
                key,
            ) == xml::find_attribute(attributes, key),
{
    lemma_find_in_redirected(attributes, target, encode_utf8("href"@));
    assert forall|key: Seq<u8>| key != encode_utf8("href"@) implies #[trigger] xml::find_attribute(
        redirected(attributes, target),
        key,
    ) == xml::find_attribute(attributes, key) by {
        lemma_find_in_redirected(attributes, target, key);
    }
}

/// A link that stays may be shown.
proof fn lemma_kept_link_may_be_shown(e: EventView, feed: Seq<char>, base: Seq<char>)
    requires
        is_link_tag(e),
        !leaves_out_link(e, feed),
        link_event(e, feed, base) is Ok,
    ensures
        may_be_shown(link_event(e, feed, base)->Ok_0, base),
{
    let written = link_event(e, feed, base)->Ok_0;
    if let Some(href) = xml::attribute_text(e, "href"@) {
        let upstream = web_url::joined_url(feed, href)->Ok_0;
        let path = proxy_path(
            xml::attribute_or_empty(e, "rel"@),
            xml::attribute_or_empty(e, "type"@),
            asks_for_readaloud(upstream),
        );
        let target = proxy_link(base, path, upstream.text)->Ok_0;
        law_rewritten_link_has_the_proxy_target(e.attributes, target);
        reveal_strlit("href");
        reveal_strlit("rel");
        encode_utf8_decode_utf8("href"@);
        encode_utf8_decode_utf8("rel"@);
        assert("href"@.len() == 4 && "rel"@.len() == 3);
        assert(xml::attribute_or_empty(written, "rel"@) == xml::attribute_or_empty(e, "rel"@));
        let value = encode_utf8(xml::escaped(target));
        assert(written.attributes == redirected(e.attributes, target));
        assert(xml::find_attribute(written.attributes, encode_utf8("href"@)) == Some(value));
        assert(leads_through_proxy(value, base, path, upstream));
        let offers = offers_book(xml::attribute_or_empty(written, "rel"@));
        assert(offers ==> asks_for_readaloud(upstream));
        assert(leads_to_wanted(value, base, offers));
    } else {
        assert(!offers_book(xml::attribute_or_empty(e, "rel"@)));
        assert(written == e);
        assert(xml::find_attribute(e.attributes, encode_utf8("href"@)) is None);
    }
}

/// The markup of a list with more events before it.
proof fn lemma_bytes_with_front(front: Seq<EventView>, list: Result<Seq<EventView>, ProxyError>)
    ensures
        written_bytes(with_front(front, list)) == rewriting::prefixed(
            xml::markup_of(front),
            written_bytes(list),
        ),
        front.len() == 1 ==> xml::markup_of(front) == front[0].markup,
{
    if let Ok(events) = list {
        xml::lemma_markup_concat(front, events);
    }
    if front.len() == 1 {
        reveal_with_fuel(xml::markup_of, 2);
        assert(xml::markup_of(front) =~= front[0].markup);
    }
}

/// A list of links that may be shown, with more of them before it.
proof fn lemma_shown_with_front(front: Seq<EventView>, list: Seq<EventView>, base: Seq<char>)
    requires
        shows_wanted_links(front, base),
        shows_wanted_links(list, base),
    ensures
        shows_wanted_links(front + list, base),
{
    let all = front + list;
    assert forall|i: int| 0 <= i < all.len() && is_link_tag(#[trigger] all[i]) implies may_be_shown(
        all[i],
        base,
    ) by {
        if i < front.len() {
            assert(all[i] == front[i]);
        } else {
            assert(all[i] == list[i - front.len()]);
        }
    }
}

/// What is written of a document whose links are rewritten is the markup of a list of events, and
/// each link in that list may be shown: no link offers a book in another format than readaloud,
/// and each one with a target leads through the proxy.
pub proof fn law_written_links_may_be_shown(
    events: Seq<EventView>,
    failure: Option<quick_xml::Error>,
    feed: Seq<char>,
    base: Seq<char>,
)
    ensures
        links_rewritten(events, failure, feed, base) == written_bytes(
            written_links(events, failure, feed, base),
        ),
        written_links(events, failure, feed, base) matches Ok(list) ==> shows_wanted_links(
            list,
            base,
        ),
    decreases events.len(),
{
    if events.len() > 0 {
        let e = events[0];
        let rest = events.skip(1);
        xml::lemma_span_bound(rest, e.name, 1);
        law_written_links_may_be_shown(rest, failure, feed, base);
        let more = written_links(rest, failure, feed, base);
        if !is_link_tag(e) {
            lemma_bytes_with_front(seq![e], more);
            if let Ok(list) = more {
                lemma_shown_with_front(seq![e], list, base);
            }
        } else if !leaves_out_link(e, feed) {
            if let Ok(written) = link_event(e, feed, base) {
                lemma_kept_link_may_be_shown(e, feed, base);
                lemma_bytes_with_front(seq![written], more);
                if let Ok(list) = more {
                    lemma_shown_with_front(seq![written], list, base);
                }
            }
        } else if e.kind == EventKind::Start {
            match xml::span(rest, e.name, 1) {
                Some(n) => {
                    law_written_links_may_be_shown(rest.skip(n as int), failure, feed, base);
                },
                None => {
                    law_written_links_may_be_shown(Seq::empty(), failure, feed, base);
                },
            }
        }
    }
}

/// What is written of a catalog is the markup of a list of events, and each link in that list may
/// be shown: no link offers a book in another format than readaloud, and each one with a target
/// leads through the proxy.
pub proof fn law_written_catalog_may_be_shown(
    events: Seq<EventView>,
    failure: Option<quick_xml::Error>,
    feed: Seq<char>,
    base: Seq<char>,
)
    ensures
        catalog_rewritten(events, failure, feed, base) == written_bytes(
            written_catalog(events, failure, feed, base),
        ),
        written_catalog(events, failure, feed, base) matches Ok(list) ==> shows_wanted_links(
            list,
            base,
        ),
    decreases events.len(),
{
    if events.len() == 0 {
        law_written_links_may_be_shown(events, failure, feed, base);
    } else {
        let e = events[0];
        let rest = events.skip(1);
        let end = xml::span(rest, e.name, 1);
        xml::lemma_span_bound(rest, e.name, 1);
        law_written_catalog_may_be_shown(rest, failure, feed, base);
        let more = written_catalog(rest, failure, feed, base);
        if let Some(n) = end {
            law_written_catalog_may_be_shown(rest.skip(n as int), failure, feed, base);
        }
        if opens_entry(e) {
            let entry = match end {
                Some(n) => xml::markup_of(events.take((n + 1) as int)),
                None => xml::markup_of(events),
            };
            let doc = xml::document(entry);
            law_written_links_may_be_shown(doc.events, doc.failure, feed, base);
            if let Ok(list) = written_entry(entry, feed, base) {
                if let Some(n) = end {
                    let after = written_catalog(rest.skip(n as int), failure, feed, base);
                    lemma_bytes_with_front(list, after);
                    if let Ok(tail) = after {
                        lemma_shown_with_front(list, tail, base);
                    }
                }
            }
        } else if !is_link_tag(e) {
            lemma_bytes_with_front(seq![e], more);
            if let Ok(list) = more {
                lemma_shown_with_front(seq![e], list, base);
            }
        } else if !leaves_out_link(e, feed) {
            if let Ok(written) = link_event(e, feed, base) {
                lemma_kept_link_may_be_shown(e, feed, base);
                lemma_bytes_with_front(seq![written], more);
                if let Ok(list) = more {
                    lemma_shown_with_front(seq![written], list, base);
                }
            }
        } else if e.kind == EventKind::Start && end is None {
            law_written_links_may_be_shown(Seq::empty(), failure, feed, base);
        }
    }
}

} // verus!
