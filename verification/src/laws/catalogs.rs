//! Laws of catalogs: which links and entries stay, and what becomes of them.

use vstd::prelude::*;
use vstd::utf8::*;

use crate::error::ProxyError;
use crate::laws::documents;
use crate::laws::words;
use crate::opds;
use crate::rewriting;
use crate::text;
use crate::web_url;
use crate::web_url::{UrlView, WebUrl};
use crate::xml;
use crate::xml::{DocumentView, EventKind, EventView};

verus! {

/// The model of a URL holds its text, its path, and each pair of its query at its place.
pub proof fn law_url_model(url: WebUrl)
    ensures
        url@.text == url.text@,
        url@.path == url.path@,
        url@.pairs.len() == url.pairs@.len(),
        forall|i: int|
            #![trigger url@.pairs[i]]
            0 <= i < url.pairs@.len() ==> url@.pairs[i] == (url.pairs@[i].0@, url.pairs@[i].1@),
{
}

/// A URL asks for the readaloud format if that pair stands in its query, at whatever place and among
/// whatever others.
pub proof fn law_readaloud_pair_counts_anywhere(url: WebUrl, i: int)
    requires
        0 <= i < url.pairs@.len(),
        url.pairs@[i].0@ == "format"@,
        url.pairs@[i].1@ == "readaloud"@,
    ensures
        opds::asks_for_readaloud(url@),
{
    assert(url@.pairs[i] == ("format"@, "readaloud"@));
}

/// A URL asks for the readaloud format only if that pair stands in its query.
pub proof fn law_readaloud_needs_its_pair(url: WebUrl)
    requires
        forall|i: int|
            0 <= i < url.pairs@.len() ==> (#[trigger] url.pairs@[i]).0@ != "format"@
                || url.pairs@[i].1@ != "readaloud"@,
    ensures
        !opds::asks_for_readaloud(url@),
{
    if opds::asks_for_readaloud(url@) {
        let i = choose|i: int|
            0 <= i < url@.pairs.len() && url@.pairs[i] == ("format"@, "readaloud"@);
        assert(url@.pairs[i] == (url.pairs@[i].0@, url.pairs@[i].1@));
    }
}

/// A URL that asks for the readaloud format still does so with more pairs before or behind those of
/// its query, and if they are put in another order.
pub proof fn law_more_pairs_keep_readaloud(
    u: UrlView,
    front: Seq<(Seq<char>, Seq<char>)>,
    back: Seq<(Seq<char>, Seq<char>)>,
)
    ensures
        opds::asks_for_readaloud(u) ==> opds::asks_for_readaloud(
            (UrlView { pairs: front + u.pairs + back, ..u }),
        ),
        opds::asks_for_readaloud((UrlView { pairs: front + back, ..u }))
            == opds::asks_for_readaloud((UrlView { pairs: back + front, ..u })),
{
    let wanted = ("format"@, "readaloud"@);
    if opds::asks_for_readaloud(u) {
        let i = choose|i: int| 0 <= i < u.pairs.len() && u.pairs[i] == wanted;
        assert((front + u.pairs + back)[front.len() + i] == wanted);
    }
    if (front + back).contains(wanted) {
        let i = choose|i: int| 0 <= i < (front + back).len() && (front + back)[i] == wanted;
        if i < front.len() {
            assert((back + front)[back.len() + i] == wanted);
        } else {
            assert((back + front)[i - front.len()] == wanted);
        }
    }
    if (back + front).contains(wanted) {
        let i = choose|i: int| 0 <= i < (back + front).len() && (back + front)[i] == wanted;
        if i < back.len() {
            assert((front + back)[front.len() + i] == wanted);
        } else {
            assert((front + back)[i - back.len()] == wanted);
        }
    }
}

/// A relation that holds the word `acquisition`, wherever, offers a book.
pub proof fn law_acquisition_offers_a_book(front: Seq<char>, back: Seq<char>)
    ensures
        opds::offers_book(front + "acquisition"@ + back),
{
    words::law_part_occurs(front, "acquisition"@, back);
}

/// A relation that offers a book holds the word `acquisition`.
pub proof fn law_book_offer_is_an_acquisition(rel: Seq<char>) -> (r: (Seq<char>, Seq<char>))
    requires
        opds::offers_book(rel),
    ensures
        rel == r.0 + "acquisition"@ + r.1,
{
    words::law_occurring_part_stands_somewhere(rel, "acquisition"@)
}

/// A tag is a link by its local name alone, whatever its prefix, its attributes and its form, and
/// opens an entry by its local name if it is an opening tag. No closing tag is either.
pub proof fn law_links_and_entries(e: EventView)
    ensures
        (e.kind == EventKind::Start || e.kind == EventKind::Empty) && xml::local_part(e.name)
            == encode_utf8("link"@) <==> opds::is_link_tag(e),
        e.kind == EventKind::Start && xml::local_part(e.name) == encode_utf8("entry"@)
            <==> opds::opens_entry(e),
        opds::is_link_tag(e) ==> !opds::opens_entry(e),
        opds::is_link_tag(e) && opds::offers_book(xml::attribute_or_empty(e, "rel"@))
            <==> opds::is_book_link(e),
{
    documents::law_is_tag_of(e, "link"@);
    documents::law_is_tag_of(e, "entry"@);
    if opds::is_link_tag(e) && opds::opens_entry(e) {
        reveal_strlit("link");
        reveal_strlit("entry");
        encode_utf8_decode_utf8("link"@);
        encode_utf8_decode_utf8("entry"@);
        assert("link"@.len() != "entry"@.len());
    }
}

/// A link leads to a readaloud book if what its target names, read from the feed, asks for that
/// format at whatever place of its query.
pub proof fn law_link_to_readaloud(
    e: EventView,
    feed: Seq<char>,
    href: Seq<char>,
    u: UrlView,
    i: int,
)
    requires
        xml::attribute_text(e, "href"@) == Some(href),
        web_url::joined_url(feed, href) == Ok::<UrlView, url::ParseError>(u),
        0 <= i < u.pairs.len(),
        u.pairs[i] == ("format"@, "readaloud"@),
    ensures
        opds::leads_to_readaloud(e, feed),
        !opds::leaves_out_link(e, feed),
{
}

/// No other link does: none without target, none whose target names no URL, and none without that
/// pair in its query.
pub proof fn law_link_to_other_than_readaloud(e: EventView, feed: Seq<char>)
    requires
        (match xml::attribute_text(e, "href"@) {
            None => true,
            Some(href) => match web_url::joined_url(feed, href) {
                Err(_) => true,
                Ok(u) => forall|i: int|
                    0 <= i < u.pairs.len() ==> #[trigger] u.pairs[i] != ("format"@, "readaloud"@),
            },
        }),
    ensures
        !opds::leads_to_readaloud(e, feed),
        opds::leaves_out_link(e, feed) <==> opds::offers_book(xml::attribute_or_empty(e, "rel"@)),
{
    if opds::leads_to_readaloud(e, feed) {
        let href = xml::attribute_text(e, "href"@)->0;
        let u = web_url::joined_url(feed, href)->Ok_0;
        let i = choose|i: int| 0 <= i < u.pairs.len() && u.pairs[i] == ("format"@, "readaloud"@);
        assert(u.pairs[i] == ("format"@, "readaloud"@));
    }
}

/// A link whose type holds the type of catalogs, wherever, goes to the catalog route, whatever its
/// relation and its target.
pub proof fn law_catalog_route(front: Seq<char>, back: Seq<char>, rel: Seq<char>, readaloud: bool)
    ensures
        opds::proxy_path(rel, front + "application/atom+xml"@ + back, readaloud) == "/opds"@,
{
    words::law_part_occurs(front, "application/atom+xml"@, back);
}

/// A link of another type goes to the book route exactly if it offers a readaloud book, and else to
/// the file route.
pub proof fn law_other_routes(rel: Seq<char>, typ: Seq<char>, readaloud: bool)
    requires
        forall|front: Seq<char>, back: Seq<char>|
            typ != #[trigger] (front + "application/atom+xml"@ + back),
    ensures
        opds::proxy_path(rel, typ, readaloud) == "/download"@ <==> readaloud && opds::offers_book(
            rel,
        ),
        opds::proxy_path(rel, typ, readaloud) == "/fetch"@ <==> !(readaloud && opds::offers_book(
            rel,
        )),
{
    if text::occurs_in(typ, "application/atom+xml"@) {
        let (front, back) = words::law_occurring_part_stands_somewhere(
            typ,
            "application/atom+xml"@,
        );
        assert(typ == front + "application/atom+xml"@ + back);
    }
    reveal_strlit("/download");
    reveal_strlit("/fetch");
    assert("/download"@.len() != "/fetch"@.len());
}

/// A link of the proxy is the address of its route, as the proxy's own address gives it, with the
/// whole upstream URL, form-encoded, in one pair of its query. It fails only where that address does.
pub proof fn law_proxy_link(base: Seq<char>, path: Seq<char>, upstream: Seq<char>)
    ensures
        opds::proxy_link(base, path, upstream) is Ok <==> web_url::joined_url(base, path) is Ok,
        web_url::joined_url(base, path) matches Ok(own) ==> opds::proxy_link(base, path, upstream)
            == Ok::<Seq<char>, ProxyError>(
            own.text + "?u="@ + web_url::form_bytes(encode_utf8(upstream)),
        ),
        web_url::joined_url(base, path) matches Err(x) ==> opds::proxy_link(base, path, upstream)
            == Err::<Seq<char>, ProxyError>(ProxyError::Url(x)),
{
    reveal_strlit("?u=");
    reveal_strlit("u");
    reveal_strlit("?");
    reveal_strlit("=");
    is_ascii_chars_encode_utf8("u"@);
    assert(encode_utf8("u"@) =~= seq![0x75u8]);
    reveal_with_fuel(web_url::form_bytes, 2);
    assert(seq![0x75u8].skip(1) =~= Seq::empty());
    assert(web_url::form_bytes(seq![0x75u8]) =~= "u"@);
    if let Ok(own) = web_url::joined_url(base, path) {
        let value = web_url::form_bytes(encode_utf8(upstream));
        assert(own.text + web_url::query_of("u"@, upstream) =~= own.text + "?u="@ + value);
    }
}

/// Bytes are form-encoded one by one, however many they are.
pub proof fn law_form_encoding(a: Seq<u8>, b: Seq<u8>, c: u8)
    ensures
        web_url::form_bytes(a + b) == web_url::form_bytes(a) + web_url::form_bytes(b),
        web_url::form_bytes(seq![0x20u8]) == seq!['+'],
        (0x30 <= c <= 0x39 || 0x41 <= c <= 0x5a || 0x61 <= c <= 0x7a || c == 0x2a || c == 0x2d || c
            == 0x2e || c == 0x5f) ==> web_url::form_bytes(seq![c]) == seq![c as char],
    decreases a.len(),
{
    reveal_with_fuel(web_url::form_bytes, 2);
    assert(seq![0x20u8].skip(1) =~= Seq::empty());
    assert(seq![c].skip(1) =~= Seq::empty());
    assert(web_url::form_bytes(seq![0x20u8]) =~= web_url::form_byte(0x20));
    assert(web_url::form_bytes(seq![c]) =~= web_url::form_byte(c));
    if a.len() == 0 {
        assert(a + b =~= b);
        assert(web_url::form_bytes(a) + web_url::form_bytes(b) =~= web_url::form_bytes(b));
    } else {
        assert((a + b).skip(1) =~= a.skip(1) + b);
        law_form_encoding(a.skip(1), b, c);
        assert(web_url::form_bytes(a + b) =~= web_url::form_bytes(a) + web_url::form_bytes(b));
    }
}

/// Every other byte is written as a percent sign and the two hexadecimal digits that give it back.
pub proof fn law_percent_encoding(c: u8)
    requires
        !(0x30 <= c <= 0x39 || 0x41 <= c <= 0x5a || 0x61 <= c <= 0x7a || c == 0x2a || c == 0x2d || c
            == 0x2e || c == 0x5f || c == 0x20),
    ensures
        web_url::form_bytes(seq![c]).len() == 3,
        web_url::form_bytes(seq![c])[0] == '%',
        capital_digit(web_url::form_bytes(seq![c])[1]) == Some(c as int / 16),
        capital_digit(web_url::form_bytes(seq![c])[2]) == Some(c as int % 16),
{
    reveal_with_fuel(web_url::form_bytes, 2);
    assert(seq![c].skip(1) =~= Seq::empty());
    assert(web_url::form_bytes(seq![c]) =~= web_url::form_byte(c));
}

/// The number that a hexadecimal digit stands for, its letters being capital ones.
pub open spec fn capital_digit(c: char) -> Option<int> {
    let n = c as int;
    if 48 <= n <= 57 {
        Some(n - 48)
    } else if 65 <= n <= 70 {
        Some(n - 55)
    } else {
        None
    }
}

/// Where a link is given another target, each `href` of it has that target, escaped, and each other
/// attribute stays as it is, all at their places.
pub proof fn law_redirected(attributes: Seq<(Seq<u8>, Seq<u8>)>, target: Seq<char>, i: int)
    requires
        0 <= i < attributes.len(),
    ensures
        opds::redirected(attributes, target).len() == attributes.len(),
        opds::redirected(attributes, target)[i].0 == attributes[i].0,
        attributes[i].0 == encode_utf8("href"@) ==> opds::redirected(attributes, target)[i].1
            == encode_utf8(xml::escaped(target)),
        attributes[i].0 != encode_utf8("href"@) ==> opds::redirected(attributes, target)[i].1
            == attributes[i].1,
{
}

/// A link keeps its kind, its name and its number of attributes, and is written as they are.
pub proof fn law_link_keeps_its_form(e: EventView, feed: Seq<char>, base: Seq<char>)
    ensures
        xml::attribute_text(e, "href"@) is None ==> opds::link_event(e, feed, base) == Ok::<
            EventView,
            ProxyError,
        >(e),
        opds::link_event(e, feed, base) matches Ok(w) ==> {
            &&& w.kind == e.kind
            &&& w.name == e.name
            &&& w.attributes.len() == e.attributes.len()
            &&& xml::attribute_text(e, "href"@) is Some ==> w.markup == xml::tag_markup(
                w.name,
                w.attributes,
                w.kind,
            )
            &&& opds::link_markup(e, feed, base) == Ok::<Seq<u8>, ProxyError>(w.markup)
        },
        opds::link_event(e, feed, base) matches Err(x) ==> opds::link_markup(e, feed, base) == Err::<
            Seq<u8>,
            ProxyError,
        >(x),
{
}

/// A link with a target gets the proxy's link to what its target names, on its route, in each of its
/// `href` attributes, and keeps its other attributes.
pub proof fn law_link_gets_the_proxy_target(
    e: EventView,
    feed: Seq<char>,
    base: Seq<char>,
    href: Seq<char>,
    u: UrlView,
    target: Seq<char>,
    i: int,
)
    requires
        xml::attribute_text(e, "href"@) == Some(href),
        web_url::joined_url(feed, href) == Ok::<UrlView, url::ParseError>(u),
        opds::proxy_link(
            base,
            opds::proxy_path(
                xml::attribute_or_empty(e, "rel"@),
                xml::attribute_or_empty(e, "type"@),
                opds::asks_for_readaloud(u),
            ),
            u.text,
        ) == Ok::<Seq<char>, ProxyError>(target),
        0 <= i < e.attributes.len(),
    ensures
        opds::link_event(e, feed, base) matches Ok(w) && w.attributes.len() == e.attributes.len()
            && w.attributes[i].0 == e.attributes[i].0 && w.attributes[i].1 == (
        if e.attributes[i].0 == encode_utf8("href"@) {
            encode_utf8(xml::escaped(target))
        } else {
            e.attributes[i].1
        }),
{
    law_redirected(e.attributes, target, i);
}

/// A link fails where its target names no URL, with that error, and where the proxy has no link for
/// it, with that one; it fails nowhere else.
pub proof fn law_link_fails_with_its_target(e: EventView, feed: Seq<char>, base: Seq<char>)
    ensures
        opds::link_event(e, feed, base) matches Err(x) ==> {
            &&& xml::attribute_text(e, "href"@) matches Some(href)
            &&& match web_url::joined_url(feed, href) {
                Err(y) => x == ProxyError::Url(y),
                Ok(u) => opds::proxy_link(
                    base,
                    opds::proxy_path(
                        xml::attribute_or_empty(e, "rel"@),
                        xml::attribute_or_empty(e, "type"@),
                        opds::asks_for_readaloud(u),
                    ),
                    u.text,
                ) == Err::<Seq<char>, ProxyError>(x),
            }
        },
        (xml::attribute_text(e, "href"@) matches Some(href) && web_url::joined_url(feed, href) is Err)
            ==> opds::link_event(e, feed, base) is Err,
{
}

/// What is written before a piece comes before it whole, and an error stays that error.
pub proof fn law_pieces(front: Seq<u8>, bytes: Seq<u8>, x: ProxyError, e: quick_xml::Error)
    ensures
        rewriting::prefixed(front, Ok(bytes)) == Ok::<Seq<u8>, ProxyError>(front + bytes),
        rewriting::prefixed(front, Err(x)) == Err::<Seq<u8>, ProxyError>(x),
        rewriting::at_end(Some(e)) == Err::<Seq<u8>, ProxyError>(ProxyError::Xml(e)),
        rewriting::at_end(None) == Ok::<Seq<u8>, ProxyError>(Seq::empty()),
{
}

/// By itself, a link that stays is its new markup, one that is left out is nothing, and any other
/// event, opening of an entry excepted in a catalog, is its markup, byte for byte. At the end comes
/// nothing, or the error that ended the reading.
pub proof fn law_single_events(
    e: EventView,
    failure: Option<quick_xml::Error>,
    feed: Seq<char>,
    base: Seq<char>,
)
    ensures
        !opds::is_link_tag(e) ==> opds::links_rewritten(seq![e], None, feed, base) == Ok::<
            Seq<u8>,
            ProxyError,
        >(e.markup),
        !opds::is_link_tag(e) && !opds::opens_entry(e) ==> opds::catalog_rewritten(
            seq![e],
            None,
            feed,
            base,
        ) == Ok::<Seq<u8>, ProxyError>(e.markup),
        opds::is_link_tag(e) && !opds::leaves_out_link(e, feed) ==> opds::links_rewritten(
            seq![e],
            None,
            feed,
            base,
        ) == opds::link_markup(e, feed, base) && opds::catalog_rewritten(seq![e], None, feed, base)
            == opds::link_markup(e, feed, base),
        opds::is_link_tag(e) && opds::leaves_out_link(e, feed) ==> opds::links_rewritten(
            seq![e],
            None,
            feed,
            base,
        ) == Ok::<Seq<u8>, ProxyError>(Seq::empty()) && opds::catalog_rewritten(
            seq![e],
            None,
            feed,
            base,
        ) == Ok::<Seq<u8>, ProxyError>(Seq::empty()),
        opds::links_rewritten(Seq::empty(), failure, feed, base) == rewriting::at_end(failure),
        opds::catalog_rewritten(Seq::empty(), failure, feed, base) == rewriting::at_end(failure),
{
    law_links_and_entries(e);
    let events = seq![e];
    assert(events.skip(1) =~= Seq::empty());
    let none = Seq::<EventView>::empty();
    assert(opds::links_rewritten(none, None, feed, base) == Ok::<Seq<u8>, ProxyError>(Seq::empty()));
    assert(opds::catalog_rewritten(none, None, feed, base) == Ok::<Seq<u8>, ProxyError>(
        Seq::empty(),
    ));
    assert(xml::span(none, e.name, 1) is None);
    assert(e.markup + Seq::<u8>::empty() =~= e.markup);
    if let Ok(bytes) = opds::link_markup(e, feed, base) {
        assert(bytes + Seq::<u8>::empty() =~= bytes);
    }
    reveal_with_fuel(opds::links_rewritten, 2);
    reveal_with_fuel(opds::catalog_rewritten, 2);
}

/// An element that is not closed ends with the document: a link that is left out gives nothing, an
/// entry is rewritten as far as it goes, and an error that ended the reading is that of the whole.
pub proof fn law_unclosed_element(
    events: Seq<EventView>,
    failure: Option<quick_xml::Error>,
    feed: Seq<char>,
    base: Seq<char>,
)
    requires
        events.len() > 0,
        events[0].kind == EventKind::Start,
        xml::span(events.skip(1), events[0].name, 1) is None,
    ensures
        opds::is_book_link(events[0]) && !opds::leads_to_readaloud(events[0], feed) ==> {
            &&& opds::links_rewritten(events, failure, feed, base) == rewriting::at_end(failure)
            &&& opds::catalog_rewritten(events, failure, feed, base) == rewriting::at_end(failure)
        },
        opds::opens_entry(events[0]) ==> opds::catalog_rewritten(events, failure, feed, base) == (
        match failure {
            Some(x) => Err(ProxyError::Xml(x)),
            None => opds::entry_rewritten(xml::markup_of(events), feed, base),
        }),
{
    law_links_and_entries(events[0]);
}

/// An event offers a book whose address is none, with the error `x`.
pub open spec fn leads_nowhere(e: EventView, feed: Seq<char>, x: url::ParseError) -> bool {
    &&& opds::is_link_tag(e)
    &&& opds::offers_book(xml::attribute_or_empty(e, "rel"@))
    &&& xml::attribute_text(e, "href"@) matches Some(href)
    &&& web_url::joined_url(feed, href) == Err::<UrlView, url::ParseError>(x)
}

/// The first book link of an entry that leads nowhere decides on the entry, wherever it stands and
/// whatever follows.
pub proof fn law_entry_fails_with_its_first_bad_link(
    doc: DocumentView,
    feed: Seq<char>,
    i: int,
    x: url::ParseError,
)
    requires
        0 <= i < doc.events.len(),
        leads_nowhere(doc.events[i], feed, x),
        forall|j: int, y: url::ParseError|
            0 <= j < i ==> !(#[trigger] leads_nowhere(doc.events[j], feed, y)),
    ensures
        opds::entry_stays(doc, feed) == Err::<bool, ProxyError>(ProxyError::Url(x)),
{
    lemma_first_bad_link(doc.events, doc.failure, feed, i, x);
}

/// The first book link that leads nowhere, among events.
proof fn lemma_first_bad_link(
    events: Seq<EventView>,
    failure: Option<quick_xml::Error>,
    feed: Seq<char>,
    i: int,
    x: url::ParseError,
)
    requires
        0 <= i < events.len(),
        leads_nowhere(events[i], feed, x),
        forall|j: int, y: url::ParseError|
            0 <= j < i ==> !(#[trigger] leads_nowhere(events[j], feed, y)),
    ensures
        opds::entry_failure(events, failure, feed) == Some(ProxyError::Url(x)),
    decreases i,
{
    if i > 0 {
        if let Some(y) = opds::book_link_failure(events[0], feed) {
            assert(leads_nowhere(events[0], feed, y));
        }
        let rest = events.skip(1);
        assert(rest[i - 1] == events[i]);
        assert forall|j: int, y: url::ParseError| 0 <= j < i - 1 implies !(#[trigger] leads_nowhere(
            rest[j],
            feed,
            y,
        )) by {
            assert(rest[j] == events[j + 1]);
            assert(!leads_nowhere(events[j + 1], feed, y));
        }
        lemma_first_bad_link(rest, failure, feed, i - 1, x);
    }
}

/// An entry without such a link fails only if it could not be read to its end. Else it stays if none
/// of its links offers a book, and if one of them, whichever, offers a readaloud book; only then.
pub proof fn law_entry_stays(doc: DocumentView, feed: Seq<char>)
    requires
        forall|j: int, y: url::ParseError|
            0 <= j < doc.events.len() ==> !(#[trigger] leads_nowhere(doc.events[j], feed, y)),
    ensures
        doc.failure matches Some(e) ==> opds::entry_stays(doc, feed) == Err::<bool, ProxyError>(
            ProxyError::Xml(e),
        ),
        doc.failure is None ==> (opds::entry_stays(doc, feed) matches Ok(stays) && (stays <==> (
        forall|j: int| 0 <= j < doc.events.len() ==> !opds::is_book_link(#[trigger] doc.events[j]))
            || (exists|j: int|
            0 <= j < doc.events.len() && opds::is_book_link(#[trigger] doc.events[j])
                && opds::leads_to_readaloud(doc.events[j], feed)))),
{
    lemma_no_bad_link(doc.events, doc.failure, feed);
}

/// Events without a book link that leads nowhere.
proof fn lemma_no_bad_link(
    events: Seq<EventView>,
    failure: Option<quick_xml::Error>,
    feed: Seq<char>,
)
    requires
        forall|j: int, y: url::ParseError|
            0 <= j < events.len() ==> !(#[trigger] leads_nowhere(events[j], feed, y)),
    ensures
        opds::entry_failure(events, failure, feed) == (match failure {
            Some(e) => Some(ProxyError::Xml(e)),
            None => None,
        }),
    decreases events.len(),
{
    if events.len() > 0 {
        if let Some(y) = opds::book_link_failure(events[0], feed) {
            assert(leads_nowhere(events[0], feed, y));
        }
        let rest = events.skip(1);
        assert forall|j: int, y: url::ParseError| 0 <= j < rest.len() implies !(
        #[trigger] leads_nowhere(rest[j], feed, y)) by {
            assert(rest[j] == events[j + 1]);
            assert(!leads_nowhere(events[j + 1], feed, y));
        }
        lemma_no_bad_link(rest, failure, feed);
    }
}

/// An entry that stays comes out with its links rewritten, one that does not comes out as nothing,
/// and one that fails fails with its error.
pub proof fn law_entry_rewritten(entry: Seq<u8>, feed: Seq<char>, base: Seq<char>)
    ensures
        ({
            let doc = xml::document(entry);
            match opds::entry_stays(doc, feed) {
                Ok(true) => opds::entry_rewritten(entry, feed, base) == opds::links_rewritten(
                    doc.events,
                    doc.failure,
                    feed,
                    base,
                ),
                Ok(false) => opds::entry_rewritten(entry, feed, base) == Ok::<Seq<u8>, ProxyError>(
                    Seq::empty(),
                ),
                Err(x) => opds::entry_rewritten(entry, feed, base) == Err::<Seq<u8>, ProxyError>(x),
            }
        }),
{
}

/// A closed entry in a catalog is rewritten by itself, from its own markup; what follows it comes
/// behind it.
pub proof fn law_entry_in_its_catalog(
    entry: Seq<EventView>,
    back: Seq<EventView>,
    failure: Option<quick_xml::Error>,
    feed: Seq<char>,
    base: Seq<char>,
)
    requires
        entry.len() > 0,
        opds::opens_entry(entry[0]),
        xml::span(entry.skip(1), entry[0].name, 1) == Some((entry.len() - 1) as nat),
    ensures
        opds::catalog_rewritten(entry + back, failure, feed, base) == (match opds::entry_rewritten(
            xml::markup_of(entry),
            feed,
            base,
        ) {
            Ok(bytes) => rewriting::prefixed(
                bytes,
                opds::catalog_rewritten(back, failure, feed, base),
            ),
            Err(x) => Err(x),
        }),
{
    let events = entry + back;
    let n = (entry.len() - 1) as nat;
    assert(events[0] == entry[0]);
    assert(events.skip(1) =~= entry.skip(1) + back);
    xml::lemma_span_extends(entry.skip(1), back, entry[0].name, 1);
    assert(events.take((n + 1) as int) =~= entry);
    assert(events.skip(1).skip(n as int) =~= back);
}

/// A feed is rewritten only if both its address and the proxy's are URLs. If the feed's is none, that
/// is the error; else, if the proxy's is none, that is.
pub proof fn law_feed_needs_its_addresses(doc: DocumentView, feed: Seq<char>, base: Seq<char>)
    ensures
        web_url::parsed_url(feed) matches Err(x) ==> opds::feed_rewritten(doc, feed, base) == Err::<
            Seq<u8>,
            ProxyError,
        >(ProxyError::Url(x)),
        web_url::parsed_url(feed) is Ok ==> (web_url::parsed_url(base) matches Err(x)
            ==> opds::feed_rewritten(doc, feed, base) == Err::<Seq<u8>, ProxyError>(
            ProxyError::Url(x),
        )),
        web_url::parsed_url(feed) is Ok && web_url::parsed_url(base) is Ok ==> opds::feed_rewritten(
            doc,
            feed,
            base,
        ) == opds::catalog_rewritten(doc.events, doc.failure, feed, base),
{
}

/// A query fits behind an address unless the whole of it takes four gigabytes or more.
pub proof fn law_takes_query(base: Seq<char>, path: Seq<char>)
    ensures
        web_url::takes_query(base, path) <==> match web_url::joined_url(base, path) {
            Ok(own) => encode_utf8(own.text).len() < 4294967296,
            Err(_) => true,
        },
        opds::links_fit(base) <==> web_url::takes_query(base, "/opds"@) && web_url::takes_query(
            base,
            "/download"@,
        ) && web_url::takes_query(base, "/fetch"@),
{
}

} // verus!
