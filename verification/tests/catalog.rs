use storyteller_opds_proxy::error::ProxyError;
use storyteller_opds_proxy::opds::{
    can_hold_links, href_has_readaloud_format, is_acquisition, is_entry, is_link, is_readaloud, proxied_url,
    rewrite, rewrite_document, rewrite_link, rewrite_links, routed_url, should_drop_link,
    should_keep_document, should_keep_entry,
};
use storyteller_opds_proxy::web_url::{can_take_query, WebUrl};
use storyteller_opds_proxy::xml::{
    attr_value, collect_element, read_document, skip_element, Document, EventKind, XmlEvent,
};

const FEED: &str = "http://upstream:8001/opds/feed";
const BASE: &str = "http://proxy:8088";

fn rewritten(input: &str) -> String {
    String::from_utf8(rewrite(input.as_bytes(), FEED, BASE).unwrap()).unwrap()
}

fn links_rewritten(input: &str) -> String {
    String::from_utf8(rewrite_links(input.as_bytes(), FEED, BASE).unwrap()).unwrap()
}

fn first_tag(input: &str) -> XmlEvent {
    let mut doc = read_document(input.as_bytes());
    doc.events.remove(0)
}

#[test]
fn a_catalog_shows_readaloud_books_only() {
    let input = concat(&[
        "<?xml version=\"1.0\"?><feed xmlns=\"http://www.w3.org/2005/Atom\"><title>Books</title>",
        "<link rel=\"self\" type=\"application/atom+xml\" href=\"/opds/all\"/>",
        "<entry><title>A</title>",
        "<link rel=\"http://opds-spec.org/acquisition\" type=\"application/epub+zip\" ",
        "href=\"/b/1?format=readaloud\"/>",
        "<link rel=\"http://opds-spec.org/acquisition\" type=\"application/epub+zip\" ",
        "href=\"/b/1?format=ebook\"/></entry>",
        "<entry><title>B</title>",
        "<link rel=\"http://opds-spec.org/acquisition\" href=\"/b/2?format=ebook\"/></entry>",
        "</feed>",
    ]);
    let expected = concat(&[
        "<?xml version=\"1.0\"?><feed xmlns=\"http://www.w3.org/2005/Atom\"><title>Books</title>",
        "<link rel=\"self\" type=\"application/atom+xml\" ",
        "href=\"http://proxy:8088/opds?u=http%3A%2F%2Fupstream%3A8001%2Fopds%2Fall\"/>",
        "<entry><title>A</title>",
        "<link rel=\"http://opds-spec.org/acquisition\" type=\"application/epub+zip\" ",
        "href=\"http://proxy:8088/download?",
        "u=http%3A%2F%2Fupstream%3A8001%2Fb%2F1%3Fformat%3Dreadaloud\"/></entry>",
        "</feed>",
    ]);
    assert_eq!(rewritten(&input), expected);
}

fn concat(parts: &[&str]) -> String {
    parts.concat()
}

#[test]
fn an_entry_without_books_stays() {
    let input = "<feed><entry><link rel=\"subsection\" href=\"series\"/></entry></feed>";
    assert_eq!(
        rewritten(input),
        concat(&[
            "<feed><entry><link rel=\"subsection\" ",
            "href=\"http://proxy:8088/fetch?u=http%3A%2F%2Fupstream%3A8001%2Fopds%2Fseries\"/>",
            "</entry></feed>",
        ])
    );
}

#[test]
fn an_entry_that_offers_only_other_formats_is_left_out() {
    let input = "<feed><a/><entry><x:link xmlns:x=\"y\" rel=\"acquisition\" href=\"b?format=text\"></x:link></entry><b/></feed>";
    assert_eq!(rewritten(input), "<feed><a/><b/></feed>");
}

#[test]
fn a_nested_entry_belongs_to_the_outer_one() {
    let input = "<feed><entry><entry><link rel=\"acquisition\" href=\"b?format=readaloud\"/></entry><link rel=\"acquisition\" href=\"b\"/></entry></feed>";
    assert_eq!(
        rewritten(input),
        concat(&[
            "<feed><entry><entry><link rel=\"acquisition\" href=\"http://proxy:8088/download?",
            "u=http%3A%2F%2Fupstream%3A8001%2Fopds%2Fb%3Fformat%3Dreadaloud\"/></entry></entry>",
            "</feed>",
        ])
    );
}

#[test]
fn a_dropped_link_takes_what_it_encloses_with_it() {
    let input = "<feed><link rel=\"acquisition\" href=\"b\">one<link>two</link>three</link>four</feed>";
    assert_eq!(rewritten(input), "<feed>four</feed>");
    assert_eq!(links_rewritten(input), "<feed>four</feed>");
}

#[test]
fn an_acquisition_link_without_target_is_dropped_and_other_ones_are_kept() {
    let input = "<feed><link rel=\"acquisition\"/><link rel=\"next\" title='x'/></feed>";
    assert_eq!(rewritten(input), "<feed><link rel=\"next\" title='x'/></feed>");
}

#[test]
fn other_markup_is_kept() {
    let input = "<feed><!-- c --><title type='text'>A &amp; B</title><![CDATA[<link/>]]>\n</feed>";
    assert_eq!(rewritten(input), input);
    assert_eq!(rewritten(""), "");
}

#[test]
fn rewriting_is_piecewise() {
    let one = "<link rel=\"next\" href=\"a\"/>";
    let two = "<entry><link rel=\"acquisition\" href=\"b?format=readaloud\"/></entry>";
    let both = concat(&[one, two]);
    assert_eq!(rewritten(&both), concat(&[&rewritten(one), &rewritten(two)]));
}

#[test]
fn other_attributes_of_a_link_keep_their_values() {
    assert_eq!(
        rewritten("<link href=\"a\" title=\"&lt;b&gt; 'c' &amp; &nbsp;&#10;\" x='\"'/>"),
        concat(&[
            "<link href=\"http://proxy:8088/fetch?u=http%3A%2F%2Fupstream%3A8001%2Fopds%2Fa\" ",
            "title=\"&lt;b&gt; 'c' &amp; &nbsp;&#10;\" x='\"'/>",
        ])
    );
}

#[test]
fn targets_are_unescaped_before_they_are_joined() {
    assert_eq!(
        rewritten("<link href=\"/a?b=1&amp;c=&#x32;\"/>"),
        concat(&[
            "<link href=\"http://proxy:8088/fetch?",
            "u=http%3A%2F%2Fupstream%3A8001%2Fa%3Fb%3D1%26c%3D2\"/>",
        ])
    );
    assert_eq!(
        rewritten("<link href=\"/a?b=1&c=2\" rel=\"&unknown;\"/>"),
        concat(&[
            "<link href=\"http://proxy:8088/fetch?",
            "u=http%3A%2F%2Fupstream%3A8001%2Fa%3Fb%3D1%26c%3D2\" rel=\"&unknown;\"/>",
        ])
    );
}

#[test]
fn an_escaped_ampersand_hides_no_readaloud_book() {
    let entry = "<entry><link rel=\"acquisition\" href=\"/b?id=1&amp;format=readaloud\"/></entry>";
    assert!(should_keep_entry(entry.as_bytes(), "http://s/opds").unwrap());
    assert_eq!(
        rewritten(entry),
        concat(&[
            "<entry><link rel=\"acquisition\" href=\"http://proxy:8088/download?",
            "u=http%3A%2F%2Fupstream%3A8001%2Fb%3Fid%3D1%26format%3Dreadaloud\"/></entry>",
        ])
    );
}

#[test]
fn bytes_that_are_no_text_are_replaced_where_they_are_read() {
    let mut input = b"<link href=\"a\" title=\"".to_vec();
    input.push(0xff);
    input.extend_from_slice(b"\"/>");
    let doc = read_document(&input);
    assert_eq!(attr_value(&doc.events[0], "title"), Some("\u{fffd}".to_string()));
    let out = rewrite(&input, FEED, BASE).unwrap();
    assert!(out.ends_with(b" title=\"\xff\"/>"));
}

#[test]
fn urls_that_are_none_are_refused() {
    assert!(matches!(rewrite(b"<a/>", "no url", BASE), Err(ProxyError::Url(_))));
    assert!(matches!(rewrite(b"<a/>", FEED, "proxy"), Err(ProxyError::Url(_))));
    assert!(matches!(
        rewrite(b"<link rel=\"next\" href=\"http://[\"/>", FEED, BASE),
        Err(ProxyError::Url(_))
    ));
    assert!(matches!(
        rewrite(b"<entry><link rel=\"acquisition\" href=\"http://[\"/></entry>", FEED, BASE),
        Err(ProxyError::Url(_))
    ));
    assert_eq!(rewritten("<a><link rel=\"acquisition\" href=\"http://[\"/></a>"), "<a></a>");
}

#[test]
fn documents_that_are_not_well_formed_are_refused() {
    assert!(matches!(rewrite(b"<a></b>", FEED, BASE), Err(ProxyError::Xml(_))));
    assert!(matches!(rewrite(b"<entry><a></b>", FEED, BASE), Err(ProxyError::Xml(_))));
    assert!(matches!(rewrite_links(b"<a></b>", FEED, BASE), Err(ProxyError::Xml(_))));
    assert!(matches!(should_keep_entry(b"<a></b>", FEED), Err(ProxyError::Xml(_))));
}

#[test]
fn an_unclosed_entry_is_judged_by_what_there_is() {
    assert_eq!(
        rewritten("<a/><entry><link rel=\"acquisition\" href=\"b\"/><c/>"),
        "<a/>"
    );
    assert_eq!(rewritten("<a/><entry><b/>"), "<a/><entry><b/>");
}

#[test]
fn entries_stay_by_their_links() {
    assert!(should_keep_entry(b"<entry/>", FEED).unwrap());
    assert!(should_keep_entry(b"<link rel=\"acquisition\" href=\"?format=readaloud\"/>", FEED)
        .unwrap());
    assert!(!should_keep_entry(b"<link rel=\"acquisition\" href=\"?format=epub\"/>", FEED)
        .unwrap());
    assert!(!should_keep_entry(b"<link rel=\"acquisition\"/>", FEED).unwrap());
    let doc = Document { events: vec![], failure: None };
    assert!(should_keep_document(doc, FEED).unwrap());
}

#[test]
fn relations_that_offer_a_book() {
    assert!(is_acquisition("http://opds-spec.org/acquisition/open-access"));
    assert!(is_acquisition("acquisition"));
    assert!(!is_acquisition("Acquisition"));
    assert!(!is_acquisition("acquisitio"));
    assert!(!is_acquisition(""));
}

#[test]
fn local_names_of_links_and_entries() {
    assert!(is_link(&first_tag("<link/>")));
    assert!(is_link(&first_tag("<atom:link>")));
    assert!(!is_link(&first_tag("<a:b:link/>")));
    assert!(!is_link(&first_tag("<links/>")));
    assert!(is_entry(&first_tag("<entry>")));
    assert!(is_entry(&first_tag("<atom:entry/>")));
    assert!(!is_entry(&first_tag("text")));
}

#[test]
fn readaloud_urls() {
    let url = WebUrl {
        text: "x".to_string(),
        path: "/".to_string(),
        pairs: vec![
            ("a".to_string(), "readaloud".to_string()),
            ("format".to_string(), "readaloud".to_string()),
        ],
    };
    assert!(is_readaloud(&url));
    let other = WebUrl {
        text: "x".to_string(),
        path: "/".to_string(),
        pairs: vec![("format".to_string(), "Readaloud".to_string())],
    };
    assert!(!is_readaloud(&other));
    assert!(href_has_readaloud_format(FEED, "b?x=1&format=read%61loud").unwrap());
    assert!(!href_has_readaloud_format(FEED, "b?x=1&format=readaloudx").unwrap());
    assert!(matches!(
        href_has_readaloud_format("nowhere", "b"),
        Err(ProxyError::Url(_))
    ));
}

#[test]
fn links_that_are_dropped() {
    assert!(should_drop_link(&first_tag("<link rel=\"acquisition\" href=\"b\"/>"), FEED));
    assert!(should_drop_link(&first_tag("<link rel=\"acquisition\"/>"), FEED));
    assert!(!should_drop_link(
        &first_tag("<link rel=\"acquisition\" href=\"b?format=readaloud\"/>"),
        FEED
    ));
    assert!(!should_drop_link(&first_tag("<link rel=\"next\" href=\"b\"/>"), FEED));
}

#[test]
fn proxy_links() {
    let url = proxied_url(BASE, "/opds", "http://a b/\u{e9}?x=*-._~&y").unwrap();
    assert_eq!(
        url.text,
        "http://proxy:8088/opds?u=http%3A%2F%2Fa+b%2F%C3%A9%3Fx%3D*-._%7E%26y"
    );
    assert_eq!(url.path, "/opds");
    assert_eq!(
        url.pairs,
        vec![("u".to_string(), "http://a b/\u{e9}?x=*-._~&y".to_string())]
    );
    let deep = proxied_url("https://host/sub/dir?q=1#f", "/fetch", "x").unwrap();
    assert_eq!(deep.text, "https://host/fetch?u=x");
    assert!(matches!(proxied_url("mailto:a", "/fetch", "x"), Err(ProxyError::Url(_))));
}

#[test]
fn routes_of_links() {
    assert_eq!(
        routed_url("x", "acquisition", "application/atom+xml;kind=a", true, FEED, BASE).unwrap(),
        "http://proxy:8088/opds?u=http%3A%2F%2Fupstream%3A8001%2Fopds%2Fx"
    );
    assert_eq!(
        routed_url("x", "acquisition", "application/epub+zip", true, FEED, BASE).unwrap(),
        "http://proxy:8088/download?u=http%3A%2F%2Fupstream%3A8001%2Fopds%2Fx"
    );
    assert_eq!(
        routed_url("//cdn/x", "cover", "image/png", true, FEED, BASE).unwrap(),
        "http://proxy:8088/fetch?u=http%3A%2F%2Fcdn%2Fx"
    );
    assert_eq!(
        routed_url("", "acquisition", "", false, FEED, BASE).unwrap(),
        "http://proxy:8088/fetch?u=http%3A%2F%2Fupstream%3A8001%2Fopds%2Ffeed"
    );
}

#[test]
fn a_link_keeps_its_name_and_other_attributes() {
    let e = first_tag("<atom:link title=\"t\" href=\"x\" rel=\"next\">");
    let out = rewrite_link(&e, FEED, BASE).unwrap();
    assert_eq!(
        String::from_utf8(out).unwrap(),
        concat(&[
            "<atom:link title=\"t\" ",
            "href=\"http://proxy:8088/fetch?u=http%3A%2F%2Fupstream%3A8001%2Fopds%2Fx\" ",
            "rel=\"next\">",
        ])
    );
    let bare = first_tag("<link  rel='next' />");
    assert_eq!(rewrite_link(&bare, FEED, BASE).unwrap(), b"<link  rel='next' />".to_vec());
}

#[test]
fn events_of_a_document() {
    let doc = read_document(b"<a x='1' y=\"2\">t<b/></a>");
    let kinds: Vec<EventKind> = doc.events.iter().map(|e| e.kind).collect();
    assert_eq!(
        kinds,
        vec![EventKind::Start, EventKind::Other, EventKind::Empty, EventKind::End]
    );
    assert_eq!(doc.events[0].name, b"a".to_vec());
    assert_eq!(doc.events[3].name, b"a".to_vec());
    assert_eq!(doc.events[1].markup, b"t".to_vec());
    assert_eq!(doc.events[2].markup, b"<b/>".to_vec());
    assert!(doc.failure.is_none());
    assert_eq!(attr_value(&doc.events[0], "y"), Some("2".to_string()));
    assert_eq!(attr_value(&doc.events[0], "z"), None);
}

#[test]
fn elements_are_found_with_their_nesting() {
    let doc = read_document(b"<a><b><a></a></b></a><c/>");
    assert_eq!(skip_element(&doc.events, 1, &b"a".to_vec()), Some(6));
    assert_eq!(skip_element(&doc.events, 3, &b"a".to_vec()), Some(4));
    assert_eq!(skip_element(&doc.events, 1, &b"d".to_vec()), None);
    let (markup, end) = collect_element(&doc.events, 1);
    assert_eq!(markup, b"<b><a></a></b>".to_vec());
    assert_eq!(end, Some(5));
    let (all, open) = collect_element(&doc.events, 6);
    assert_eq!(all, b"<c/>".to_vec());
    assert_eq!(open, None);
}

#[test]
fn a_document_can_be_given_event_by_event() {
    let text = XmlEvent {
        kind: EventKind::Other,
        name: b"hello".to_vec(),
        attributes: vec![],
        markup: b"hello".to_vec(),
    };
    let link = XmlEvent {
        kind: EventKind::Empty,
        name: b"link".to_vec(),
        attributes: vec![(b"rel".to_vec(), b"acquisition".to_vec())],
        markup: b"<link rel=\"acquisition\"/>".to_vec(),
    };
    let doc = Document { events: vec![text, link], failure: None };
    assert_eq!(rewrite_document(doc, FEED, BASE).unwrap(), b"hello".to_vec());
}

#[test]
fn an_unwanted_entry_leaves_no_trace() {
    let front = "<feed><link rel=\"next\" href=\"a\"/>";
    let unwanted = "<entry><link rel=\"acquisition\" href=\"b\"/></entry>";
    let back = "<entry><link rel=\"acquisition\" href=\"c?format=readaloud\"/></entry></feed>";
    assert_eq!(
        rewritten(&concat(&[front, unwanted, back])),
        rewritten(&concat(&[front, back]))
    );
}

#[test]
fn an_unwanted_link_leaves_no_trace() {
    let front = "<entry><link rel=\"next\" href=\"a\"/>";
    let link = "<link rel=\"acquisition\" href=\"b?format=ebook\">x</link>";
    let back = "<link rel=\"acquisition\" href=\"b?format=readaloud\"/></entry>";
    let with = concat(&[front, link, back]);
    let without = concat(&[front, back]);
    assert_eq!(links_rewritten(&with), links_rewritten(&without));
    assert_eq!(rewritten(&with), rewritten(&without));
    let outside = concat(&["<feed>", link, "</feed>"]);
    assert_eq!(rewritten(&outside), "<feed></feed>");
}

#[test]
fn a_wanted_entry_stays_in_its_place() {
    let entry = "<entry><link rel=\"acquisition\" href=\"c?format=readaloud\"/><d/></entry>";
    let whole = concat(&["<a/>", entry, "<b/>"]);
    assert_eq!(rewritten(&whole), concat(&["<a/>", &links_rewritten(entry), "<b/>"]));
}

#[test]
fn the_links_of_an_entry_are_rewritten_piecewise() {
    let one = "<link rel=\"acquisition\" href=\"b\"/><x/>";
    let two = "<link href=\"c\"/>";
    assert_eq!(
        links_rewritten(&concat(&[one, two])),
        concat(&[&links_rewritten(one), &links_rewritten(two)])
    );
}

#[test]
fn an_attribute_value_stays_in_its_quotes() {
    assert!(rewritten("<link href=\"a\" title='\"<>'/>").ends_with(" title='\"<>'/>"));
    let both = XmlEvent {
        kind: EventKind::Empty,
        name: b"link".to_vec(),
        attributes: vec![
            (b"href".to_vec(), b"a".to_vec()),
            (b"title".to_vec(), b"'\"'".to_vec()),
        ],
        markup: vec![],
    };
    let out = rewrite_link(&both, FEED, BASE).unwrap();
    assert!(out.ends_with(b" title=\"'&quot;'\"/>"));
}

#[test]
fn a_single_entry_comes_out_as_it_does_alone() {
    for entry in [
        "<entry><link rel=\"acquisition\" href=\"b?format=readaloud\"/>text<!-- c --></entry >",
        "<e:entry><link rel=\"acquisition\" href=\"b\"/><entry></entry></e:entry>",
        "<entry a='1'>&amp;</entry>",
    ] {
        let kept = should_keep_entry(entry.as_bytes(), FEED).unwrap();
        let expected = if kept { links_rewritten(entry) } else { String::new() };
        assert_eq!(rewritten(entry), expected);
    }
}

#[test]
fn two_documents_come_out_as_both_of_them() {
    let parts = [
        "<?xml version='1.0'?>\n<!DOCTYPE  feed [<!ENTITY a \">\">]><feed>x</feed >\ntext &amp; ",
        "<link rel=\"acquisition\" href=\"b\">gone</link>",
        "<entry><link rel=\"acquisition\" href=\"b?format=readaloud\"/></entry><![CDATA[<]]>",
        "<!-- > --><link href=\"a\"/>",
        "",
    ];
    for a in parts {
        for b in parts {
            assert_eq!(
                rewritten(&concat(&[a, b])),
                concat(&[&rewritten(a), &rewritten(b)])
            );
        }
    }
}

#[test]
fn markup_is_read_as_the_events_that_it_was_written_for() {
    let input = b"<a><b x='1' y>t &lt; <!DOCTYPE  q><?pi?><!--c--><![CDATA[d]]><e/></b ></a>";
    let doc = read_document(input);
    let (markup, _) = collect_element(&doc.events, 1);
    let again = read_document(&markup);
    assert!(again.failure.is_none());
    assert_eq!(again.events.len(), doc.events.len() - 2);
    for (one, other) in again.events.iter().zip(&doc.events[1..]) {
        assert_eq!(one.kind, other.kind);
        assert_eq!(one.name, other.name);
        assert_eq!(one.attributes, other.attributes);
        assert_eq!(one.markup, other.markup);
    }
}

#[test]
fn what_holds_no_links_comes_out_byte_for_byte() {
    let plain = "<?xml version=\"1.0\"?>\n<a x = '>' ><!-- d --><b/>&lt; \u{e9}<![CDATA[ ]] ]]></a>\n";
    assert_eq!(rewritten(plain), plain);
    assert_eq!(
        rewritten("\u{feff}<!doctype  a><a></a\n>"),
        "<!DOCTYPE a><a></a>"
    );
}

#[test]
fn the_target_of_a_rewritten_link_is_read_as_it_was_built() {
    let out = rewritten("<link rel='next' href='/x?a=1&amp;b=2'/>");
    let tag = first_tag(&out);
    let link = proxied_url(BASE, "/fetch", "http://upstream:8001/x?a=1&b=2").unwrap();
    assert_eq!(attr_value(&tag, "href"), Some(link.text));
    assert_eq!(attr_value(&tag, "rel"), Some("next".to_string()));
}

#[test]
fn each_link_of_a_catalog_may_be_shown() {
    let input = concat(&[
        "<feed><link rel=\"self\" href=\"s\"/><link rel=\"acquisition\" href=\"a\"/>",
        "<entry><link rel=\"acquisition\" href=\"b?format=readaloud\"/>",
        "<link rel=\"acquisition\" href=\"b\"/><link rel=\"cover\" href=\"c\"/></entry></feed>",
    ]);
    let out = read_document(rewritten(&input).as_bytes());
    let targets: Vec<String> = out
        .events
        .iter()
        .filter(|e| is_link(e))
        .map(|e| attr_value(e, "href").unwrap())
        .collect();
    assert_eq!(
        targets,
        vec![
            "http://proxy:8088/fetch?u=http%3A%2F%2Fupstream%3A8001%2Fopds%2Fs",
            "http://proxy:8088/download?u=http%3A%2F%2Fupstream%3A8001%2Fopds%2Fb%3Fformat%3Dreadaloud",
            "http://proxy:8088/fetch?u=http%3A%2F%2Fupstream%3A8001%2Fopds%2Fc",
        ]
    );
}

#[test]
fn links_fit_on_ordinary_bases() {
    assert!(can_hold_links(BASE));
    assert!(can_hold_links("nowhere"));
    assert!(can_take_query(BASE, "/fetch"));
}
