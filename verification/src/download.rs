//! EPUB books: which files of a readaloud book are left out for readers without audio, and what
//! the package document and the archive become without them.

use vstd::hash_set::StringHashSet;
use vstd::prelude::*;
use vstd::string::*;
use vstd::utf8::*;

use crate::error::{xml_err, ProxyError};
use crate::text;
use crate::text::{begins_ignoring_case, bytes_are, equal_ignoring_case, same_text};
use crate::xml;
use crate::xml::{
    attr_or_empty, attr_value, has_local_name, push_attribute, push_tag_end, read_document,
    skip_element, Document, EventKind, XmlEvent,
};
use crate::xml::{DocumentView, EventView};
use crate::zip_path;
use crate::zip_path::{
    extension_is, normalize_zip_path, resolve_decoded_href, resolve_opf_href,
};

verus! {

/// The event is an item of the manifest.
pub open spec fn is_item(e: EventView) -> bool {
    xml::is_tag_of(e, "item"@)
}

/// The path names an audio file.
pub open spec fn is_audio_name(path: Seq<char>) -> bool {
    ||| zip_path::has_extension(path, "mp3"@)
    ||| zip_path::has_extension(path, "m4a"@)
    ||| zip_path::has_extension(path, "aac"@)
    ||| zip_path::has_extension(path, "ogg"@)
    ||| zip_path::has_extension(path, "opus"@)
    ||| zip_path::has_extension(path, "wav"@)
    ||| zip_path::has_extension(path, "flac"@)
}

/// A file is audio or a media overlay, by its type or by its name.
pub open spec fn is_audio_or_overlay(href: Seq<char>, media_type: Seq<char>) -> bool {
    ||| text::starts_ignoring_case(media_type, "audio/"@)
    ||| text::same_ignoring_case(media_type, "application/smil+xml"@)
    ||| is_audio_name(href)
    ||| zip_path::has_extension(href, "smil"@)
}

/// The tag stands for a file that is audio or a media overlay.
pub open spec fn names_audio_or_overlay(e: EventView) -> bool {
    is_audio_or_overlay(
        xml::attribute_or_empty(e, "href"@),
        xml::attribute_or_empty(e, "media-type"@),
    )
}

/// The event is an item of the manifest that is left out.
pub open spec fn is_removed_item(e: EventView) -> bool {
    is_item(e) && names_audio_or_overlay(e)
}

/// The path in the archive of the file that an item stands for.
pub open spec fn item_path(opf_path: Seq<char>, e: EventView) -> Seq<char> {
    zip_path::resolved(opf_path, xml::attribute_or_empty(e, "href"@))
}

/// The path in the archive of the file that an item stands for, where it names the file in
/// percent-encoded form.
pub open spec fn decoded_item_path(opf_path: Seq<char>, e: EventView) -> Seq<char> {
    zip_path::resolved_decoded(opf_path, xml::attribute_or_empty(e, "href"@))
}

/// The item stands for the file at `path`.
pub open spec fn stands_for(e: EventView, opf_path: Seq<char>, path: Seq<char>) -> bool {
    path == item_path(opf_path, e) || path == decoded_item_path(opf_path, e)
}

/// The files that the removed items of a manifest stand for.
pub open spec fn removed_paths(events: Seq<EventView>, opf_path: Seq<char>) -> Set<Seq<char>> {
    Set::new(
        |path: Seq<char>|
            exists|i: int|
                0 <= i < events.len() && is_removed_item(#[trigger] events[i]) && stands_for(
                    events[i],
                    opf_path,
                    path,
                ),
    )
}

/// The key of the attribute that ties an item to a media overlay.
pub open spec fn overlay_key() -> Seq<u8> {
    encode_utf8("media-overlay"@)
}

/// The item is tied to a media overlay.
pub open spec fn has_overlay(e: EventView) -> bool {
    xml::find_attribute(e.attributes, overlay_key()) is Some
}

/// An item that stays: as it is, or, if it is tied to a media overlay, without that attribute.
pub open spec fn kept_item(e: EventView) -> EventView {
    if has_overlay(e) {
        xml::without_attribute(e, overlay_key())
    } else {
        e
    }
}

/// What stays of a package document: the items that are not removed, without their media overlay,
/// and all else as it was.
pub open spec fn kept_events(events: Seq<EventView>) -> Seq<EventView>
    decreases events.len(),
{
    if events.len() == 0 {
        Seq::empty()
    } else {
        let e = events[0];
        let rest = events.skip(1);
        if !is_item(e) {
            seq![e] + kept_events(rest)
        } else if !is_removed_item(e) {
            seq![kept_item(e)] + kept_events(rest)
        } else if e.kind == EventKind::Empty {
            kept_events(rest)
        } else {
            proof {
                xml::lemma_span_bound(rest, e.name, 1);
            }
            match xml::span(rest, e.name, 1) {
                Some(n) => kept_events(rest.skip(n as int)),
                None => Seq::empty(),
            }
        }
    }
}

/// A package document as it is written out: the markup of what stays of it, unless its reading
/// failed.
pub open spec fn package_rewritten(
    events: Seq<EventView>,
    failure: Option<quick_xml::Error>,
) -> Result<Seq<u8>, ProxyError> {
    match failure {
        Some(e) => Err(ProxyError::Xml(e)),
        None => Ok(xml::markup_of(kept_events(events))),
    }
}

/// `package_rewritten` of a whole document.
pub open spec fn document_rewritten(doc: DocumentView) -> Result<Seq<u8>, ProxyError> {
    package_rewritten(doc.events, doc.failure)
}

/// Whether a path names an audio file.
pub fn has_audio_extension(path: &str) -> (r: bool)
    ensures
        r == is_audio_name(path@),
{
    extension_is(path, "mp3") || extension_is(path, "m4a") || extension_is(path, "aac")
        || extension_is(path, "ogg") || extension_is(path, "opus") || extension_is(path, "wav")
        || extension_is(path, "flac")
}

/// Whether a file is audio or a media overlay, by its type or by its name.
pub fn should_remove_manifest_item(href: &str, media_type: &str) -> (r: bool)
    ensures
        r == is_audio_or_overlay(href@, media_type@),
{
    begins_ignoring_case(media_type, "audio/") || equal_ignoring_case(
        media_type,
        "application/smil+xml",
    ) || has_audio_extension(href) || extension_is(href, "smil")
}

/// Whether an event is an item of the manifest.
pub fn is_manifest_item(e: &XmlEvent) -> (r: bool)
    ensures
        r == is_item(e@),
{
    has_local_name(e, "item")
}

/// Whether a tag stands for a file that is audio or a media overlay.
pub fn should_remove_manifest_item_event(e: &XmlEvent) -> (r: bool)
    ensures
        r == names_audio_or_overlay(e@),
{
    let href: String = attr_or_empty(e, "href");
    let media_type: String = attr_or_empty(e, "media-type");
    should_remove_manifest_item(href.as_str(), media_type.as_str())
}

/// Writes out an item that stays: as it is, or, if it is tied to a media overlay, without that
/// attribute and with all others as they are.
pub fn strip_media_overlay_attr(e: &XmlEvent) -> (r: Vec<u8>)
    ensures
        r@ == kept_item(e@).markup,
{
    let mut out: Vec<u8> = Vec::new();
    if attr_value(e, "media-overlay").is_none() {
        out.extend_from_slice(e.markup.as_slice());
        assert(out@ =~= e@.markup);
        return out;
    }
    let ghost all = e@.attributes;
    out.push(0x3c);
    out.extend_from_slice(e.name.as_slice());
    let ghost front = out@;
    let mut i: usize = 0;
    proof {
        reveal(Seq::filter);
        assert(front =~= seq![0x3cu8] + e@.name);
        assert(all.take(0) =~= Seq::empty());
        assert(xml::attributes_without(all.take(0), overlay_key()) =~= Seq::empty());
        assert(out@ =~= front + xml::attributes_markup(
            xml::attributes_without(all.take(0), overlay_key()),
        ));
    }
    while i < e.attributes.len()
        invariant
            all == e@.attributes,
            i <= e.attributes.len(),
            out@ == front + xml::attributes_markup(
                xml::attributes_without(all.take(i as int), overlay_key()),
            ),
        decreases e.attributes.len() - i,
    {
        let ghost done = xml::attributes_without(all.take(i as int), overlay_key());
        proof {
            assert(all.take(i + 1) =~= all.take(i as int).push(all[i as int]));
            xml::lemma_attributes_without_push(
                all.take(i as int),
                all[i as int],
                overlay_key(),
            );
        }
        if !bytes_are(e.attributes[i].0.as_slice(), "media-overlay") {
            push_attribute(&mut out, e.attributes[i].0.as_slice(), e.attributes[i].1.as_slice());
            proof {
                assert(done.push(all[i as int]).drop_last() =~= done);
                assert(out@ =~= front + xml::attributes_markup(done.push(all[i as int])));
            }
        }
        i += 1;
    }
    proof {
        assert(all.take(i as int) =~= all);
    }
    push_tag_end(&mut out, e.kind);
    assert(out@ =~= xml::without_attribute(e@, overlay_key()).markup);
    out
}

/// Rewrites a package document: drops the items that stand for audio and media overlays and the
/// ties of the others to an overlay.
pub fn rewrite_opf_document(doc: Document) -> (r: Result<Vec<u8>, ProxyError>)
    ensures
        (match r {
            Ok(bytes) => document_rewritten(doc@) == Ok::<Seq<u8>, ProxyError>(bytes@),
            Err(x) => document_rewritten(doc@) == Err::<Seq<u8>, ProxyError>(x),
        }),
{
    let Document { events, failure } = doc;
    if let Some(x) = failure {
        return Err(xml_err(x));
    }
    let ghost all = xml::event_views(events@);
    let ghost whole = xml::markup_of(kept_events(all));
    let mut out: Vec<u8> = Vec::new();
    let mut i: usize = 0;
    proof {
        assert(all.skip(0) =~= all);
        assert(out@ + whole =~= whole);
    }
    while i < events.len()
        invariant
            all == xml::event_views(events@),
            i <= events.len(),
            whole == out@ + xml::markup_of(kept_events(all.skip(i as int))),
        decreases events.len() - i,
    {
        let e: &XmlEvent = &events[i];
        let ghost here = all.skip(i as int);
        let ghost before = out@;
        proof {
            assert(here[0] == e@);
            assert(here.skip(1) =~= all.skip(i + 1));
        }
        if !is_manifest_item(e) {
            out.extend_from_slice(e.markup.as_slice());
            proof {
                lemma_markup_of_front(e@, kept_events(here.skip(1)));
                assert(out@ =~= before + e@.markup);
                assert(whole =~= out@ + xml::markup_of(kept_events(all.skip(i + 1))));
            }
            i += 1;
        } else if !should_remove_manifest_item_event(e) {
            let bytes: Vec<u8> = strip_media_overlay_attr(e);
            out.extend_from_slice(bytes.as_slice());
            proof {
                lemma_markup_of_front(kept_item(e@), kept_events(here.skip(1)));
                assert(out@ =~= before + bytes@);
                assert(whole =~= out@ + xml::markup_of(kept_events(all.skip(i + 1))));
            }
            i += 1;
        } else if e.kind == EventKind::Empty {
            i += 1;
        } else {
            match skip_element(&events, i + 1, &e.name) {
                Some(end) => {
                    proof {
                        assert(here.skip(1).skip(end - (i + 1)) =~= all.skip(end as int));
                    }
                    i = end;
                },
                None => {
                    i = events.len();
                    assert(all.skip(i as int).len() == 0);
                },
            }
        }
    }
    proof {
        assert(all.skip(i as int).len() == 0);
        assert(out@ + xml::markup_of(kept_events(all.skip(i as int))) =~= out@);
    }
    Ok(out)
}

/// The markup of an event and more events behind it.
proof fn lemma_markup_of_front(e: EventView, rest: Seq<EventView>)
    ensures
        xml::markup_of(seq![e] + rest) == e.markup + xml::markup_of(rest),
{
    assert((seq![e] + rest)[0] == e);
    assert((seq![e] + rest).skip(1) =~= rest);
}

/// Rewrites a package document: drops the items that stand for audio and media overlays and the
/// ties of the others to an overlay. A package document without such items and ties comes out as
/// it went in.
pub fn rewrite_opf(opf: &[u8]) -> (r: Result<Vec<u8>, ProxyError>)
    ensures
        (match r {
            Ok(bytes) => document_rewritten(xml::document(opf@)) == Ok::<Seq<u8>, ProxyError>(
                bytes@,
            ),
            Err(x) => document_rewritten(xml::document(opf@)) == Err::<Seq<u8>, ProxyError>(x),
        }),
        xml::document(opf@).failure is None && has_nothing_to_rewrite(xml::document(opf@).events)
            ==> r is Ok && xml::is_same_text(opf@, r->Ok_0@),
{
    let doc: Document = read_document(opf);
    proof {
        if has_nothing_to_rewrite(doc@.events) {
            law_other_package_markup_is_kept(doc@.events);
        }
    }
    rewrite_opf_document(doc)
}

/// No item of the events is removed or tied to a media overlay.
pub open spec fn has_nothing_to_rewrite(events: Seq<EventView>) -> bool {
    forall|i: int|
        0 <= i < events.len() && is_item(#[trigger] events[i]) ==> !is_removed_item(events[i])
            && !has_overlay(events[i])
}

/// Collects the files that the removed items of a package document stand for.
pub fn removable_document_paths(doc: Document, opf_path: &str) -> (r: Result<
    StringHashSet,
    ProxyError,
>)
    ensures
        (match r {
            Ok(removed) => {
                &&& doc@.failure is None
                &&& removed@ == removed_paths(doc@.events, opf_path@)
            },
            Err(x) => doc@.failure matches Some(e) && x == ProxyError::Xml(e),
        }),
{
    let Document { events, failure } = doc;
    let ghost all = xml::event_views(events@);
    let mut removed: StringHashSet = StringHashSet::new();
    let mut i: usize = 0;
    proof {
        assert(removed@ =~= removed_paths(all.take(0), opf_path@));
    }
    while i < events.len()
        invariant
            all == xml::event_views(events@),
            i <= events.len(),
            removed@ == removed_paths(all.take(i as int), opf_path@),
        decreases events.len() - i,
    {
        let e: &XmlEvent = &events[i];
        let ghost before = removed@;
        proof {
            assert(all[i as int] == e@);
            lemma_removed_paths_push(all.take(i as int), e@, opf_path@);
            assert(all.take(i + 1) =~= all.take(i as int).push(e@));
        }
        if is_manifest_item(e) {
            let href: String = attr_or_empty(e, "href");
            let media_type: String = attr_or_empty(e, "media-type");
            if should_remove_manifest_item(href.as_str(), media_type.as_str()) {
                removed.insert(resolve_opf_href(opf_path, href.as_str()));
                removed.insert(resolve_decoded_href(opf_path, href.as_str()));
                assert(removed@ =~= before.insert(item_path(opf_path@, e@)).insert(
                    decoded_item_path(opf_path@, e@),
                ));
            }
        }
        i += 1;
    }
    proof {
        assert(all.take(i as int) =~= all);
    }
    match failure {
        Some(x) => Err(xml_err(x)),
        None => Ok(removed),
    }
}

/// One more event adds at most its own file to those that are removed.
proof fn lemma_removed_paths_push(events: Seq<EventView>, e: EventView, opf_path: Seq<char>)
    ensures
        removed_paths(events.push(e), opf_path) == (if is_removed_item(e) {
            removed_paths(events, opf_path).insert(item_path(opf_path, e)).insert(
                decoded_item_path(opf_path, e),
            )
        } else {
            removed_paths(events, opf_path)
        }),
{
    let more = events.push(e);
    let old_paths = removed_paths(events, opf_path);
    let new_paths = removed_paths(more, opf_path);
    assert forall|path: Seq<char>| new_paths.contains(path) implies old_paths.contains(path) || (
    is_removed_item(e) && stands_for(e, opf_path, path)) by {
        let i = choose|i: int|
            0 <= i < more.len() && is_removed_item(#[trigger] more[i]) && stands_for(
                more[i],
                opf_path,
                path,
            );
        if i < events.len() {
            assert(more[i] == events[i]);
        }
    }
    assert forall|path: Seq<char>| old_paths.contains(path) implies new_paths.contains(path) by {
        let i = choose|i: int|
            0 <= i < events.len() && is_removed_item(#[trigger] events[i]) && stands_for(
                events[i],
                opf_path,
                path,
            );
        assert(more[i] == events[i]);
    }
    assert(more[events.len() as int] == e);
    assert(new_paths =~= (if is_removed_item(e) {
        old_paths.insert(item_path(opf_path, e)).insert(decoded_item_path(opf_path, e))
    } else {
        old_paths
    }));
}

/// The items of a package document that stay and are tied to a media overlay have plain names, as
/// those of well-formed XML have.
pub open spec fn has_plain_items(events: Seq<EventView>) -> bool {
    forall|i: int|
        0 <= i < events.len() && is_item(#[trigger] events[i]) && !is_removed_item(events[i])
            && has_overlay(events[i]) ==> xml::has_plain_names(events[i])
}

/// Collects the files that the removed items of a package document stand for. A package document
/// that was rewritten lists none.
pub fn removable_manifest_paths(opf: &[u8], opf_path: &str) -> (r: Result<
    StringHashSet,
    ProxyError,
>)
    ensures
        (match r {
            Ok(removed) => {
                &&& xml::document(opf@).failure is None
                &&& removed@ == removed_paths(xml::document(opf@).events, opf_path@)
            },
            Err(x) => xml::document(opf@).failure matches Some(e) && x == ProxyError::Xml(e),
        }),
        forall|x: Seq<u8>|
            #[trigger] document_rewritten(xml::document(x)) == Ok::<Seq<u8>, ProxyError>(opf@)
                && has_plain_items(xml::document(x).events) ==> r is Ok && r->Ok_0@ == Set::<
                Seq<char>,
            >::empty(),
{
    let doc: Document = read_document(opf);
    proof {
        reveal(xml::reads_tags_back);
        assert forall|x: Seq<u8>|
            #[trigger] document_rewritten(xml::document(x)) == Ok::<Seq<u8>, ProxyError>(opf@)
                && has_plain_items(xml::document(x).events) implies doc@.failure is None
            && removed_paths(doc@.events, opf_path@) == Set::<Seq<char>>::empty() by {
            let events = xml::document(x).events;
            let kept = kept_events(events);
            lemma_kept_come_from(events);
            if xml::nesting(events, Seq::empty()) is Some {
                lemma_kept_are_nested(events, Seq::empty());
            }
            assert(xml::come_from(kept, events, overlay_key()));
            assert(xml::tags_of(doc@.events) == xml::tags_of(kept));
            assert forall|i: int| 0 <= i < doc@.events.len() implies !is_removed_item(
                #[trigger] doc@.events[i],
            ) by {
                let e = doc@.events[i];
                if is_removed_item(e) {
                    assert(doc@.events.contains(e));
                    xml::lemma_tags_of(doc@.events, e);
                    xml::lemma_tags_of(kept, e);
                    let j = choose|j: int| 0 <= j < kept.len() && kept[j] == e;
                    law_kept_events_name_nothing_to_remove(events, j);
                }
            }
            assert(removed_paths(doc@.events, opf_path@) =~= Set::<Seq<char>>::empty());
        }
    }
    removable_document_paths(doc, opf_path)
}

/// What stays of a package document names nothing that has to be removed.
pub proof fn law_kept_events_name_nothing_to_remove(events: Seq<EventView>, i: int)
    requires
        0 <= i < kept_events(events).len(),
    ensures
        !is_removed_item(kept_events(events)[i]),
    decreases events.len(),
{
    let e = events[0];
    let rest = events.skip(1);
    xml::lemma_span_bound(rest, e.name, 1);
    if !is_removed_item(e) {
        if i > 0 {
            law_kept_events_name_nothing_to_remove(rest, i - 1);
            assert(kept_events(events)[i] == kept_events(rest)[i - 1]);
        } else if is_item(e) {
            assert(kept_events(events)[0] == kept_item(e));
            lemma_kept_item(e);
        }
    } else if e.kind == EventKind::Empty {
        law_kept_events_name_nothing_to_remove(rest, i);
    } else if let Some(n) = xml::span(rest, e.name, 1) {
        law_kept_events_name_nothing_to_remove(rest.skip(n as int), i);
    }
}

/// An item that stays stands for the same file as before.
proof fn lemma_kept_item(e: EventView)
    ensures
        is_item(kept_item(e)) == is_item(e),
        kept_item(e).kind == e.kind,
        kept_item(e).name == e.name,
        xml::attribute_text(kept_item(e), "href"@) == xml::attribute_text(e, "href"@),
        xml::attribute_text(kept_item(e), "media-type"@) == xml::attribute_text(e, "media-type"@),
{
    reveal_strlit("href");
    reveal_strlit("media-type");
    reveal_strlit("media-overlay");
    encode_utf8_decode_utf8("href"@);
    encode_utf8_decode_utf8("media-type"@);
    encode_utf8_decode_utf8("media-overlay"@);
    assert("href"@.len() == 4 && "media-type"@.len() == 10 && "media-overlay"@.len() == 13);
    xml::lemma_find_in_rest(e.attributes, overlay_key(), encode_utf8("href"@));
    xml::lemma_find_in_rest(e.attributes, overlay_key(), encode_utf8("media-type"@));
}

/// What comes from the back of a list of events comes from the list.
proof fn lemma_comes_from_back(e: EventView, events: Seq<EventView>, from: int)
    requires
        0 <= from <= events.len(),
        xml::comes_from(e, events.skip(from), overlay_key()),
    ensures
        xml::comes_from(e, events, overlay_key()),
{
    let back = events.skip(from);
    let j = choose|j: int|
        0 <= j < back.len() && (e == #[trigger] back[j] || (xml::is_tag(back[j])
            && xml::has_plain_names(back[j]) && e == xml::without_attribute(
            back[j],
            overlay_key(),
        )));
    assert(events[from + j] == back[j]);
}

/// What stays of a package document comes from it.
proof fn lemma_kept_come_from(events: Seq<EventView>)
    requires
        has_plain_items(events),
    ensures
        xml::come_from(kept_events(events), events, overlay_key()),
    decreases events.len(),
{
    let kept = kept_events(events);
    if events.len() > 0 {
        let e = events[0];
        let rest = events.skip(1);
        xml::lemma_span_bound(rest, e.name, 1);
        let end = xml::span(rest, e.name, 1);
        let from: int = if is_removed_item(e) && e.kind == EventKind::Start && end is Some {
            (end->0 + 1) as int
        } else {
            1
        };
        let next = events.skip(from);
        assert(next =~= rest.skip(from - 1));
        assert(rest.skip(0) =~= rest);
        assert forall|i: int|
            0 <= i < next.len() && is_item(#[trigger] next[i]) && !is_removed_item(next[i])
                && has_overlay(next[i]) implies xml::has_plain_names(next[i]) by {
            assert(next[i] == events[from + i]);
        }
        lemma_kept_come_from(next);
        let tail = kept_events(next);
        assert forall|i: int| 0 <= i < kept.len() implies xml::comes_from(
            #[trigger] kept[i],
            events,
            overlay_key(),
        ) by {
            if !is_removed_item(e) {
                if i == 0 {
                    assert(events[0] == e);
                } else {
                    assert(kept[i] == tail[i - 1]);
                    lemma_comes_from_back(tail[i - 1], events, from);
                }
            } else if e.kind == EventKind::Empty || end is Some {
                assert(kept[i] == tail[i]);
                lemma_comes_from_back(tail[i], events, from);
            }
        }
    }
}

/// What stays of properly nested events is properly nested.
proof fn lemma_kept_are_nested(events: Seq<EventView>, open: Seq<Seq<u8>>)
    requires
        xml::nesting(events, open) is Some,
    ensures
        xml::nesting(kept_events(events), open) is Some,
    decreases events.len(),
{
    if events.len() > 0 {
        let e = events[0];
        let rest = events.skip(1);
        xml::lemma_span_bound(rest, e.name, 1);
        if !is_removed_item(e) {
            let first = if is_item(e) {
                kept_item(e)
            } else {
                e
            };
            let kept = kept_events(events);
            lemma_kept_item(e);
            assert(kept =~= seq![first] + kept_events(rest));
            assert(kept[0] == first);
            assert(kept.skip(1) =~= kept_events(rest));
            if e.kind == EventKind::Start {
                lemma_kept_are_nested(rest, open.push(e.name));
            } else if e.kind == EventKind::End {
                lemma_kept_are_nested(rest, open.drop_last());
            } else {
                lemma_kept_are_nested(rest, open);
            }
        } else if e.kind == EventKind::Empty {
            lemma_kept_are_nested(rest, open);
        } else if let Some(n) = xml::span(rest, e.name, 1) {
            assert(open.push(e.name) + Seq::<Seq<u8>>::empty() =~= open.push(e.name));
            assert(xml::occurrences(Seq::<Seq<u8>>::empty(), e.name) == 0);
            xml::lemma_span_in_nesting(rest, open, e.name, Seq::empty());
            lemma_kept_are_nested(rest.skip(n as int), open);
        }
    }
}

/// The path of the package document that a container names: that of its first root file with a
/// path.
pub open spec fn package_path(events: Seq<EventView>) -> Option<Seq<char>>
    decreases events.len(),
{
    if events.len() == 0 {
        None
    } else if xml::is_tag_of(events[0], "rootfile"@) && xml::attribute_text(
        events[0],
        "full-path"@,
    ) is Some {
        xml::attribute_text(events[0], "full-path"@)
    } else {
        package_path(events.skip(1))
    }
}

/// Finds the path of the package document in a container. An error in the container matters only
/// if no path stands before it.
pub fn find_document_opf_path(doc: Document) -> (r: Result<String, ProxyError>)
    ensures
        (match r {
            Ok(path) => package_path(doc@.events) == Some(path@),
            Err(ProxyError::Xml(x)) => {
                &&& package_path(doc@.events) is None
                &&& doc@.failure == Some(x)
            },
            Err(ProxyError::Epub(message)) => {
                &&& package_path(doc@.events) is None
                &&& doc@.failure is None
                &&& message@ == "container.xml does not identify an OPF package"@
            },
            Err(ProxyError::Url(_)) => false,
        }),
{
    let Document { events, failure } = doc;
    let ghost all = xml::event_views(events@);
    let mut i: usize = 0;
    proof {
        assert(all.skip(0) =~= all);
    }
    while i < events.len()
        invariant
            all == xml::event_views(events@),
            doc@ == (DocumentView { events: all, failure }),
            i <= events.len(),
            package_path(all) == package_path(all.skip(i as int)),
        decreases events.len() - i,
    {
        let e: &XmlEvent = &events[i];
        proof {
            assert(all.skip(i as int)[0] == e@);
            assert(all.skip(i as int).skip(1) =~= all.skip(i + 1));
        }
        if has_local_name(e, "rootfile") {
            if let Some(path) = attr_value(e, "full-path") {
                return Ok(path);
            }
        }
        i += 1;
    }
    match failure {
        Some(x) => Err(xml_err(x)),
        None => Err(
            ProxyError::Epub("container.xml does not identify an OPF package".to_owned()),
        ),
    }
}

/// Finds the path of the package document in `container`, the content of the archive's
/// `META-INF/container.xml`.
pub fn find_opf_path(container: &[u8]) -> (r: Result<String, ProxyError>)
    ensures
        (match r {
            Ok(path) => package_path(xml::document(container@).events) == Some(path@),
            Err(ProxyError::Xml(x)) => {
                &&& package_path(xml::document(container@).events) is None
                &&& xml::document(container@).failure == Some(x)
            },
            Err(ProxyError::Epub(message)) => {
                &&& package_path(xml::document(container@).events) is None
                &&& xml::document(container@).failure is None
                &&& message@ == "container.xml does not identify an OPF package"@
            },
            Err(ProxyError::Url(_)) => false,
        }),
{
    find_document_opf_path(read_document(container))
}

/// Checks `mimetype`, the content of the archive's `mimetype` file.
pub fn validate_epub(mimetype: &[u8]) -> (r: Result<(), ProxyError>)
    ensures
        (match r {
            Ok(_) => mimetype@ == encode_utf8("application/epub+zip"@),
            Err(ProxyError::Epub(message)) => {
                &&& mimetype@ != encode_utf8("application/epub+zip"@)
                &&& message@ == "zip is not an EPUB"@
            },
            Err(_) => false,
        }),
{
    if bytes_are(mimetype, "application/epub+zip") {
        Ok(())
    } else {
        Err(ProxyError::Epub("zip is not an EPUB".to_owned()))
    }
}

/// What a stripped book is made with.
pub struct StripPlan {
    /// The path of the package document.
    pub opf_path: String,
    /// The package document as it is written out.
    pub package: Vec<u8>,
    /// The files that are left out.
    pub removed: StringHashSet,
}

/// Plans a stripped book from its package document and the path of it.
pub fn plan_strip(opf: &[u8], opf_path: String) -> (r: Result<StripPlan, ProxyError>)
    ensures
        (match r {
            Ok(plan) => {
                &&& plan.opf_path@ == opf_path@
                &&& document_rewritten(xml::document(opf@)) == Ok::<Seq<u8>, ProxyError>(
                    plan.package@,
                )
                &&& plan.removed@ == removed_paths(xml::document(opf@).events, opf_path@)
            },
            Err(x) => xml::document(opf@).failure matches Some(e) && x == ProxyError::Xml(e),
        }),
        r is Ok <==> xml::document(opf@).failure is None,
{
    let removed: StringHashSet = match removable_manifest_paths(opf, opf_path.as_str()) {
        Ok(removed) => removed,
        Err(x) => {
            return Err(x);
        },
    };
    let package: Vec<u8> = match rewrite_opf(opf) {
        Ok(package) => package,
        Err(x) => {
            return Err(x);
        },
    };
    Ok(StripPlan { opf_path, package, removed })
}

/// How far the reading of a book is.
pub enum StripState {
    /// Its `mimetype` file has to be read.
    Mimetype,
    /// Its container has to be read.
    Container,
    /// Its package document, at this path, has to be read.
    Package(String),
    /// All is read that the stripped book is planned with.
    Planned(StripPlan),
}

/// The file of the archive that has to be read next.
pub open spec fn file_wanted(state: StripState) -> Option<Seq<char>> {
    match state {
        StripState::Mimetype => Some("mimetype"@),
        StripState::Container => Some("META-INF/container.xml"@),
        StripState::Package(path) => Some(path@),
        StripState::Planned(_) => None,
    }
}

/// The file of the archive that has to be read next, if any has to.
pub fn wanted_file(state: &StripState) -> (r: Option<&str>)
    ensures
        (match r {
            Some(name) => file_wanted(*state) == Some(name@),
            None => file_wanted(*state) is None,
        }),
{
    match state {
        StripState::Mimetype => Some("mimetype"),
        StripState::Container => Some("META-INF/container.xml"),
        StripState::Package(path) => Some(path.as_str()),
        StripState::Planned(_) => None,
    }
}

/// Takes the content of the file that was wanted: `mimetype` has to be that of an EPUB, the
/// container names the package document, and the package document gives the plan.
pub fn strip_archive(state: StripState, content: &[u8]) -> (r: Result<StripState, ProxyError>)
    ensures
        (match state {
            StripState::Mimetype => if content@ == encode_utf8("application/epub+zip"@) {
                r == Ok::<StripState, ProxyError>(StripState::Container)
            } else {
                r matches Err(ProxyError::Epub(message)) && message@ == "zip is not an EPUB"@
            },
            StripState::Container => match package_path(xml::document(content@).events) {
                Some(path) => r matches Ok(StripState::Package(p)) && p@ == path,
                None => match xml::document(content@).failure {
                    Some(x) => r == Err::<StripState, ProxyError>(ProxyError::Xml(x)),
                    None => r matches Err(ProxyError::Epub(message)) && message@
                        == "container.xml does not identify an OPF package"@,
                },
            },
            StripState::Package(path) => match xml::document(content@).failure {
                Some(x) => r == Err::<StripState, ProxyError>(ProxyError::Xml(x)),
                None => {
                    &&& r matches Ok(StripState::Planned(plan))
                    &&& plan.opf_path@ == path@
                    &&& document_rewritten(xml::document(content@)) == Ok::<Seq<u8>, ProxyError>(
                        plan.package@,
                    )
                    &&& plan.removed@ == removed_paths(xml::document(content@).events, path@)
                },
            },
            StripState::Planned(_) => r == Ok::<StripState, ProxyError>(state),
        }),
{
    match state {
        StripState::Mimetype => match validate_epub(content) {
            Ok(_) => Ok(StripState::Container),
            Err(x) => Err(x),
        },
        StripState::Container => match find_opf_path(content) {
            Ok(path) => Ok(StripState::Package(path)),
            Err(x) => Err(x),
        },
        StripState::Package(path) => match plan_strip(content, path) {
            Ok(plan) => Ok(StripState::Planned(plan)),
            Err(x) => Err(x),
        },
        StripState::Planned(plan) => Ok(StripState::Planned(plan)),
    }
}

/// An entry of an archive.
pub struct ArchiveEntry {
    pub name: String,
    pub is_dir: bool,
}

/// What becomes of an entry of the archive.
#[derive(Clone, Copy, PartialEq, Eq, Structural, Debug)]
pub enum EntryAction {
    /// It is left out.
    Skip,
    /// It is a directory and stays.
    Directory,
    /// It is the package document: the rewritten one stands in its place.
    Package,
    /// It is copied byte for byte.
    Copy,
}

/// The name is that of an audio file or of a media overlay.
pub open spec fn has_unwanted_name(name: Seq<char>) -> bool {
    is_audio_name(name) || zip_path::has_extension(name, "smil"@)
}

/// What becomes of the entry `name`: the old `mimetype`, the removed files and all other audio
/// files and media overlays are left out, the package document is replaced, and all else stays.
pub open spec fn action_for(
    name: Seq<char>,
    is_dir: bool,
    opf_path: Seq<char>,
    removed: Set<Seq<char>>,
) -> EntryAction {
    if name == "mimetype"@ || removed.contains(zip_path::normalized(name)) || (!is_dir
        && has_unwanted_name(name)) {
        EntryAction::Skip
    } else if is_dir {
        EntryAction::Directory
    } else if zip_path::normalized(name) == zip_path::normalized(opf_path) {
        EntryAction::Package
    } else {
        EntryAction::Copy
    }
}

/// What becomes of an entry of the archive.
pub fn entry_action(entry: &ArchiveEntry, plan: &StripPlan) -> (r: EntryAction)
    ensures
        r == action_for(entry.name@, entry.is_dir, plan.opf_path@, plan.removed@),
{
    let path: String = normalize_zip_path(entry.name.as_str());
    if same_text(entry.name.as_str(), "mimetype") || plan.removed.contains(path.as_str()) || (
    !entry.is_dir && (has_audio_extension(entry.name.as_str()) || extension_is(
        entry.name.as_str(),
        "smil",
    ))) {
        EntryAction::Skip
    } else if entry.is_dir {
        EntryAction::Directory
    } else if same_text(
        path.as_str(),
        normalize_zip_path(plan.opf_path.as_str()).as_str(),
    ) {
        EntryAction::Package
    } else {
        EntryAction::Copy
    }
}

/// One entry of the stripped book.
#[derive(Clone, Copy, PartialEq, Eq, Structural, Debug)]
pub enum Step {
    /// The file `mimetype`, stored without compression.
    Mimetype,
    /// The directory at this position of the archive.
    Directory(usize),
    /// The rewritten package document, under the name at this position of the archive.
    Package(usize),
    /// The file at this position of the archive, byte for byte.
    Copy(usize),
}

/// What the entry at position `at` of the archive becomes, if it stays.
pub open spec fn step_for(
    entries: Seq<ArchiveEntry>,
    at: int,
    opf_path: Seq<char>,
    removed: Set<Seq<char>>,
) -> Option<Step> {
    match action_for(entries[at].name@, entries[at].is_dir, opf_path, removed) {
        EntryAction::Skip => None,
        EntryAction::Directory => Some(Step::Directory(at as usize)),
        EntryAction::Package => Some(Step::Package(at as usize)),
        EntryAction::Copy => Some(Step::Copy(at as usize)),
    }
}

/// The entries of the stripped book that come of the first `count` entries of the archive.
pub open spec fn kept_steps(
    entries: Seq<ArchiveEntry>,
    count: nat,
    opf_path: Seq<char>,
    removed: Set<Seq<char>>,
) -> Seq<Step>
    decreases count,
{
    if count == 0 {
        Seq::empty()
    } else {
        let at = (count - 1) as nat;
        let before = kept_steps(entries, at, opf_path, removed);
        match step_for(entries, at as int, opf_path, removed) {
            Some(step) => before.push(step),
            None => before,
        }
    }
}

/// The entries of the stripped book: `mimetype` first, then what stays of the archive, in order.
pub open spec fn book_steps(
    entries: Seq<ArchiveEntry>,
    opf_path: Seq<char>,
    removed: Set<Seq<char>>,
) -> Seq<Step> {
    seq![Step::Mimetype] + kept_steps(entries, entries.len(), opf_path, removed)
}

/// Lists the entries of the stripped book. An EPUB has `mimetype` as its first entry.
pub fn rebuild_steps(entries: &Vec<ArchiveEntry>, plan: &StripPlan) -> (r: Vec<Step>)
    ensures
        r@ == book_steps(entries@, plan.opf_path@, plan.removed@),
{
    let mut steps: Vec<Step> = Vec::new();
    steps.push(Step::Mimetype);
    let mut i: usize = 0;
    proof {
        assert(steps@ =~= seq![Step::Mimetype] + Seq::<Step>::empty());
    }
    while i < entries.len()
        invariant
            i <= entries.len(),
            steps@ == seq![Step::Mimetype] + kept_steps(
                entries@,
                i as nat,
                plan.opf_path@,
                plan.removed@,
            ),
        decreases entries.len() - i,
    {
        let ghost before = kept_steps(entries@, i as nat, plan.opf_path@, plan.removed@);
        match entry_action(&entries[i], plan) {
            EntryAction::Skip => {},
            EntryAction::Directory => {
                steps.push(Step::Directory(i));
            },
            EntryAction::Package => {
                steps.push(Step::Package(i));
            },
            EntryAction::Copy => {
                steps.push(Step::Copy(i));
            },
        }
        proof {
            assert(steps@ =~= seq![Step::Mimetype] + kept_steps(
                entries@,
                (i + 1) as nat,
                plan.opf_path@,
                plan.removed@,
            ));
        }
        i += 1;
    }
    steps
}

/// The position in the archive that an entry of the book comes from.
pub open spec fn source_of(step: Step) -> int {
    match step {
        Step::Mimetype => -1,
        Step::Directory(at) => at as int,
        Step::Package(at) => at as int,
        Step::Copy(at) => at as int,
    }
}

/// Whether an entry of the book is stored without compression: `mimetype` is, as EPUB asks.
pub fn is_stored(step: Step) -> (r: bool)
    ensures
        r == (step == Step::Mimetype),
{
    match step {
        Step::Mimetype => true,
        _ => false,
    }
}

/// The name of an entry of the book.
pub open spec fn name_of(step: Step, entries: Seq<ArchiveEntry>) -> Seq<char> {
    if step == Step::Mimetype {
        "mimetype"@
    } else {
        entries[source_of(step)].name@
    }
}

/// What an entry of the book holds where that does not come out of the archive: `mimetype` and
/// the package document.
pub fn fixed_content<'a>(step: Step, plan: &'a StripPlan) -> (r: Option<&'a [u8]>)
    ensures
        (match step {
            Step::Mimetype => r matches Some(bytes) && bytes@ == encode_utf8(
                "application/epub+zip"@,
            ),
            Step::Package(_) => r matches Some(bytes) && bytes@ == plan.package@,
            _ => r is None,
        }),
{
    match step {
        Step::Mimetype => Some("application/epub+zip".as_bytes()),
        Step::Package(_) => Some(plan.package.as_slice()),
        _ => None,
    }
}

/// `events` are whole pieces of a package document: every removed item is closed in them.
pub open spec fn are_whole(events: Seq<EventView>) -> bool
    decreases events.len(),
{
    events.len() > 0 ==> {
        let e = events[0];
        let rest = events.skip(1);
        proof {
            xml::lemma_span_bound(rest, e.name, 1);
        }
        if is_removed_item(e) && e.kind == EventKind::Start {
            xml::span(rest, e.name, 1) matches Some(n) && are_whole(rest.skip(n as int))
        } else {
            are_whole(rest)
        }
    }
}

/// A package document is rewritten piece by piece: what stands before whole pieces, and behind
/// them, has no say in what becomes of them.
pub proof fn law_package_rewriting_is_piecewise(front: Seq<EventView>, back: Seq<EventView>)
    requires
        are_whole(front),
    ensures
        kept_events(front + back) == kept_events(front) + kept_events(back),
        package_rewritten(front + back, None) == Ok::<Seq<u8>, ProxyError>(
            xml::markup_of(kept_events(front)) + xml::markup_of(kept_events(back)),
        ),
    decreases front.len(),
{
    if front.len() == 0 {
        assert(front + back =~= back);
        assert(kept_events(front) + kept_events(back) =~= kept_events(back));
    } else {
        let e = front[0];
        let rest = front.skip(1);
        let both = front + back;
        assert(both[0] == e);
        assert(both.skip(1) =~= rest + back);
        xml::lemma_span_bound(rest, e.name, 1);
        let closes = is_removed_item(e) && e.kind == EventKind::Start;
        let next = if closes {
            rest.skip(xml::span(rest, e.name, 1)->0 as int)
        } else {
            rest
        };
        if closes {
            let n = xml::span(rest, e.name, 1)->0;
            xml::lemma_span_extends(rest, back, e.name, 1);
            assert((rest + back).skip(n as int) =~= next + back);
        }
        law_package_rewriting_is_piecewise(next, back);
        assert(kept_events(both) =~= kept_events(front) + kept_events(back));
    }
    xml::lemma_markup_concat(kept_events(front), kept_events(back));
}

/// An item that stands for audio or a media overlay is left out of the package document, with all
/// that it encloses.
pub proof fn law_removed_item_is_left_out(events: Seq<EventView>, n: nat)
    requires
        events.len() > 0,
        is_removed_item(events[0]),
        if events[0].kind == EventKind::Empty {
            n == 0
        } else {
            xml::span(events.skip(1), events[0].name, 1) == Some(n)
        },
    ensures
        kept_events(events) == kept_events(events.skip((n + 1) as int)),
{
    xml::lemma_span_bound(events.skip(1), events[0].name, 1);
    assert(events.skip(1).skip(n as int) =~= events.skip((n + 1) as int));
}

/// Markup without removed items and without media overlays comes out as it went in.
pub proof fn law_other_package_markup_is_kept(events: Seq<EventView>)
    requires
        has_nothing_to_rewrite(events),
    ensures
        kept_events(events) == events,
        package_rewritten(events, None) == Ok::<Seq<u8>, ProxyError>(xml::markup_of(events)),
    decreases events.len(),
{
    if events.len() > 0 {
        let rest = events.skip(1);
        assert forall|i: int| 0 <= i < rest.len() && is_item(#[trigger] rest[i]) implies
            !is_removed_item(rest[i]) && !has_overlay(rest[i]) by {
            assert(rest[i] == events[i + 1]);
        }
        law_other_package_markup_is_kept(rest);
        assert(!is_item(events[0]) || !is_removed_item(events[0]) && !has_overlay(events[0]));
        assert(seq![events[0]] + rest =~= events);
    }
    assert(kept_events(events) =~= events);
}

/// An item that stays loses its tie to a media overlay and no other attribute; one that has no such
/// tie is not altered.
pub proof fn law_only_overlay_ties_are_dropped(e: EventView)
    ensures
        !has_overlay(e) ==> kept_item(e) == e,
        has_overlay(e) ==> forall|a: (Seq<u8>, Seq<u8>)| #[trigger]
            kept_item(e).attributes.contains(a) <==> e.attributes.contains(a) && a.0
                != overlay_key(),
        kept_item(e).name == e.name,
        kept_item(e).kind == e.kind,
{
    if has_overlay(e) {
        assert forall|a: (Seq<u8>, Seq<u8>)| #[trigger]
            kept_item(e).attributes.contains(a) <==> e.attributes.contains(a) && a.0
                != overlay_key() by {
            xml::lemma_attributes_without(e.attributes, overlay_key(), a);
        }
    }
}

/// The file of an item that stands for audio or a media overlay is left out of the book, whatever
/// form its name has in the archive, and whether or not the item names it in percent-encoded form.
pub proof fn law_removed_file_is_left_out(
    events: Seq<EventView>,
    i: int,
    opf_path: Seq<char>,
    name: Seq<char>,
    is_dir: bool,
)
    requires
        0 <= i < events.len(),
        is_removed_item(events[i]),
        stands_for(events[i], opf_path, zip_path::normalized(name)),
    ensures
        action_for(name, is_dir, opf_path, removed_paths(events, opf_path)) == EntryAction::Skip,
{
}

/// The removed files are named in normal form.
pub proof fn law_removed_paths_are_normal(
    events: Seq<EventView>,
    opf_path: Seq<char>,
    path: Seq<char>,
)
    requires
        removed_paths(events, opf_path).contains(path),
    ensures
        zip_path::normalized(path) == path,
{
    let i = choose|i: int|
        0 <= i < events.len() && is_removed_item(#[trigger] events[i]) && stands_for(
            events[i],
            opf_path,
            path,
        );
    let href = xml::attribute_or_empty(events[i], "href"@);
    zip_path::law_located_path_is_normal(opf_path, zip_path::file_part(href));
    zip_path::law_located_path_is_normal(
        opf_path,
        xml::lossy_text(zip_path::percent_decoded(encode_utf8(zip_path::file_part(href)))),
    );
}

/// A file that is neither `mimetype` nor the package document, that is neither audio nor a media
/// overlay by its name, and that no removed item stands for, is copied byte for byte.
pub proof fn law_other_files_are_copied(
    events: Seq<EventView>,
    opf_path: Seq<char>,
    name: Seq<char>,
)
    requires
        name != "mimetype"@,
        zip_path::normalized(name) != zip_path::normalized(opf_path),
        forall|i: int|
            0 <= i < events.len() && is_removed_item(#[trigger] events[i]) ==> !stands_for(
                events[i],
                opf_path,
                zip_path::normalized(name),
            ),
        !has_unwanted_name(name),
    ensures
        action_for(name, false, opf_path, removed_paths(events, opf_path)) == EntryAction::Copy,
{
}

/// The entries that come of the front of an archive: each from an entry that stays, in order, and
/// none is missing.
proof fn lemma_kept_steps(
    entries: Seq<ArchiveEntry>,
    count: nat,
    opf_path: Seq<char>,
    removed: Set<Seq<char>>,
)
    requires
        count <= entries.len() <= usize::MAX,
    ensures
        ({
            let steps = kept_steps(entries, count, opf_path, removed);
            &&& forall|i: int|
                #![trigger steps[i]]
                0 <= i < steps.len() ==> 0 <= source_of(steps[i]) < count && step_for(
                    entries,
                    source_of(steps[i]),
                    opf_path,
                    removed,
                ) == Some(steps[i])
            &&& forall|i: int, j: int|
                #![trigger steps[i], steps[j]]
                0 <= i < j < steps.len() ==> source_of(steps[i]) < source_of(steps[j])
            &&& forall|at: int|
                0 <= at < count ==> (#[trigger] step_for(
                    entries,
                    at,
                    opf_path,
                    removed,
                ) matches Some(step) ==> steps.contains(step))
        }),
    decreases count,
{
    if count > 0 {
        let at = (count - 1) as nat;
        lemma_kept_steps(entries, at, opf_path, removed);
        let before = kept_steps(entries, at, opf_path, removed);
        let steps = kept_steps(entries, count, opf_path, removed);
        assert forall|k: int| 0 <= k < count implies (#[trigger] step_for(
            entries,
            k,
            opf_path,
            removed,
        ) matches Some(step) ==> steps.contains(step)) by {
            if let Some(step) = step_for(entries, k, opf_path, removed) {
                if k < at {
                    assert(before.contains(step));
                    let i = choose|i: int| 0 <= i < before.len() && before[i] == step;
                    assert(steps[i] == step);
                } else {
                    assert(steps.last() == step);
                    assert(steps.contains(step));
                }
            }
        }
    }
}

/// A stripped book opens with `mimetype` and holds it once; behind it stand the entries of the
/// archive that stay, all of them and no others, in their order. None of them is a removed file,
/// and no file among them is audio or a media overlay by its name.
pub proof fn law_book_holds_what_stays(
    entries: Seq<ArchiveEntry>,
    opf_path: Seq<char>,
    removed: Set<Seq<char>>,
)
    requires
        entries.len() <= usize::MAX,
    ensures
        ({
            let steps = book_steps(entries, opf_path, removed);
            &&& steps.len() > 0
            &&& steps[0] == Step::Mimetype
            &&& forall|i: int|
                #![trigger steps[i]]
                0 < i < steps.len() ==> 0 <= source_of(steps[i]) < entries.len() && step_for(
                    entries,
                    source_of(steps[i]),
                    opf_path,
                    removed,
                ) == Some(steps[i]) && name_of(steps[i], entries) != "mimetype"@
                    && !removed.contains(zip_path::normalized(name_of(steps[i], entries))) && (
                steps[i] is Directory || !has_unwanted_name(name_of(steps[i], entries)))
            &&& forall|i: int, j: int|
                #![trigger steps[i], steps[j]]
                0 <= i < j < steps.len() ==> source_of(steps[i]) < source_of(steps[j])
            &&& forall|at: int|
                0 <= at < entries.len() ==> (#[trigger] step_for(
                    entries,
                    at,
                    opf_path,
                    removed,
                ) matches Some(step) ==> steps.contains(step))
        }),
{
    let kept = kept_steps(entries, entries.len(), opf_path, removed);
    let steps = book_steps(entries, opf_path, removed);
    lemma_kept_steps(entries, entries.len(), opf_path, removed);
    assert forall|i: int| 0 < i < steps.len() implies #[trigger] steps[i] == kept[i - 1] by {}
    assert forall|at: int| 0 <= at < entries.len() implies (#[trigger] step_for(
        entries,
        at,
        opf_path,
        removed,
    ) matches Some(step) ==> steps.contains(step)) by {
        if let Some(step) = step_for(entries, at, opf_path, removed) {
            assert(kept.contains(step));
            let i = choose|i: int| 0 <= i < kept.len() && kept[i] == step;
            assert(steps[i + 1] == step);
        }
    }
}

/// An item that stands for audio or a media overlay leaves no trace wherever it stands: the package
/// document comes out as it does without it.
pub proof fn law_removed_item_leaves_no_trace(
    front: Seq<EventView>,
    item: Seq<EventView>,
    back: Seq<EventView>,
)
    requires
        are_whole(front),
        item.len() > 0,
        is_removed_item(item[0]),
        if item[0].kind == EventKind::Empty {
            item.len() == 1
        } else {
            xml::span(item.skip(1), item[0].name, 1) == Some((item.len() - 1) as nat)
        },
    ensures
        kept_events(front + item + back) == kept_events(front + back),
{
    let n = (item.len() - 1) as nat;
    let rest = item + back;
    assert(rest[0] == item[0]);
    assert(rest.skip(1) =~= item.skip(1) + back);
    if item[0].kind != EventKind::Empty {
        xml::lemma_span_extends(item.skip(1), back, item[0].name, 1);
    }
    assert(rest.skip((n + 1) as int) =~= back);
    law_removed_item_is_left_out(rest, n);
    assert(front + item + back =~= front + rest);
    law_package_rewriting_is_piecewise(front, rest);
    law_package_rewriting_is_piecewise(front, back);
}

} // verus!
