//! Laws of books: what is left out of them, and what stays.

use vstd::prelude::*;
use vstd::utf8::*;

use crate::download;
use crate::download::{ArchiveEntry, EntryAction, Step, StripPlan, StripState};
use crate::error::ProxyError;
use crate::laws::documents;
use crate::laws::paths;
use crate::laws::words;
use crate::text;
use crate::xml;
use crate::xml::{DocumentView, EventKind, EventView};
use crate::zip_path;

verus! {

/// The text begins with `audio/`, in capital or small letters.
pub open spec fn opens_with_audio(media_type: Seq<char>) -> bool {
    media_type.len() >= 6 && forall|i: int|
        0 <= i < 6 ==> words::are_one_letter(#[trigger] media_type[i], "audio/"@[i])
}

/// The text is `application/smil+xml`, in capital or small letters.
pub open spec fn is_overlay_type(media_type: Seq<char>) -> bool {
    media_type.len() == "application/smil+xml"@.len() && forall|i: int|
        0 <= i < media_type.len() ==> words::are_one_letter(
            #[trigger] media_type[i],
            "application/smil+xml"@[i],
        )
}

/// Whatever its name, a file of an audio type is removed: the type begins with `audio/`, in capital
/// or small letters, and goes on in any way.
pub proof fn law_audio_type_is_removed(href: Seq<char>, media_type: Seq<char>)
    requires
        opens_with_audio(media_type),
    ensures
        download::is_audio_or_overlay(href, media_type),
{
    reveal_strlit("audio/");
    words::law_starts_ignoring_case(media_type, "audio/"@);
}

/// Whatever its name, a file of the type of media overlays, in capital or small letters, is removed.
pub proof fn law_overlay_type_is_removed(href: Seq<char>, media_type: Seq<char>)
    requires
        is_overlay_type(media_type),
    ensures
        download::is_audio_or_overlay(href, media_type),
{
    words::law_same_ignoring_case(media_type, "application/smil+xml"@);
}

/// `ext` is, in capital or small letters, one of the seven extensions of audio files.
pub open spec fn is_audio_extension(ext: Seq<char>) -> bool {
    ||| is_in_other_case(ext, "mp3"@)
    ||| is_in_other_case(ext, "m4a"@)
    ||| is_in_other_case(ext, "aac"@)
    ||| is_in_other_case(ext, "ogg"@)
    ||| is_in_other_case(ext, "opus"@)
    ||| is_in_other_case(ext, "wav"@)
    ||| is_in_other_case(ext, "flac"@)
}

/// The texts differ at most in capital and small letters.
pub open spec fn is_in_other_case(a: Seq<char>, b: Seq<char>) -> bool {
    a.len() == b.len() && forall|i: int|
        0 <= i < a.len() ==> words::are_one_letter(#[trigger] a[i], b[i])
}

/// Whatever its type, a file is removed if its name has an extension of audio files or that of media
/// overlays, in any directory, with any stem, in capital or small letters. A file with another
/// extension is removed for its type only.
pub proof fn law_name_is_removed(
    front: Seq<char>,
    stem: Seq<char>,
    ext: Seq<char>,
    media_type: Seq<char>,
)
    requires
        paths::ends_a_part(front),
        paths::is_one_part(stem),
        paths::is_one_part(ext),
        !ext.contains('.'),
    ensures
        ({
            let name = front + (stem + seq!['.'] + ext);
            &&& download::is_audio_name(name) <==> is_audio_extension(ext)
            &&& download::has_unwanted_name(name) <==> is_audio_extension(ext) || is_in_other_case(
                ext,
                "smil"@,
            )
            &&& download::is_audio_or_overlay(name, media_type) <==> is_audio_extension(ext)
                || is_in_other_case(ext, "smil"@) || opens_with_audio(media_type)
                || is_overlay_type(media_type)
        }),
{
    paths::law_has_extension(front, stem, ext, "mp3"@);
    paths::law_has_extension(front, stem, ext, "m4a"@);
    paths::law_has_extension(front, stem, ext, "aac"@);
    paths::law_has_extension(front, stem, ext, "ogg"@);
    paths::law_has_extension(front, stem, ext, "opus"@);
    paths::law_has_extension(front, stem, ext, "wav"@);
    paths::law_has_extension(front, stem, ext, "flac"@);
    paths::law_has_extension(front, stem, ext, "smil"@);
    lemma_types(media_type);
}

/// A file whose name has no extension is removed for its type only.
pub proof fn law_name_without_extension(front: Seq<char>, file: Seq<char>, media_type: Seq<char>)
    requires
        paths::ends_a_part(front),
        paths::is_one_part(file),
        !file.contains('.'),
    ensures
        !download::is_audio_name(front + file),
        !download::has_unwanted_name(front + file),
        download::is_audio_or_overlay(front + file, media_type) <==> opens_with_audio(media_type)
            || is_overlay_type(media_type),
{
    paths::law_no_extension(front, file);
    lemma_types(media_type);
}

/// The types that are removed.
proof fn lemma_types(media_type: Seq<char>)
    ensures
        text::starts_ignoring_case(media_type, "audio/"@) <==> opens_with_audio(media_type),
        text::same_ignoring_case(media_type, "application/smil+xml"@) <==> is_overlay_type(
            media_type,
        ),
{
    reveal_strlit("audio/");
    words::law_starts_ignoring_case(media_type, "audio/"@);
    words::law_same_ignoring_case(media_type, "application/smil+xml"@);
}

/// An item is removed if its first `media-type` has the text of an audio or overlay type, whatever
/// its other attributes.
pub proof fn law_item_of_removed_type(e: EventView, i: int, media_type: Seq<char>)
    requires
        download::is_item(e),
        0 <= i < e.attributes.len(),
        e.attributes[i].0 == encode_utf8("media-type"@),
        forall|j: int| 0 <= j < i ==> (#[trigger] e.attributes[j]).0 != encode_utf8("media-type"@),
        media_type == xml::value_text(e.attributes[i].1),
        opens_with_audio(media_type) || is_overlay_type(media_type),
    ensures
        download::is_removed_item(e),
{
    documents::law_find_attribute(e.attributes, encode_utf8("media-type"@), i);
    let href = xml::attribute_or_empty(e, "href"@);
    if opens_with_audio(media_type) {
        law_audio_type_is_removed(href, media_type);
    } else {
        law_overlay_type_is_removed(href, media_type);
    }
}

/// An item is removed if its first `href` names an audio file or a media overlay, whatever its other
/// attributes.
pub proof fn law_item_of_removed_name(e: EventView, i: int)
    requires
        download::is_item(e),
        0 <= i < e.attributes.len(),
        e.attributes[i].0 == encode_utf8("href"@),
        forall|j: int| 0 <= j < i ==> (#[trigger] e.attributes[j]).0 != encode_utf8("href"@),
        download::has_unwanted_name(xml::value_text(e.attributes[i].1)),
    ensures
        download::is_removed_item(e),
{
    documents::law_find_attribute(e.attributes, encode_utf8("href"@), i);
}

/// Only items are removed, and only those with such a name or type; a missing attribute counts as
/// empty.
pub proof fn law_other_tags_are_not_removed(e: EventView)
    ensures
        download::is_item(e) <==> (e.kind == EventKind::Start || e.kind == EventKind::Empty)
            && xml::local_part(e.name) == encode_utf8("item"@),
        download::is_removed_item(e) ==> download::is_item(e) && (download::has_unwanted_name(
            xml::attribute_or_empty(e, "href"@),
        ) || opens_with_audio(xml::attribute_or_empty(e, "media-type"@)) || is_overlay_type(
            xml::attribute_or_empty(e, "media-type"@),
        )),
        download::names_audio_or_overlay(e) && download::is_item(e) ==> download::is_removed_item(e),
{
    documents::law_is_tag_of(e, "item"@);
    lemma_types(xml::attribute_or_empty(e, "media-type"@));
}

/// The files of a removed item are those that its reference names, as it stands and with its percent
/// escapes decoded, from the directory of the package document.
pub proof fn law_removed_paths(
    events: Seq<EventView>,
    opf_path: Seq<char>,
    i: int,
    href: Seq<char>,
)
    requires
        0 <= i < events.len(),
        download::is_removed_item(events[i]),
        href == xml::attribute_or_empty(events[i], "href"@),
    ensures
        download::removed_paths(events, opf_path).contains(zip_path::resolved(opf_path, href)),
        download::removed_paths(events, opf_path).contains(
            zip_path::resolved_decoded(opf_path, href),
        ),
{
    let path = zip_path::resolved(opf_path, href);
    let decoded = zip_path::resolved_decoded(opf_path, href);
    assert(download::stands_for(events[i], opf_path, path));
    assert(download::stands_for(events[i], opf_path, decoded));
}

/// No other files are: each removed file is named by a removed item.
pub proof fn law_no_other_path_is_removed(
    events: Seq<EventView>,
    opf_path: Seq<char>,
    path: Seq<char>,
) -> (i: int)
    requires
        download::removed_paths(events, opf_path).contains(path),
    ensures
        0 <= i < events.len(),
        download::is_removed_item(events[i]),
        path == zip_path::resolved(opf_path, xml::attribute_or_empty(events[i], "href"@)) || path
            == zip_path::resolved_decoded(opf_path, xml::attribute_or_empty(events[i], "href"@)),
{
    choose|i: int|
        0 <= i < events.len() && download::is_removed_item(#[trigger] events[i])
            && download::stands_for(events[i], opf_path, path)
}

/// An item that stays loses its `media-overlay` attributes and is then written anew; without such an
/// attribute it stays as it is, byte for byte.
pub proof fn law_kept_item(e: EventView)
    ensures
        (forall|j: int|
            0 <= j < e.attributes.len() ==> (#[trigger] e.attributes[j]).0 != encode_utf8(
                "media-overlay"@,
            )) ==> download::kept_item(e) == e,
        (exists|j: int|
            0 <= j < e.attributes.len() && (#[trigger] e.attributes[j]).0 == encode_utf8(
                "media-overlay"@,
            )) ==> {
            let kept = download::kept_item(e);
            &&& kept.kind == e.kind
            &&& kept.name == e.name
            &&& kept.attributes == xml::attributes_without(
                e.attributes,
                encode_utf8("media-overlay"@),
            )
            &&& kept.markup == xml::tag_markup(kept.name, kept.attributes, kept.kind)
        },
{
    let key = encode_utf8("media-overlay"@);
    if forall|j: int| 0 <= j < e.attributes.len() ==> (#[trigger] e.attributes[j]).0 != key {
        documents::law_missing_attribute(e.attributes, key);
    } else {
        lemma_has_attribute(e.attributes, key);
    }
}

/// An attribute that is there is found.
proof fn lemma_has_attribute(attributes: Seq<(Seq<u8>, Seq<u8>)>, key: Seq<u8>)
    requires
        exists|j: int| 0 <= j < attributes.len() && (#[trigger] attributes[j]).0 == key,
    ensures
        xml::find_attribute(attributes, key) is Some,
    decreases attributes.len(),
{
    let j = choose|j: int| 0 <= j < attributes.len() && (#[trigger] attributes[j]).0 == key;
    if attributes[0].0 != key {
        let rest = attributes.skip(1);
        assert(rest[j - 1].0 == key);
        lemma_has_attribute(rest, key);
    }
}

/// By itself, an item that stays is that item without its ties to a media overlay, a removed one is
/// nothing, and any other event is itself.
pub proof fn law_single_events(e: EventView)
    ensures
        download::kept_events(Seq::empty()).len() == 0,
        !download::is_item(e) ==> download::kept_events(seq![e]) == seq![e],
        download::is_item(e) && !download::is_removed_item(e) ==> download::kept_events(seq![e])
            == seq![download::kept_item(e)],
        download::is_removed_item(e) ==> download::kept_events(seq![e]).len() == 0,
{
    let events = seq![e];
    assert(events.skip(1) =~= Seq::empty());
    assert(xml::span(Seq::empty(), e.name, 1) is None);
    reveal_with_fuel(download::kept_events, 2);
    assert(seq![e] + Seq::<EventView>::empty() =~= seq![e]);
    assert(seq![download::kept_item(e)] + Seq::<EventView>::empty() =~= seq![
        download::kept_item(e),
    ]);
}

/// A removed item that is not closed ends with the document: nothing of it stays.
pub proof fn law_unclosed_item(events: Seq<EventView>)
    requires
        events.len() > 0,
        download::is_removed_item(events[0]),
        events[0].kind == EventKind::Start,
        xml::span(events.skip(1), events[0].name, 1) is None,
    ensures
        download::kept_events(events).len() == 0,
{
}

/// A package document that can be read is written as what stays of it; one that cannot fails with
/// the error of its reading.
pub proof fn law_package_is_written(doc: DocumentView)
    ensures
        doc.failure matches Some(x) ==> download::document_rewritten(doc) == Err::<
            Seq<u8>,
            ProxyError,
        >(ProxyError::Xml(x)),
        doc.failure is None ==> download::document_rewritten(doc) == Ok::<Seq<u8>, ProxyError>(
            xml::markup_of(download::kept_events(doc.events)),
        ),
{
}

/// The tag names the package document: it is a `rootfile` with a `full-path`.
pub open spec fn names_package(e: EventView) -> bool {
    &&& e.kind == EventKind::Start || e.kind == EventKind::Empty
    &&& xml::local_part(e.name) == encode_utf8("rootfile"@)
    &&& exists|j: int|
        0 <= j < e.attributes.len() && (#[trigger] e.attributes[j]).0 == encode_utf8("full-path"@)
}

/// The package document is the one that the first `rootfile` with a `full-path` names, wherever in
/// the container it stands, and whatever other attributes it has.
pub proof fn law_first_rootfile_counts(events: Seq<EventView>, i: int, j: int)
    requires
        0 <= i < events.len(),
        names_package(events[i]),
        forall|k: int| 0 <= k < i ==> !names_package(#[trigger] events[k]),
        0 <= j < events[i].attributes.len(),
        events[i].attributes[j].0 == encode_utf8("full-path"@),
        forall|k: int|
            0 <= k < j ==> (#[trigger] events[i].attributes[k]).0 != encode_utf8("full-path"@),
    ensures
        download::package_path(events) == Some(xml::value_text(events[i].attributes[j].1)),
    decreases i,
{
    lemma_names_package(events[0]);
    if i > 0 {
        assert(!names_package(events[0]));
        let rest = events.skip(1);
        assert(rest[i - 1] == events[i]);
        assert forall|k: int| 0 <= k < i - 1 implies !names_package(#[trigger] rest[k]) by {
            assert(rest[k] == events[k + 1]);
        }
        law_first_rootfile_counts(rest, i - 1, j);
    } else {
        documents::law_find_attribute(events[0].attributes, encode_utf8("full-path"@), j);
    }
}

/// Without such a tag, no package document is found.
pub proof fn law_no_rootfile(events: Seq<EventView>)
    requires
        forall|k: int| 0 <= k < events.len() ==> !names_package(#[trigger] events[k]),
    ensures
        download::package_path(events) is None,
    decreases events.len(),
{
    if events.len() > 0 {
        lemma_names_package(events[0]);
        assert(!names_package(events[0]));
        let rest = events.skip(1);
        assert forall|k: int| 0 <= k < rest.len() implies !names_package(#[trigger] rest[k]) by {
            assert(rest[k] == events[k + 1]);
        }
        law_no_rootfile(rest);
    }
}

/// A tag that names the package document has a path for it, and no other tag has.
proof fn lemma_names_package(e: EventView)
    ensures
        names_package(e) <==> xml::is_tag_of(e, "rootfile"@) && xml::attribute_text(
            e,
            "full-path"@,
        ) is Some,
{
    let key = encode_utf8("full-path"@);
    if exists|j: int| 0 <= j < e.attributes.len() && (#[trigger] e.attributes[j]).0 == key {
        lemma_has_attribute(e.attributes, key);
    } else {
        documents::law_missing_attribute(e.attributes, key);
    }
}

/// A book is read in three steps: its type, its container, and the package document that the
/// container names.
pub proof fn law_files_wanted(path: String, plan: StripPlan)
    ensures
        download::file_wanted(StripState::Mimetype) == Some("mimetype"@),
        download::file_wanted(StripState::Container) == Some("META-INF/container.xml"@),
        download::file_wanted(StripState::Package(path)) == Some(path@),
        download::file_wanted(StripState::Planned(plan)) is None,
{
}

/// An entry of the archive is left out exactly if it is the `mimetype` file, or a removed file, or a
/// file whose name is that of audio or a media overlay.
pub proof fn law_left_out(
    name: Seq<char>,
    is_dir: bool,
    opf_path: Seq<char>,
    removed: Set<Seq<char>>,
)
    ensures
        download::action_for(name, is_dir, opf_path, removed) == EntryAction::Skip <==> name
            == "mimetype"@ || removed.contains(zip_path::normalized(name)) || (!is_dir && (
        download::is_audio_name(name) || zip_path::has_extension(name, "smil"@))),
{
}

/// Of the other entries, directories stay directories, the package document is replaced whatever
/// form its name has, and all else is copied.
pub proof fn law_kept_entries(
    name: Seq<char>,
    is_dir: bool,
    opf_path: Seq<char>,
    removed: Set<Seq<char>>,
)
    requires
        download::action_for(name, is_dir, opf_path, removed) != EntryAction::Skip,
    ensures
        is_dir <==> download::action_for(name, is_dir, opf_path, removed) == EntryAction::Directory,
        !is_dir && zip_path::normalized(name) == zip_path::normalized(opf_path)
            <==> download::action_for(name, is_dir, opf_path, removed) == EntryAction::Package,
        !is_dir && zip_path::normalized(name) != zip_path::normalized(opf_path)
            <==> download::action_for(name, is_dir, opf_path, removed) == EntryAction::Copy,
{
}

/// What becomes of an entry is said of its own place in the archive.
pub proof fn law_step_keeps_its_place(
    entries: Seq<ArchiveEntry>,
    at: int,
    opf_path: Seq<char>,
    removed: Set<Seq<char>>,
)
    requires
        0 <= at < entries.len() <= usize::MAX,
    ensures
        ({
            let action = download::action_for(
                entries[at].name@,
                entries[at].is_dir,
                opf_path,
                removed,
            );
            match download::step_for(entries, at, opf_path, removed) {
                None => action == EntryAction::Skip,
                Some(Step::Mimetype) => false,
                Some(Step::Directory(n)) => action == EntryAction::Directory && n == at,
                Some(Step::Package(n)) => action == EntryAction::Package && n == at,
                Some(Step::Copy(n)) => action == EntryAction::Copy && n == at,
            }
        }),
{
}

/// The steps of an archive are `mimetype`, and then one step for each entry that stays, in order: one
/// more entry at the end adds its step at the end, and changes none before it.
pub proof fn law_one_more_entry(
    entries: Seq<ArchiveEntry>,
    entry: ArchiveEntry,
    opf_path: Seq<char>,
    removed: Set<Seq<char>>,
)
    ensures
        download::book_steps(Seq::empty(), opf_path, removed) == seq![Step::Mimetype],
        download::book_steps(entries.push(entry), opf_path, removed) == (
        match download::step_for(
            entries.push(entry),
            entries.len() as int,
            opf_path,
            removed,
        ) {
            Some(step) => download::book_steps(entries, opf_path, removed).push(step),
            None => download::book_steps(entries, opf_path, removed),
        }),
{
    let longer = entries.push(entry);
    lemma_steps_of_front(entries, entry, entries.len(), opf_path, removed);
    let kept = download::kept_steps(entries, entries.len(), opf_path, removed);
    assert(download::book_steps(Seq::empty(), opf_path, removed) =~= seq![Step::Mimetype]);
    if let Some(step) = download::step_for(longer, entries.len() as int, opf_path, removed) {
        assert(seq![Step::Mimetype] + kept.push(step) =~= (seq![Step::Mimetype] + kept).push(step));
    }
}

/// The steps of the front of an archive do not depend on its last entry.
proof fn lemma_steps_of_front(
    entries: Seq<ArchiveEntry>,
    entry: ArchiveEntry,
    count: nat,
    opf_path: Seq<char>,
    removed: Set<Seq<char>>,
)
    requires
        count <= entries.len(),
    ensures
        download::kept_steps(entries.push(entry), count, opf_path, removed) == download::kept_steps(
            entries,
            count,
            opf_path,
            removed,
        ),
    decreases count,
{
    if count > 0 {
        lemma_steps_of_front(entries, entry, (count - 1) as nat, opf_path, removed);
        assert(entries.push(entry)[count - 1] == entries[count - 1]);
    }
}

/// An entry of the book comes from the place that its step gives, and has the name that the archive
/// has there; `mimetype` comes from nowhere.
pub proof fn law_sources(at: usize, entries: Seq<ArchiveEntry>)
    ensures
        download::source_of(Step::Directory(at)) == at,
        download::source_of(Step::Package(at)) == at,
        download::source_of(Step::Copy(at)) == at,
        download::source_of(Step::Mimetype) < 0,
        download::name_of(Step::Mimetype, entries) == "mimetype"@,
        download::name_of(Step::Directory(at), entries) == entries[at as int].name@,
        download::name_of(Step::Package(at), entries) == entries[at as int].name@,
        download::name_of(Step::Copy(at), entries) == entries[at as int].name@,
{
}

} // verus!
