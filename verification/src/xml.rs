//! XML documents as lists of events, read by quick-xml.

use quick_xml::escape::{escape, unescape};
use quick_xml::events::Event::{Empty, End, Eof, Start};
use quick_xml::{Reader, Writer};
use vstd::prelude::*;
use vstd::string::*;
use vstd::utf8::*;

use crate::text;
use crate::text::{bytes_are, same_bytes};

verus! {

/// quick-xml's reader. What it has still to give is `unread`.
#[verifier::external_type_specification]
#[verifier::external_body]
#[verifier::reject_recursive_types(R)]
pub struct ExReader<R>(quick_xml::Reader<R>);

/// What sort of markup an event is.
#[derive(Clone, Copy, PartialEq, Eq, Structural, Debug)]
pub enum EventKind {
    /// An opening tag.
    Start,
    /// A tag that closes itself.
    Empty,
    /// A closing tag.
    End,
    /// Text, comments, declarations and all other markup.
    Other,
    /// The end of the document.
    Eof,
}

/// One piece of markup.
#[derive(Debug)]
pub struct XmlEvent {
    pub kind: EventKind,
    /// The qualified name of a tag; of other markup, its content.
    pub name: Vec<u8>,
    /// The attributes of an opening or self-closing tag, as they stand in the document.
    pub attributes: Vec<(Vec<u8>, Vec<u8>)>,
    /// The markup as it is written out.
    pub markup: Vec<u8>,
}

/// The model of an `XmlEvent`.
pub struct EventView {
    pub kind: EventKind,
    pub name: Seq<u8>,
    pub attributes: Seq<(Seq<u8>, Seq<u8>)>,
    pub markup: Seq<u8>,
}

impl View for XmlEvent {
    type V = EventView;

    open spec fn view(&self) -> EventView {
        EventView {
            kind: self.kind,
            name: self.name@,
            attributes: self.attributes@.map_values(|a: (Vec<u8>, Vec<u8>)| (a.0@, a.1@)),
            markup: self.markup@,
        }
    }
}

/// A document: its events in order, and the error that ended the reading, if one did.
#[derive(Debug)]
pub struct Document {
    pub events: Vec<XmlEvent>,
    pub failure: Option<quick_xml::Error>,
}

/// The model of a `Document`.
pub struct DocumentView {
    pub events: Seq<EventView>,
    pub failure: Option<quick_xml::Error>,
}

impl View for Document {
    type V = DocumentView;

    open spec fn view(&self) -> DocumentView {
        DocumentView { events: event_views(self.events@), failure: self.failure }
    }
}

/// The models of a list of events.
pub open spec fn event_views(events: Seq<XmlEvent>) -> Seq<EventView> {
    events.map_values(|e: XmlEvent| e@)
}

/// What quick-xml reads in `input`, up to its end or to the first error.
pub uninterp spec fn document(input: Seq<u8>) -> DocumentView;

/// What a reader has still to give, up to the end of its input or to the first error.
pub uninterp spec fn unread(reader: Reader<&[u8]>) -> DocumentView;

/// The elements that are open behind `events`, the innermost last, where those of `open` are open
/// before them; `None` if a closing tag does not close the innermost open element.
pub open spec fn nesting(events: Seq<EventView>, open: Seq<Seq<u8>>) -> Option<Seq<Seq<u8>>>
    decreases events.len(),
{
    if events.len() == 0 {
        Some(open)
    } else if events[0].kind == EventKind::Start {
        nesting(events.skip(1), open.push(events[0].name))
    } else if events[0].kind == EventKind::End {
        if open.len() > 0 && open.last() == events[0].name {
            nesting(events.skip(1), open.drop_last())
        } else {
            None
        }
    } else {
        nesting(events.skip(1), open)
    }
}

/// `events` are one element: an opening tag, its closing tag, and what stands between them.
pub open spec fn is_one_element(events: Seq<EventView>) -> bool {
    &&& events.len() > 0
    &&& events[0].kind == EventKind::Start
    &&& span(events.skip(1), events[0].name, 1) == Some((events.len() - 1) as nat)
}

/// `input` is read to its end, and every element that is opened in it is closed in it.
pub open spec fn is_complete(input: Seq<u8>) -> bool {
    document(input).failure is None && nesting(document(input).events, Seq::empty()) == Some(
        Seq::<Seq<u8>>::empty(),
    )
}

/// `input` is empty or opens with a tag or other markup in angle brackets.
pub open spec fn opens_with_markup(input: Seq<u8>) -> bool {
    input.len() == 0 || input[0] == 0x3c
}

/// The name holds no quotes, no angle brackets, no slash and no equals sign.
pub open spec fn is_plain_name(name: Seq<u8>) -> bool {
    name.len() > 0 && forall|i: int|
        0 <= i < name.len() ==> {
            let b = #[trigger] name[i];
            b != 0x22 && b != 0x27 && b != 0x3c && b != 0x3e && b != 0x2f && b != 0x3d
        }
}

/// The tag and its attributes have plain names.
pub open spec fn has_plain_names(e: EventView) -> bool {
    &&& is_plain_name(e.name)
    &&& forall|i: int| 0 <= i < e.attributes.len() ==> is_plain_name(#[trigger] e.attributes[i].0)
}

/// The attributes that are not named `key`.
pub open spec fn attributes_without(
    attributes: Seq<(Seq<u8>, Seq<u8>)>,
    key: Seq<u8>,
) -> Seq<(Seq<u8>, Seq<u8>)> {
    attributes.filter(|a: (Seq<u8>, Seq<u8>)| a.0 != key)
}

/// The tag `e` without its attributes named `key`, written anew.
pub open spec fn without_attribute(e: EventView, key: Seq<u8>) -> EventView {
    let attributes = attributes_without(e.attributes, key);
    EventView {
        kind: e.kind,
        name: e.name,
        attributes,
        markup: tag_markup(e.name, attributes, e.kind),
    }
}

/// `e` is one of `events`, or a tag with plain names among them without its attributes named `key`.
pub open spec fn comes_from(e: EventView, events: Seq<EventView>, key: Seq<u8>) -> bool {
    exists|j: int|
        0 <= j < events.len() && (e == #[trigger] events[j] || (is_tag(events[j])
            && has_plain_names(events[j]) && e == without_attribute(events[j], key)))
}

/// Each event of `list` comes from `events`.
pub open spec fn come_from(list: Seq<EventView>, events: Seq<EventView>, key: Seq<u8>) -> bool {
    forall|i: int| 0 <= i < list.len() ==> comes_from(#[trigger] list[i], events, key)
}

/// The opening and self-closing tags of `events`.
pub open spec fn tags_of(events: Seq<EventView>) -> Seq<EventView> {
    events.filter(|e: EventView| is_tag(e))
}

/// Where `input` is the markup of one element of a document, `doc` holds the events of that
/// element.
#[verifier::opaque]
pub open spec fn reads_element_back(input: Seq<u8>, doc: DocumentView) -> bool {
    forall|x: Seq<u8>, from: int, to: int|
        0 <= from <= to <= document(x).events.len() && is_one_element(
            document(x).events.subrange(from, to),
        ) && input == #[trigger] markup_of(document(x).events.subrange(from, to)) ==> doc == (
        DocumentView { events: document(x).events.subrange(from, to), failure: None })
}

/// Where `input` is a complete document and another one behind it, `doc` holds the events of both.
#[verifier::opaque]
pub open spec fn reads_in_parts(input: Seq<u8>, doc: DocumentView) -> bool {
    forall|a: Seq<u8>, b: Seq<u8>|
        input == #[trigger] (a + b) && is_complete(a) && is_complete(b) && opens_with_markup(b)
            ==> doc == (DocumentView {
            events: document(a).events + document(b).events,
            failure: None,
        })
}

/// Where `input` is the markup of events that come from a document and are properly nested as it
/// is, `doc` holds no error, and the tags that these events hold.
#[verifier::opaque]
pub open spec fn reads_tags_back(input: Seq<u8>, doc: DocumentView) -> bool {
    forall|list: Seq<EventView>, x: Seq<u8>, key: Seq<u8>|
        input == markup_of(list) && #[trigger] come_from(list, document(x).events, key) && (nesting(
            document(x).events,
            Seq::empty(),
        ) is Some ==> nesting(list, Seq::empty()) is Some) ==> doc.failure is None && tags_of(
            doc.events,
        ) == tags_of(list)
}

/// `bytes` are blanks.
pub open spec fn are_blanks(bytes: Seq<u8>) -> bool {
    forall|i: int| 0 <= i < bytes.len() ==> is_blank(#[trigger] bytes[i])
}

/// `b` is a space, a tab or the end of a line.
pub open spec fn is_blank(b: u8) -> bool {
    b == 0x20 || b == 0x09 || b == 0x0a || b == 0x0d
}

/// A closing tag with `blanks` behind its name.
pub open spec fn closing_tag(name: Seq<u8>, blanks: Seq<u8>) -> Seq<u8> {
    seq![0x3cu8, 0x2fu8] + name + blanks + seq![0x3eu8]
}

/// `word` is `DOCTYPE`, in capitals or small letters.
pub open spec fn is_doctype_word(word: Seq<u8>) -> bool {
    let capitals = seq![0x44u8, 0x4fu8, 0x43u8, 0x54u8, 0x59u8, 0x50u8, 0x45u8];
    &&& word.len() == capitals.len()
    &&& forall|i: int|
        0 <= i < word.len() ==> #[trigger] word[i] == capitals[i] || word[i] == capitals[i] + 0x20
}

/// A document type declaration: its word, blanks and what it holds.
pub open spec fn type_declaration(word: Seq<u8>, blanks: Seq<u8>, content: Seq<u8>) -> Seq<u8> {
    seq![0x3cu8, 0x21u8] + word + blanks + content + seq![0x3eu8]
}

/// The event is written `source` in its document: just as its markup, or with blanks behind the
/// name in a closing tag, or with small letters and other blanks at the front of a document type
/// declaration.
pub open spec fn is_source_of(source: Seq<u8>, e: EventView) -> bool {
    ||| source == e.markup
    ||| e.kind == EventKind::End && e.markup == closing_tag(e.name, Seq::empty())
        && exists|blanks: Seq<u8>|
        are_blanks(blanks) && source == #[trigger] closing_tag(e.name, blanks)
    ||| exists|word: Seq<u8>, blanks: Seq<u8>, content: Seq<u8>|
        is_doctype_word(word) && are_blanks(blanks) && source == #[trigger] type_declaration(
            word,
            blanks,
            content,
        ) && e.markup == type_declaration(encode_utf8("DOCTYPE"@), seq![0x20u8], content)
}

/// The byte strings, one after the other.
pub open spec fn joined(list: Seq<Seq<u8>>) -> Seq<u8>
    decreases list.len(),
{
    if list.len() == 0 {
        Seq::empty()
    } else {
        list[0] + joined(list.skip(1))
    }
}

/// The mark that can stand before a text in UTF-8.
pub open spec fn byte_order_mark() -> Seq<u8> {
    seq![0xefu8, 0xbbu8, 0xbfu8]
}

/// `sources` are how the events are written, one after the other, and `input` is made of them, with
/// or without a byte-order mark before them.
pub open spec fn are_sources(
    sources: Seq<Seq<u8>>,
    input: Seq<u8>,
    events: Seq<EventView>,
) -> bool {
    &&& sources.len() == events.len()
    &&& forall|i: int| 0 <= i < events.len() ==> is_source_of(#[trigger] sources[i], events[i])
    &&& input == joined(sources) || input == byte_order_mark() + joined(sources)
}

/// `input` is the events as they are written: their markup, but for a byte-order mark before it,
/// blanks in closing tags, and the case and the blanks at the front of document type declarations.
pub open spec fn is_text_of(input: Seq<u8>, events: Seq<EventView>) -> bool {
    exists|sources: Seq<Seq<u8>>| #[trigger] are_sources(sources, input, events)
}

/// `output` is `input` with all that it holds, byte for byte, but for a byte-order mark before it,
/// blanks in closing tags, and the case and the blanks at the front of document type declarations.
pub open spec fn is_same_text(input: Seq<u8>, output: Seq<u8>) -> bool {
    exists|events: Seq<EventView>|
        output == #[trigger] markup_of(events) && is_text_of(input, events)
}

/// `quick_xml::Reader::from_reader`: a reader that gives what `document` names.
///
/// The reader checks that each closing tag closes the innermost open element, so what it gives is
/// properly nested. It goes through its input from mark to mark: a tag ends at the first `>`
/// outside quotes, a text at the next `<` or `&`, and what follows has no say in it; the only
/// things that it remembers are the names of the open elements. `Writer::write_event` writes an
/// event with the bytes that it was read from, but for blanks at the end of a closing tag and
/// behind `<!DOCTYPE`. So the markup of an element is read as that element again, and two complete
/// documents one behind the other are read as both of them, if the second opens with a mark. In
/// the markup of events that are picked from a document, texts can run into one another, but the
/// tags are read again, and so is a tag that is written anew with some of its attributes. What is
/// read to its end is all given out: no byte of the input but a byte-order mark is passed over.
#[verifier::external_body]
fn open_reader<'a>(input: &'a [u8]) -> (reader: Reader<&'a [u8]>)
    ensures
        unread(reader) == document(input@),
        nesting(unread(reader).events, Seq::empty()) is Some,
        reads_element_back(input@, unread(reader)),
        reads_in_parts(input@, unread(reader)),
        reads_tags_back(input@, unread(reader)),
        unread(reader).failure is None ==> is_text_of(input@, unread(reader).events),
{
    Reader::from_reader(input)
}

/// `quick_xml::Reader::read_event_into`: hands out the next event, or the error that ends the
/// reading, or `Eof` where nothing is left. The event comes as a plain value: its kind, its name
/// or content, those attributes of a tag that `BytesStart::attributes` can read, and its markup
/// as `quick_xml::Writer::write_event` writes it. `buf` is scratch space. Nothing is said of the
/// reader after an error.
#[verifier::external_body]
fn read_event(reader: &mut Reader<&[u8]>, buf: &mut Vec<u8>) -> (r: Result<
    XmlEvent,
    quick_xml::Error,
>)
    ensures
        (match r {
            Ok(e) => if e.kind == EventKind::Eof {
                &&& unread(*old(reader)).events.len() == 0
                &&& unread(*old(reader)).failure is None
            } else {
                &&& unread(*old(reader)).events.len() > 0
                &&& unread(*old(reader)).events[0] == e@
                &&& unread(*final(reader)).events == unread(*old(reader)).events.skip(1)
                &&& unread(*final(reader)).failure == unread(*old(reader)).failure
            },
            Err(e) => {
                &&& unread(*old(reader)).events.len() == 0
                &&& unread(*old(reader)).failure == Some(e)
            },
        }),
{
    let event = reader.read_event_into(buf)?;
    let mut markup = Vec::new();
    Writer::new(&mut markup).write_event(event.borrow())?;
    let (name, attributes) = match &event {
        Start(e) | Empty(e) => (
            e.name().0.to_vec(),
            e.attributes().flatten().map(|a| (a.key.0.to_vec(), a.value.to_vec())).collect(),
        ),
        _ => (event.to_vec(), vec![]),
    };
    let kind = match event {
        Start(_) => EventKind::Start, Empty(_) => EventKind::Empty, End(_) => EventKind::End,
        Eof => EventKind::Eof, _ => EventKind::Other,
    };
    Ok(XmlEvent { kind, name, attributes, markup })
}

/// Reads a whole document.
pub fn read_document(input: &[u8]) -> (r: Document)
    ensures
        r@ == document(input@),
        nesting(r@.events, Seq::empty()) is Some,
        reads_element_back(input@, r@),
        reads_in_parts(input@, r@),
        reads_tags_back(input@, r@),
        r@.failure is None ==> is_text_of(input@, r@.events),
{
    let mut reader = open_reader(input);
    let mut buf: Vec<u8> = Vec::new();
    let mut events: Vec<XmlEvent> = Vec::new();
    let mut failure: Option<quick_xml::Error> = None;
    let mut done: bool = false;
    while !done
        invariant
            !done ==> event_views(events@) + unread(reader).events == document(input@).events,
            !done ==> unread(reader).failure == document(input@).failure,
            !done ==> failure is None,
            done ==> event_views(events@) == document(input@).events,
            done ==> failure == document(input@).failure,
        decreases (if done { 0nat } else { 1 + unread(reader).events.len() }),
    {
        buf.clear();
        let ghost before = unread(reader);
        let ghost read = events@;
        match read_event(&mut reader, &mut buf) {
            Ok(e) => {
                if e.kind == EventKind::Eof {
                    assert(event_views(read) + before.events =~= event_views(read));
                    done = true;
                } else {
                    events.push(e);
                    assert(event_views(events@) =~= event_views(read).push(before.events[0]));
                    assert(event_views(read).push(before.events[0]) + before.events.skip(1)
                        =~= event_views(read) + before.events);
                }
            },
            Err(e) => {
                assert(event_views(read) + before.events =~= event_views(read));
                failure = Some(e);
                done = true;
            },
        }
    }
    Document { events, failure }
}

/// The event opens an element or is a whole one.
pub open spec fn is_tag(e: EventView) -> bool {
    e.kind == EventKind::Start || e.kind == EventKind::Empty
}

/// The position of the first colon of `name`; the length of `name` if it holds none.
pub open spec fn first_colon(name: Seq<u8>) -> int
    decreases name.len(),
{
    if name.len() == 0 || name[0] == 0x3a {
        0
    } else {
        1 + first_colon(name.skip(1))
    }
}

/// What stands behind the first colon of `name`; the whole of it if it holds none.
pub open spec fn local_part(name: Seq<u8>) -> Seq<u8> {
    if first_colon(name) < name.len() {
        name.skip(first_colon(name) + 1)
    } else {
        name
    }
}

/// The event is a tag whose local name is `local`.
pub open spec fn is_tag_of(e: EventView, local: Seq<char>) -> bool {
    is_tag(e) && local_part(e.name) == encode_utf8(local)
}

/// The position of the first colon of `name`; the length of `name` if it holds none.
fn find_colon(name: &[u8]) -> (r: usize)
    ensures
        r == first_colon(name@),
        r <= name@.len(),
{
    let mut i: usize = 0;
    proof {
        assert(name@.skip(0) =~= name@);
    }
    while i < name.len() && name[i] != 0x3a
        invariant
            i <= name.len(),
            first_colon(name@) == i + first_colon(name@.skip(i as int)),
        decreases name.len() - i,
    {
        proof {
            assert(name@.skip(i as int).skip(1) =~= name@.skip(i + 1));
        }
        i += 1;
    }
    i
}

/// Whether `e` is a tag whose local name is `local`.
pub fn has_local_name(e: &XmlEvent, local: &str) -> (r: bool)
    ensures
        r == is_tag_of(e@, local@),
{
    if e.kind != EventKind::Start && e.kind != EventKind::Empty {
        return false;
    }
    let name: &[u8] = e.name.as_slice();
    let colon: usize = find_colon(name);
    if colon < name.len() {
        let (front, back) = name.split_at(colon + 1);
        assert(back@ =~= name@.skip(colon + 1));
        bytes_are(back, local)
    } else {
        bytes_are(name, local)
    }
}

/// The text that `bytes` stand for in UTF-8, with U+FFFD in place of what is no UTF-8.
pub uninterp spec fn lossy_text(bytes: Seq<u8>) -> Seq<char>;

/// `String::from_utf8_lossy`: valid UTF-8 is decoded as it stands; the rest is replaced.
#[verifier::external_body]
pub(crate) fn decode_lossy(bytes: &[u8]) -> (r: String)
    ensures
        r@ == lossy_text(bytes@),
        valid_utf8(bytes@) ==> r@ == decode_utf8(bytes@),
{
    String::from_utf8_lossy(bytes).into_owned()
}

/// The text that an escaped text stands for; `None` if it holds a reference to an unknown entity
/// or one that does not end.
pub uninterp spec fn unescaped(text: Seq<char>) -> Option<Seq<char>>;

/// `quick_xml::escape::unescape`: each reference to a character or to one of the five predefined
/// entities is replaced by what it stands for. A text without ampersands stands for itself, and
/// an escaped text for what was escaped.
#[verifier::external_body]
fn unescape_text(text: &str) -> (r: Option<String>)
    ensures
        text::optional(r) == unescaped(text@),
        !text@.contains('&') ==> text::optional(r) == Some(text@),
        forall|s: Seq<char>| text@ == #[trigger] escaped(s) ==> text::optional(r) == Some(s),
{
    unescape(text).ok().map(|text| text.into_owned())
}

/// The text that the value of an attribute stands for. A value with a reference that cannot be
/// resolved is taken as it stands.
pub open spec fn value_text(value: Seq<u8>) -> Seq<char> {
    match unescaped(lossy_text(value)) {
        Some(text) => text,
        None => lossy_text(value),
    }
}

/// The text that the value of an attribute stands for.
fn read_value(value: &[u8]) -> (r: String)
    ensures
        r@ == value_text(value@),
        valid_utf8(value@) && !decode_utf8(value@).contains('&') ==> r@ == decode_utf8(value@),
        forall|s: Seq<char>| value@ == #[trigger] encode_utf8(escaped(s)) ==> r@ == s,
{
    let raw: String = decode_lossy(value);
    proof {
        assert forall|s: Seq<char>| value@ == #[trigger] encode_utf8(
            escaped(s),
        ) implies raw@ == escaped(s) by {
            encode_utf8_valid_utf8(escaped(s));
            encode_utf8_decode_utf8(escaped(s));
        }
    }
    match unescape_text(raw.as_str()) {
        Some(text) => text,
        None => raw,
    }
}

/// The value of the first attribute named `key`, if there is one.
pub open spec fn find_attribute(attributes: Seq<(Seq<u8>, Seq<u8>)>, key: Seq<u8>) -> Option<
    Seq<u8>,
>
    decreases attributes.len(),
{
    if attributes.len() == 0 {
        None
    } else if attributes[0].0 == key {
        Some(attributes[0].1)
    } else {
        find_attribute(attributes.skip(1), key)
    }
}

/// The text of the first attribute of `e` named `key`, if there is one.
pub open spec fn attribute_text(e: EventView, key: Seq<char>) -> Option<Seq<char>> {
    match find_attribute(e.attributes, encode_utf8(key)) {
        Some(value) => Some(value_text(value)),
        None => None,
    }
}

/// The text of the first attribute of `e` named `key`; empty if there is none.
pub open spec fn attribute_or_empty(e: EventView, key: Seq<char>) -> Seq<char> {
    match attribute_text(e, key) {
        Some(text) => text,
        None => Seq::empty(),
    }
}

/// The text of the first attribute of `e` named `key`, if there is one. A value without ampersands
/// is its text, and the text of a value that was escaped is what was escaped.
pub fn attr_value(e: &XmlEvent, key: &str) -> (r: Option<String>)
    ensures
        (match r {
            Some(text) => attribute_text(e@, key@) == Some(text@),
            None => attribute_text(e@, key@) is None,
        }),
        find_attribute(e@.attributes, encode_utf8(key@)) matches Some(v) ==> {
            &&& valid_utf8(v) && !decode_utf8(v).contains('&') ==> text::optional(r) == Some(
                decode_utf8(v),
            )
            &&& forall|s: Seq<char>| v == #[trigger] encode_utf8(escaped(s)) ==> text::optional(r)
                == Some(s)
        },
{
    let ghost all = e@.attributes;
    let mut i: usize = 0;
    proof {
        assert(all.skip(0) =~= all);
    }
    while i < e.attributes.len()
        invariant
            all == e@.attributes,
            i <= e.attributes.len(),
            find_attribute(all, encode_utf8(key@)) == find_attribute(
                all.skip(i as int),
                encode_utf8(key@),
            ),
        decreases e.attributes.len() - i,
    {
        proof {
            assert(all.skip(i as int)[0] == all[i as int]);
            assert(all.skip(i as int).skip(1) =~= all.skip(i + 1));
        }
        if bytes_are(e.attributes[i].0.as_slice(), key) {
            return Some(read_value(e.attributes[i].1.as_slice()));
        }
        i += 1;
    }
    None
}

/// The text of the first attribute of `e` named `key`; empty if there is none.
pub fn attr_or_empty(e: &XmlEvent, key: &str) -> (r: String)
    ensures
        r@ == attribute_or_empty(e@, key@),
{
    match attr_value(e, key) {
        Some(text) => text,
        None => String::new(),
    }
}

/// `c` as it stands in an attribute value.
pub open spec fn escaped_char(c: char) -> Seq<char> {
    if c == '<' {
        "&lt;"@
    } else if c == '>' {
        "&gt;"@
    } else if c == '&' {
        "&amp;"@
    } else if c == '\'' {
        "&apos;"@
    } else if c == '"' {
        "&quot;"@
    } else {
        seq![c]
    }
}

/// `s` as it stands in an attribute value.
pub open spec fn escaped(s: Seq<char>) -> Seq<char>
    decreases s.len(),
{
    if s.len() == 0 {
        Seq::empty()
    } else {
        escaped_char(s[0]) + escaped(s.skip(1))
    }
}

/// `quick_xml::escape::escape`: the characters `<`, `>`, `&`, `'` and `"` are escaped.
#[verifier::external_body]
pub(crate) fn escape_text(text: &str) -> (r: String)
    ensures
        r@ == escaped(text@),
{
    escape(text).into_owned()
}

/// `bytes` with each double quote escaped.
pub open spec fn without_double_quotes(bytes: Seq<u8>) -> Seq<u8>
    decreases bytes.len(),
{
    if bytes.len() == 0 {
        Seq::empty()
    } else {
        without_double_quotes(bytes.drop_last()) + (if bytes.last() == 0x22 {
            encode_utf8("&quot;"@)
        } else {
            seq![bytes.last()]
        })
    }
}

/// The value of an attribute in quotes that it does not hold: in double quotes, else in single
/// ones. A value that holds both has its double quotes escaped.
pub open spec fn quoted(value: Seq<u8>) -> Seq<u8> {
    if !value.contains(0x22) {
        seq![0x22u8] + value + seq![0x22u8]
    } else if !value.contains(0x27) {
        seq![0x27u8] + value + seq![0x27u8]
    } else {
        seq![0x22u8] + without_double_quotes(value) + seq![0x22u8]
    }
}

/// An attribute as it stands in a tag, with the blank before it and its value as it is.
pub open spec fn attribute_markup(key: Seq<u8>, value: Seq<u8>) -> Seq<u8> {
    seq![0x20u8] + key + seq![0x3du8] + quoted(value)
}

/// Attributes as they stand in a tag.
pub open spec fn attributes_markup(attributes: Seq<(Seq<u8>, Seq<u8>)>) -> Seq<u8>
    decreases attributes.len(),
{
    if attributes.len() == 0 {
        Seq::empty()
    } else {
        attributes_markup(attributes.drop_last()) + attribute_markup(
            attributes.last().0,
            attributes.last().1,
        )
    }
}

/// How a tag ends.
pub open spec fn tag_end(kind: EventKind) -> Seq<u8> {
    if kind == EventKind::Empty {
        seq![0x2fu8, 0x3eu8]
    } else {
        seq![0x3eu8]
    }
}

/// A tag as it is written out.
pub open spec fn tag_markup(
    name: Seq<u8>,
    attributes: Seq<(Seq<u8>, Seq<u8>)>,
    kind: EventKind,
) -> Seq<u8> {
    seq![0x3cu8] + name + attributes_markup(attributes) + tag_end(kind)
}

/// Whether `bytes` hold `wanted`.
fn holds_byte(bytes: &[u8], wanted: u8) -> (r: bool)
    ensures
        r == bytes@.contains(wanted),
{
    let mut i: usize = 0;
    while i < bytes.len()
        invariant
            i <= bytes.len(),
            forall|j: int| 0 <= j < i ==> bytes@[j] != wanted,
        decreases bytes.len() - i,
    {
        if bytes[i] == wanted {
            return true;
        }
        i += 1;
    }
    false
}

/// Writes out bytes with each double quote escaped.
fn push_without_double_quotes(out: &mut Vec<u8>, bytes: &[u8])
    ensures
        final(out)@ == old(out)@ + without_double_quotes(bytes@),
{
    let ghost before = out@;
    let mut i: usize = 0;
    proof {
        assert(out@ =~= before + without_double_quotes(bytes@.take(0)));
    }
    while i < bytes.len()
        invariant
            i <= bytes.len(),
            out@ == before + without_double_quotes(bytes@.take(i as int)),
        decreases bytes.len() - i,
    {
        let ghost now = out@;
        proof {
            assert(bytes@.take(i + 1).drop_last() =~= bytes@.take(i as int));
        }
        if bytes[i] == 0x22 {
            out.extend_from_slice("&quot;".as_bytes());
            assert(out@ =~= now + encode_utf8("&quot;"@));
        } else {
            out.push(bytes[i]);
            assert(out@ =~= now + seq![bytes@[i as int]]);
        }
        assert(out@ =~= before + without_double_quotes(bytes@.take(i + 1)));
        i += 1;
    }
    assert(bytes@.take(i as int) =~= bytes@);
}

/// Writes out an attribute.
pub(crate) fn push_attribute(out: &mut Vec<u8>, key: &[u8], value: &[u8])
    ensures
        final(out)@ == old(out)@ + attribute_markup(key@, value@),
{
    let ghost before = out@;
    out.push(0x20);
    out.extend_from_slice(key);
    out.push(0x3d);
    let ghost named = out@;
    assert(named =~= before + (seq![0x20u8] + key@ + seq![0x3du8]));
    if !holds_byte(value, 0x22) {
        out.push(0x22);
        out.extend_from_slice(value);
        out.push(0x22);
    } else if !holds_byte(value, 0x27) {
        out.push(0x27);
        out.extend_from_slice(value);
        out.push(0x27);
    } else {
        out.push(0x22);
        push_without_double_quotes(out, value);
        out.push(0x22);
    }
    assert(out@ =~= named + quoted(value@));
    assert(out@ =~= before + attribute_markup(key@, value@));
}

/// Writes out the end of a tag.
pub(crate) fn push_tag_end(out: &mut Vec<u8>, kind: EventKind)
    ensures
        final(out)@ == old(out)@ + tag_end(kind),
{
    let ghost before = out@;
    if kind == EventKind::Empty {
        out.push(0x2f);
    }
    out.push(0x3e);
    assert(out@ =~= before + tag_end(kind));
}

/// How deep the markup is nested in elements named `name` behind the event `e`.
pub open spec fn depth_after(e: EventView, name: Seq<u8>, depth: nat) -> nat {
    if e.name != name {
        depth
    } else if e.kind == EventKind::Start {
        depth + 1
    } else if e.kind == EventKind::End {
        (depth - 1) as nat
    } else {
        depth
    }
}

/// How many of `events` belong to an element named `name` that is open `depth` times before
/// them, up to the tag that closes it; `None` if none of them closes it.
pub open spec fn span(events: Seq<EventView>, name: Seq<u8>, depth: nat) -> Option<nat>
    decreases events.len(),
{
    if depth == 0 {
        Some(0)
    } else if events.len() == 0 {
        None
    } else {
        match span(events.skip(1), name, depth_after(events[0], name, depth)) {
            Some(n) => Some(n + 1),
            None => None,
        }
    }
}

/// The markup of `events`, one after the other.
pub open spec fn markup_of(events: Seq<EventView>) -> Seq<u8>
    decreases events.len(),
{
    if events.len() == 0 {
        Seq::empty()
    } else {
        events[0].markup + markup_of(events.skip(1))
    }
}

/// An element ends within the events that it has.
pub proof fn lemma_span_bound(events: Seq<EventView>, name: Seq<u8>, depth: nat)
    ensures
        span(events, name, depth) matches Some(n) ==> n <= events.len(),
    decreases events.len(),
{
    if depth > 0 && events.len() > 0 {
        lemma_span_bound(events.skip(1), name, depth_after(events[0], name, depth));
    }
}

/// The markup of two lists of events, one behind the other.
pub proof fn lemma_markup_concat(a: Seq<EventView>, b: Seq<EventView>)
    ensures
        markup_of(a + b) == markup_of(a) + markup_of(b),
    decreases a.len(),
{
    if a.len() == 0 {
        assert(a + b =~= b);
        assert(markup_of(a) + markup_of(b) =~= markup_of(b));
    } else {
        assert((a + b).skip(1) =~= a.skip(1) + b);
        lemma_markup_concat(a.skip(1), b);
        assert(markup_of(a + b) =~= markup_of(a) + markup_of(b));
    }
}

/// Finds the end of the element named `name` whose opening tag stands just before position
/// `from`: the position behind its closing tag, or `None` if the document does not close it.
pub fn skip_element(events: &Vec<XmlEvent>, from: usize, name: &Vec<u8>) -> (r: Option<usize>)
    requires
        1 <= from <= events@.len(),
    ensures
        (match r {
            Some(end) => {
                &&& from <= end <= events@.len()
                &&& span(event_views(events@).skip(from as int), name@, 1) == Some(
                    (end - from) as nat,
                )
            },
            None => span(event_views(events@).skip(from as int), name@, 1) is None,
        }),
{
    let ghost all = event_views(events@);
    let mut depth: usize = 1;
    let mut i: usize = from;
    while depth > 0 && i < events.len()
        invariant
            1 <= from <= i <= events.len(),
            all == event_views(events@),
            depth <= 1 + (i - from),
            span(all.skip(from as int), name@, 1) == (match span(
                all.skip(i as int),
                name@,
                depth as nat,
            ) {
                Some(n) => Some((n + (i - from)) as nat),
                None => None,
            }),
        decreases events.len() - i,
    {
        let e: &XmlEvent = &events[i];
        proof {
            assert(all.skip(i as int)[0] == e@);
            assert(all.skip(i as int).skip(1) =~= all.skip(i + 1));
        }
        if same_bytes(e.name.as_slice(), name.as_slice()) {
            if e.kind == EventKind::Start {
                depth += 1;
            } else if e.kind == EventKind::End {
                depth -= 1;
            }
        }
        i += 1;
    }
    if depth == 0 {
        Some(i)
    } else {
        None
    }
}

/// The markup of the events from position `from` up to position `to`.
pub fn collect_markup(events: &Vec<XmlEvent>, from: usize, to: usize) -> (r: Vec<u8>)
    requires
        from <= to <= events@.len(),
    ensures
        r@ == markup_of(event_views(events@).subrange(from as int, to as int)),
{
    let ghost all = event_views(events@);
    let mut out: Vec<u8> = Vec::new();
    let mut i: usize = from;
    proof {
        assert(all.subrange(from as int, from as int) =~= Seq::empty());
    }
    while i < to
        invariant
            from <= i <= to <= events@.len(),
            all == event_views(events@),
            out@ == markup_of(all.subrange(from as int, i as int)),
        decreases to - i,
    {
        proof {
            let one = seq![all[i as int]];
            assert(all.subrange(from as int, i + 1) =~= all.subrange(from as int, i as int) + one);
            lemma_markup_concat(all.subrange(from as int, i as int), one);
            reveal_with_fuel(markup_of, 2);
            assert(markup_of(one) =~= events@[i as int].markup@);
        }
        out.extend_from_slice(events[i].markup.as_slice());
        i += 1;
    }
    out
}

/// Collects the markup of the element whose opening tag stands at position `at`, up to its
/// closing tag, or up to the end of the events if none of them closes it; and the position
/// behind its closing tag, if there is one.
pub fn collect_element(events: &Vec<XmlEvent>, at: usize) -> (r: (Vec<u8>, Option<usize>))
    requires
        at < events@.len(),
    ensures
        ({
            let here = event_views(events@).skip(at as int);
            match r.1 {
                Some(end) => {
                    &&& at < end <= events@.len()
                    &&& span(here.skip(1), here[0].name, 1) == Some((end - at - 1) as nat)
                    &&& r.0@ == markup_of(here.take(end - at))
                },
                None => {
                    &&& span(here.skip(1), here[0].name, 1) is None
                    &&& r.0@ == markup_of(here)
                },
            }
        }),
{
    let ghost all = event_views(events@);
    let ghost here = all.skip(at as int);
    proof {
        assert(here[0] == events@[at as int]@);
        assert(here.skip(1) =~= all.skip(at + 1));
        assert(all.subrange(at as int, all.len() as int) =~= here);
    }
    let len: usize = events.len();
    match skip_element(events, at + 1, &events[at].name) {
        Some(end) => {
            assert(all.subrange(at as int, end as int) =~= here.take(end - at));
            (collect_markup(events, at, end), Some(end))
        },
        None => (collect_markup(events, at, len), None),
    }
}

/// How often `name` stands in a list.
pub open spec fn occurrences(list: Seq<Seq<u8>>, name: Seq<u8>) -> nat
    decreases list.len(),
{
    if list.len() == 0 {
        0
    } else {
        occurrences(list.drop_last(), name) + (if list.last() == name {
            1nat
        } else {
            0nat
        })
    }
}

/// In properly nested events, an element named `name` inside the elements `open` ends where the
/// count of the elements of that name says, and behind it just `open` are open. It does end if no
/// more elements than `open` are open in the end. `inner` are the elements open within it.
pub proof fn lemma_span_in_nesting(
    events: Seq<EventView>,
    open: Seq<Seq<u8>>,
    name: Seq<u8>,
    inner: Seq<Seq<u8>>,
)
    requires
        nesting(events, open.push(name) + inner) is Some,
    ensures
        ({
            let end = nesting(events, open.push(name) + inner);
            let n = span(events, name, 1 + occurrences(inner, name));
            &&& n is Some ==> n->0 <= events.len() && nesting(events.skip(n->0 as int), open) == end
            &&& end->0.len() <= open.len() ==> n is Some
        }),
    decreases events.len(),
{
    if events.len() > 0 {
        let e = events[0];
        let rest = events.skip(1);
        let all = open.push(name) + inner;
        lemma_span_bound(events, name, 1 + occurrences(inner, name));
        if e.kind == EventKind::Start {
            let deeper = inner.push(e.name);
            assert(all.push(e.name) =~= open.push(name) + deeper);
            assert(deeper.drop_last() =~= inner);
            lemma_span_in_nesting(rest, open, name, deeper);
            if let Some(n) = span(rest, name, 1 + occurrences(deeper, name)) {
                assert(events.skip((n + 1) as int) =~= rest.skip(n as int));
            }
        } else if e.kind == EventKind::End {
            if inner.len() > 0 {
                let higher = inner.drop_last();
                assert(all.last() == inner.last());
                assert(all.drop_last() =~= open.push(name) + higher);
                lemma_span_in_nesting(rest, open, name, higher);
                if let Some(n) = span(rest, name, 1 + occurrences(higher, name)) {
                    assert(events.skip((n + 1) as int) =~= rest.skip(n as int));
                }
            } else {
                assert(all =~= open.push(name));
                assert(all.drop_last() =~= open);
                assert(span(rest, name, 0) == Some(0nat));
            }
        } else {
            lemma_span_in_nesting(rest, open, name, inner);
            if let Some(n) = span(rest, name, 1 + occurrences(inner, name)) {
                assert(events.skip((n + 1) as int) =~= rest.skip(n as int));
            }
        }
    }
}

/// A tag is among the events exactly if it is among their tags.
pub proof fn lemma_tags_of(events: Seq<EventView>, e: EventView)
    requires
        is_tag(e),
    ensures
        tags_of(events).contains(e) <==> events.contains(e),
{
    let pred = |e: EventView| is_tag(e);
    if events.contains(e) {
        let i = choose|i: int| 0 <= i < events.len() && events[i] == e;
        events.lemma_filter_contains(pred, i);
    }
    if tags_of(events).contains(e) {
        events.lemma_filter_contains_rev(pred, e);
    }
}

/// What a list of attributes with one more at its end is without those named `key`.
pub proof fn lemma_attributes_without_push(
    attributes: Seq<(Seq<u8>, Seq<u8>)>,
    last: (Seq<u8>, Seq<u8>),
    key: Seq<u8>,
)
    ensures
        attributes_without(attributes.push(last), key) == (if last.0 != key {
            attributes_without(attributes, key).push(last)
        } else {
            attributes_without(attributes, key)
        }),
{
    reveal(Seq::filter);
    assert(attributes.push(last).drop_last() =~= attributes);
}

/// The attributes that are not named `key` are those with another name.
pub proof fn lemma_attributes_without(
    attributes: Seq<(Seq<u8>, Seq<u8>)>,
    key: Seq<u8>,
    a: (Seq<u8>, Seq<u8>),
)
    ensures
        attributes_without(attributes, key).contains(a) <==> attributes.contains(a) && a.0 != key,
    decreases attributes.len(),
{
    reveal(Seq::filter);
    let kept = attributes_without(attributes, key);
    if attributes.len() > 0 {
        let front = attributes.drop_last();
        let last = attributes.last();
        let kept_front = attributes_without(front, key);
        lemma_attributes_without(front, key, a);
        lemma_attributes_without_push(front, last, key);
        assert(attributes =~= front.push(last));
        if front.contains(a) {
            let i = choose|i: int| 0 <= i < front.len() && front[i] == a;
            assert(attributes[i] == a);
        }
        if a == last {
            assert(attributes[front.len() as int] == a);
            assert(a.0 != key ==> kept[kept_front.len() as int] == a);
        }
        if kept_front.contains(a) {
            let i = choose|i: int| 0 <= i < kept_front.len() && kept_front[i] == a;
            assert(kept[i] == a);
        }
    }
}

/// Leaving out attributes does not change those of another name.
pub proof fn lemma_find_in_rest(
    attributes: Seq<(Seq<u8>, Seq<u8>)>,
    gone: Seq<u8>,
    key: Seq<u8>,
)
    requires
        key != gone,
    ensures
        find_attribute(attributes_without(attributes, gone), key) == find_attribute(
            attributes,
            key,
        ),
    decreases attributes.len(),
{
    reveal(Seq::filter);
    if attributes.len() > 0 {
        let front = attributes.drop_last();
        let last = attributes.last();
        assert(attributes =~= front.push(last));
        lemma_attributes_without_push(front, last, gone);
        lemma_find_in_rest(front, gone, key);
        lemma_find_push(front, last, key);
        lemma_find_push(attributes_without(front, gone), last, key);
    }
}

/// The first attribute named `key` in a list with one more at its end.
proof fn lemma_find_push(
    attributes: Seq<(Seq<u8>, Seq<u8>)>,
    last: (Seq<u8>, Seq<u8>),
    key: Seq<u8>,
)
    ensures
        find_attribute(attributes.push(last), key) == (match find_attribute(attributes, key) {
            Some(value) => Some(value),
            None => if last.0 == key {
                Some(last.1)
            } else {
                None
            },
        }),
    decreases attributes.len(),
{
    let all = attributes.push(last);
    reveal_with_fuel(find_attribute, 2);
    if attributes.len() > 0 {
        assert(all[0] == attributes[0]);
        assert(all.skip(1) =~= attributes.skip(1).push(last));
        lemma_find_push(attributes.skip(1), last, key);
    } else {
        assert(all[0] == last);
        assert(all.skip(1).len() == 0);
    }
}

/// More events behind an element that is closed do not move its end.
pub proof fn lemma_span_extends(
    events: Seq<EventView>,
    more: Seq<EventView>,
    name: Seq<u8>,
    depth: nat,
)
    requires
        span(events, name, depth) is Some,
    ensures
        span(events + more, name, depth) == span(events, name, depth),
    decreases events.len(),
{
    if depth > 0 {
        assert((events + more)[0] == events[0]);
        assert((events + more).skip(1) =~= events.skip(1) + more);
        lemma_span_extends(events.skip(1), more, name, depth_after(events[0], name, depth));
    }
}

/// Escaped text stays within its quotes: it holds no quotes and no angle brackets.
pub proof fn law_escaped_text_stays_in_its_quotes(s: Seq<char>)
    ensures
        forall|i: int|
            0 <= i < escaped(s).len() ==> {
                let c = #[trigger] escaped(s)[i];
                c != '"' && c != '\'' && c != '<' && c != '>'
            },
    decreases s.len(),
{
    if s.len() > 0 {
        law_escaped_text_stays_in_its_quotes(s.skip(1));
        reveal_strlit("&lt;");
        reveal_strlit("&gt;");
        reveal_strlit("&amp;");
        reveal_strlit("&apos;");
        reveal_strlit("&quot;");
        let first = escaped_char(s[0]);
        let rest = escaped(s.skip(1));
        assert forall|i: int| 0 <= i < escaped(s).len() implies {
            let c = #[trigger] escaped(s)[i];
            c != '"' && c != '\'' && c != '<' && c != '>'
        } by {
            if i >= first.len() {
                assert(escaped(s)[i] == rest[i - first.len()]);
            }
        }
    }
}

/// `input` holds no byte-order mark at its front, no document type declaration, and no blank before
/// a closing angle bracket.
pub open spec fn is_plainly_written(input: Seq<u8>) -> bool {
    &&& !byte_order_mark().is_prefix_of(input)
    &&& forall|i: int| 0 <= i < input.len() - 1 ==> !has_loose_spelling_at(input, i)
}

/// At position `i` of `input` there is a blank before a closing angle bracket, or the front of a
/// document type declaration.
pub open spec fn has_loose_spelling_at(input: Seq<u8>, i: int) -> bool {
    ||| is_blank(input[i]) && input[i + 1] == 0x3e
    ||| input[i] == 0x3c && input[i + 1] == 0x21 && i + 2 < input.len() && (input[i + 2] == 0x44
        || input[i + 2] == 0x64)
}

/// A text that is plainly written is the markup of its events, byte for byte.
pub proof fn law_plain_text_is_its_markup(input: Seq<u8>, events: Seq<EventView>)
    requires
        is_text_of(input, events),
        is_plainly_written(input),
    ensures
        input == markup_of(events),
{
    let sources = choose|sources: Seq<Seq<u8>>| #[trigger] are_sources(sources, input, events);
    if input == byte_order_mark() + joined(sources) {
        assert(byte_order_mark() =~= input.subrange(0, 3));
        assert(byte_order_mark().is_prefix_of(input));
    }
    lemma_plain_sources(sources, events);
}

/// Sources that are plainly written are the markup of their events.
proof fn lemma_plain_sources(sources: Seq<Seq<u8>>, events: Seq<EventView>)
    requires
        sources.len() == events.len(),
        forall|i: int| 0 <= i < events.len() ==> is_source_of(#[trigger] sources[i], events[i]),
        forall|i: int|
            0 <= i < joined(sources).len() - 1 ==> !has_loose_spelling_at(joined(sources), i),
    ensures
        joined(sources) == markup_of(events),
    decreases sources.len(),
{
    if sources.len() > 0 {
        let whole = joined(sources);
        let first = sources[0];
        let rest = sources.skip(1);
        let e = events[0];
        assert(is_source_of(first, e));
        if first != e.markup {
            if e.kind == EventKind::End && e.markup == closing_tag(e.name, Seq::empty())
                && exists|blanks: Seq<u8>|
                are_blanks(blanks) && first == #[trigger] closing_tag(e.name, blanks) {
                let blanks = choose|blanks: Seq<u8>|
                    are_blanks(blanks) && first == #[trigger] closing_tag(e.name, blanks);
                if blanks.len() == 0 {
                    assert(blanks =~= Seq::empty());
                }
                let at = first.len() - 2;
                assert(first[at] == blanks[blanks.len() - 1]);
                assert(whole[at] == first[at] && whole[at + 1] == first[at + 1]);
                assert(has_loose_spelling_at(whole, at));
            } else {
                assert(whole[0] == first[0] && whole[1] == first[1] && whole[2] == first[2]);
                assert(has_loose_spelling_at(whole, 0));
            }
        }
        let tail = joined(rest);
        assert forall|i: int| 0 <= i < tail.len() - 1 implies !has_loose_spelling_at(tail, i) by {
            let at = i + first.len();
            assert(whole[at] == tail[i] && whole[at + 1] == tail[i + 1]);
            if i + 2 < tail.len() {
                assert(whole[at + 2] == tail[i + 2]);
            }
            assert(!has_loose_spelling_at(whole, at));
        }
        assert forall|i: int| 0 <= i < rest.len() implies is_source_of(
            #[trigger] rest[i],
            events.skip(1)[i],
        ) by {
            assert(rest[i] == sources[i + 1]);
        }
        lemma_plain_sources(rest, events.skip(1));
    }
}

} // verus!
