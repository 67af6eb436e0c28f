//! Laws of XML documents: names, attributes, elements and markup.

use vstd::prelude::*;
use vstd::utf8::*;

use crate::xml;
use crate::xml::{Document, EventKind, EventView, XmlEvent};

verus! {

/// The model of an event holds all that the event holds: its kind, its name, its markup, and each of
/// its attributes at its place.
pub proof fn law_event_model(e: XmlEvent)
    ensures
        e@.kind == e.kind,
        e@.name == e.name@,
        e@.markup == e.markup@,
        e@.attributes.len() == e.attributes@.len(),
        forall|i: int|
            #![trigger e@.attributes[i]]
            0 <= i < e.attributes@.len() ==> e@.attributes[i] == (
                e.attributes@[i].0@,
                e.attributes@[i].1@,
            ),
{
}

/// The model of a document holds each of its events at its place, and the error that ended it.
pub proof fn law_document_model(doc: Document)
    ensures
        doc@.failure == doc.failure,
        doc@.events.len() == doc.events@.len(),
        forall|i: int|
            #![trigger doc@.events[i]]
            0 <= i < doc.events@.len() ==> doc@.events[i] == doc.events@[i]@,
{
}

/// The local name stands behind the first colon; a name without colon is its own local name.
pub proof fn law_local_part(prefix: Seq<u8>, local: Seq<u8>)
    requires
        forall|i: int| 0 <= i < prefix.len() ==> #[trigger] prefix[i] != 0x3a,
    ensures
        xml::local_part(prefix + seq![0x3au8] + local) == local,
        xml::local_part(prefix) == prefix,
{
    let name = prefix + seq![0x3au8] + local;
    lemma_first_colon(name, prefix.len() as int);
    lemma_first_colon(prefix, prefix.len() as int);
    assert(name.skip(prefix.len() as int + 1) =~= local);
}

/// A position with no colon before it, and one at it or nothing, is the first of a colon.
proof fn lemma_first_colon(name: Seq<u8>, at: int)
    requires
        0 <= at <= name.len(),
        forall|i: int| 0 <= i < at ==> #[trigger] name[i] != 0x3a,
        at < name.len() ==> name[at] == 0x3a,
    ensures
        xml::first_colon(name) == at,
    decreases name.len(),
{
    if at > 0 {
        let rest = name.skip(1);
        assert(name[0] != 0x3a);
        assert forall|i: int| 0 <= i < at - 1 implies #[trigger] rest[i] != 0x3a by {
            assert(rest[i] == name[i + 1]);
        }
        lemma_first_colon(rest, at - 1);
    }
}

/// An event is a tag of some name exactly if it opens an element or is a whole one, and its local
/// name is that name; its attributes and its place do not matter.
pub proof fn law_is_tag_of(e: EventView, local: Seq<char>)
    ensures
        (e.kind == EventKind::Start || e.kind == EventKind::Empty) && xml::local_part(e.name)
            == encode_utf8(local) <==> xml::is_tag_of(e, local),
        e.kind == EventKind::End || e.kind == EventKind::Other || e.kind == EventKind::Eof
            ==> !xml::is_tag_of(e, local),
{
}

/// The first attribute of a name is found, wherever it stands, and with its whole value.
pub proof fn law_find_attribute(attributes: Seq<(Seq<u8>, Seq<u8>)>, key: Seq<u8>, i: int)
    requires
        0 <= i < attributes.len(),
        attributes[i].0 == key,
        forall|j: int| 0 <= j < i ==> (#[trigger] attributes[j]).0 != key,
    ensures
        xml::find_attribute(attributes, key) == Some(attributes[i].1),
    decreases attributes.len(),
{
    if i > 0 {
        let rest = attributes.skip(1);
        assert(attributes[0].0 != key);
        assert(rest[i - 1] == attributes[i]);
        assert forall|j: int| 0 <= j < i - 1 implies (#[trigger] rest[j]).0 != key by {
            assert(rest[j] == attributes[j + 1]);
        }
        law_find_attribute(rest, key, i - 1);
    }
}

/// An attribute that a tag does not have is not found.
pub proof fn law_missing_attribute(attributes: Seq<(Seq<u8>, Seq<u8>)>, key: Seq<u8>)
    requires
        forall|j: int| 0 <= j < attributes.len() ==> (#[trigger] attributes[j]).0 != key,
    ensures
        xml::find_attribute(attributes, key) is None,
    decreases attributes.len(),
{
    if attributes.len() > 0 {
        let rest = attributes.skip(1);
        assert forall|j: int| 0 <= j < rest.len() implies (#[trigger] rest[j]).0 != key by {
            assert(rest[j] == attributes[j + 1]);
        }
        law_missing_attribute(rest, key);
    }
}

/// The text of an attribute is what its first value of that name stands for: unescaped where that
/// can be done, else as it stands. Without such an attribute there is no text, or the empty one.
pub proof fn law_attribute_text(e: EventView, key: Seq<char>, i: int)
    ensures
        0 <= i < e.attributes.len() && e.attributes[i].0 == encode_utf8(key) && (forall|j: int|
            0 <= j < i ==> (#[trigger] e.attributes[j]).0 != encode_utf8(key)) ==> {
            let raw = xml::lossy_text(e.attributes[i].1);
            let text = if xml::unescaped(raw) is Some {
                xml::unescaped(raw)->0
            } else {
                raw
            };
            xml::attribute_text(e, key) == Some(text) && xml::attribute_or_empty(e, key) == text
        },
        (forall|j: int|
            0 <= j < e.attributes.len() ==> (#[trigger] e.attributes[j]).0 != encode_utf8(key))
            ==> xml::attribute_text(e, key) is None && xml::attribute_or_empty(e, key).len() == 0,
{
    if 0 <= i < e.attributes.len() && e.attributes[i].0 == encode_utf8(key) && (forall|j: int|
        0 <= j < i ==> (#[trigger] e.attributes[j]).0 != encode_utf8(key)) {
        law_find_attribute(e.attributes, encode_utf8(key), i);
    }
    if forall|j: int|
        0 <= j < e.attributes.len() ==> (#[trigger] e.attributes[j]).0 != encode_utf8(key) {
        law_missing_attribute(e.attributes, encode_utf8(key));
    }
}

/// Texts are escaped character by character, whatever their length.
pub proof fn law_escaped_concat(a: Seq<char>, b: Seq<char>)
    ensures
        xml::escaped(a + b) == xml::escaped(a) + xml::escaped(b),
    decreases a.len(),
{
    if a.len() == 0 {
        assert(a + b =~= b);
        assert(xml::escaped(a) + xml::escaped(b) =~= xml::escaped(b));
    } else {
        assert((a + b).skip(1) =~= a.skip(1) + b);
        law_escaped_concat(a.skip(1), b);
        assert(xml::escaped(a + b) =~= xml::escaped(a) + xml::escaped(b));
    }
}

/// Five characters are escaped, each by its own entity; any other stands for itself.
pub proof fn law_escaped_char(c: char)
    ensures
        xml::escaped(seq!['<']) == "&lt;"@,
        xml::escaped(seq!['>']) == "&gt;"@,
        xml::escaped(seq!['&']) == "&amp;"@,
        xml::escaped(seq!['\'']) == "&apos;"@,
        xml::escaped(seq!['"']) == "&quot;"@,
        c != '<' && c != '>' && c != '&' && c != '\'' && c != '"' ==> xml::escaped(seq![c])
            == seq![c],
{
    lemma_escaped_single('<');
    lemma_escaped_single('>');
    lemma_escaped_single('&');
    lemma_escaped_single('\'');
    lemma_escaped_single('"');
    lemma_escaped_single(c);
}

/// A single character, escaped.
proof fn lemma_escaped_single(c: char)
    ensures
        xml::escaped(seq![c]) == xml::escaped_char(c),
{
    reveal_with_fuel(xml::escaped, 2);
    assert(seq![c].skip(1) =~= Seq::empty());
    assert(xml::escaped_char(c) + Seq::<char>::empty() =~= xml::escaped_char(c));
}

/// A value that lacks one of the two quotes is written between quotes that it lacks, unchanged and
/// whole.
pub proof fn law_quoted_value_is_unchanged(value: Seq<u8>)
    requires
        !value.contains(0x22) || !value.contains(0x27),
    ensures
        xml::quoted(value).len() == value.len() + 2,
        xml::quoted(value).subrange(1, value.len() as int + 1) == value,
        xml::quoted(value)[0] == xml::quoted(value)[value.len() as int + 1],
        xml::quoted(value)[0] == 0x22 || xml::quoted(value)[0] == 0x27,
        !value.contains(xml::quoted(value)[0]),
        !value.contains(0x22) ==> xml::quoted(value)[0] == 0x22,
{
    assert(xml::quoted(value).subrange(1, value.len() as int + 1) =~= value);
}

/// In a value with both quotes, each double quote is escaped and each other byte stays.
pub proof fn law_double_quotes_are_escaped(a: Seq<u8>, b: u8)
    ensures
        xml::without_double_quotes(Seq::empty()).len() == 0,
        b != 0x22 ==> xml::without_double_quotes(a.push(b)) == xml::without_double_quotes(a).push(
            b,
        ),
        b == 0x22 ==> xml::without_double_quotes(a.push(b)) == xml::without_double_quotes(a)
            + encode_utf8("&quot;"@),
        a.contains(0x22) && a.contains(0x27) ==> xml::quoted(a) == seq![0x22u8]
            + xml::without_double_quotes(a) + seq![0x22u8],
{
    assert(a.push(b).drop_last() =~= a);
    assert(b != 0x22 ==> xml::without_double_quotes(a.push(b)) =~= xml::without_double_quotes(
        a,
    ).push(b));
}

/// A tag is written with its name, and with each of its attributes, in order: a blank, the key, an
/// equals sign and the value in quotes.
pub proof fn law_tag_markup(
    name: Seq<u8>,
    front: Seq<(Seq<u8>, Seq<u8>)>,
    a: (Seq<u8>, Seq<u8>),
    back: Seq<(Seq<u8>, Seq<u8>)>,
)
    ensures
        xml::tag_markup(name, front, EventKind::Start) == encode_utf8("<"@) + name
            + xml::attributes_markup(front) + encode_utf8(">"@),
        xml::tag_markup(name, front, EventKind::Empty) == encode_utf8("<"@) + name
            + xml::attributes_markup(front) + encode_utf8("/>"@),
        xml::attributes_markup(Seq::empty()).len() == 0,
        xml::attributes_markup(front + seq![a] + back) == xml::attributes_markup(front) + (
        encode_utf8(" "@) + a.0 + encode_utf8("="@) + xml::quoted(a.1)) + xml::attributes_markup(
            back,
        ),
{
    lemma_ascii_bytes();
    lemma_attributes_concat(front + seq![a], back);
    lemma_attributes_concat(front, seq![a]);
    reveal_with_fuel(xml::attributes_markup, 2);
    assert(seq![a].drop_last() =~= Seq::empty());
    let one = xml::attribute_markup(a.0, a.1);
    assert(xml::attributes_markup(seq![a]) =~= one);
    assert(one =~= encode_utf8(" "@) + a.0 + encode_utf8("="@) + xml::quoted(a.1));
}

/// The bytes of some ASCII texts.
proof fn lemma_ascii_bytes()
    ensures
        encode_utf8("<"@) == seq![0x3cu8],
        encode_utf8(">"@) == seq![0x3eu8],
        encode_utf8("/>"@) == seq![0x2fu8, 0x3eu8],
        encode_utf8(" "@) == seq![0x20u8],
        encode_utf8("="@) == seq![0x3du8],
{
    reveal_strlit("<");
    reveal_strlit(">");
    reveal_strlit("/>");
    reveal_strlit(" ");
    reveal_strlit("=");
    is_ascii_chars_encode_utf8("<"@);
    is_ascii_chars_encode_utf8(">"@);
    is_ascii_chars_encode_utf8("/>"@);
    is_ascii_chars_encode_utf8(" "@);
    is_ascii_chars_encode_utf8("="@);
    assert(encode_utf8("<"@) =~= seq![0x3cu8]);
    assert(encode_utf8(">"@) =~= seq![0x3eu8]);
    assert(encode_utf8("/>"@) =~= seq![0x2fu8, 0x3eu8]);
    assert(encode_utf8(" "@) =~= seq![0x20u8]);
    assert(encode_utf8("="@) =~= seq![0x3du8]);
}

/// Attributes one behind the other.
proof fn lemma_attributes_concat(a: Seq<(Seq<u8>, Seq<u8>)>, b: Seq<(Seq<u8>, Seq<u8>)>)
    ensures
        xml::attributes_markup(a + b) == xml::attributes_markup(a) + xml::attributes_markup(b),
    decreases b.len(),
{
    if b.len() == 0 {
        assert(a + b =~= a);
        assert(xml::attributes_markup(a) + xml::attributes_markup(b) =~= xml::attributes_markup(a));
    } else {
        assert((a + b).drop_last() =~= a + b.drop_last());
        assert((a + b).last() == b.last());
        lemma_attributes_concat(a, b.drop_last());
        assert(xml::attributes_markup(a + b) =~= xml::attributes_markup(a)
            + xml::attributes_markup(b));
    }
}

/// Leaving out the attributes of one name leaves all others, in their order.
pub proof fn law_attributes_without(
    front: Seq<(Seq<u8>, Seq<u8>)>,
    a: (Seq<u8>, Seq<u8>),
    back: Seq<(Seq<u8>, Seq<u8>)>,
    key: Seq<u8>,
)
    ensures
        xml::attributes_without(Seq::empty(), key).len() == 0,
        a.0 == key ==> xml::attributes_without(front + seq![a] + back, key)
            == xml::attributes_without(front, key) + xml::attributes_without(back, key),
        a.0 != key ==> xml::attributes_without(front + seq![a] + back, key)
            == xml::attributes_without(front, key) + seq![a] + xml::attributes_without(back, key),
{
    reveal(Seq::filter);
    lemma_without_concat(front + seq![a], back, key);
    lemma_without_concat(front, seq![a], key);
    xml::lemma_attributes_without_push(Seq::empty(), a, key);
    assert(Seq::empty().push(a) =~= seq![a]);
    let none = xml::attributes_without(Seq::empty(), key);
    assert(none =~= Seq::empty());
    assert(none.push(a) =~= seq![a]);
    assert(xml::attributes_without(front, key) + none =~= xml::attributes_without(front, key));
}

/// Leaving out attributes of two lists, one behind the other.
proof fn lemma_without_concat(
    a: Seq<(Seq<u8>, Seq<u8>)>,
    b: Seq<(Seq<u8>, Seq<u8>)>,
    key: Seq<u8>,
)
    ensures
        xml::attributes_without(a + b, key) == xml::attributes_without(a, key)
            + xml::attributes_without(b, key),
    decreases b.len(),
{
    reveal(Seq::filter);
    if b.len() == 0 {
        assert(a + b =~= a);
        assert(xml::attributes_without(a, key) + xml::attributes_without(b, key)
            =~= xml::attributes_without(a, key));
    } else {
        let front = b.drop_last();
        lemma_without_concat(a, front, key);
        assert(a + b =~= (a + front).push(b.last()));
        assert(b =~= front.push(b.last()));
        xml::lemma_attributes_without_push(a + front, b.last(), key);
        xml::lemma_attributes_without_push(front, b.last(), key);
        assert(xml::attributes_without(a + b, key) =~= xml::attributes_without(a, key)
            + xml::attributes_without(b, key));
    }
}

/// How many opening tags named `name` there are.
pub open spec fn openings(events: Seq<EventView>, name: Seq<u8>) -> int {
    events.filter(|e: EventView| e.kind == EventKind::Start && e.name == name).len() as int
}

/// How many closing tags named `name` there are.
pub open spec fn closings(events: Seq<EventView>, name: Seq<u8>) -> int {
    events.filter(|e: EventView| e.kind == EventKind::End && e.name == name).len() as int
}

/// One event counts at most as one opening or one closing tag.
proof fn lemma_counts_push(events: Seq<EventView>, e: EventView, name: Seq<u8>)
    ensures
        openings(events.push(e), name) == openings(events, name) + (if e.kind == EventKind::Start
            && e.name == name {
            1int
        } else {
            0
        }),
        closings(events.push(e), name) == closings(events, name) + (if e.kind == EventKind::End
            && e.name == name {
            1int
        } else {
            0
        }),
        openings(Seq::empty(), name) == 0,
        closings(Seq::empty(), name) == 0,
{
    reveal(Seq::filter);
    assert(events.push(e).drop_last() =~= events);
}

/// Counting from the front.
proof fn lemma_counts_front(e: EventView, events: Seq<EventView>, name: Seq<u8>)
    ensures
        openings(seq![e] + events, name) == openings(events, name) + (if e.kind == EventKind::Start
            && e.name == name {
            1int
        } else {
            0
        }),
        closings(seq![e] + events, name) == closings(events, name) + (if e.kind == EventKind::End
            && e.name == name {
            1int
        } else {
            0
        }),
    decreases events.len(),
{
    if events.len() == 0 {
        assert(seq![e] + events =~= Seq::empty().push(e));
        assert(events =~= Seq::empty());
        lemma_counts_push(Seq::empty(), e, name);
    } else {
        let front = events.drop_last();
        lemma_counts_front(e, front, name);
        assert(seq![e] + events =~= (seq![e] + front).push(events.last()));
        assert(events =~= front.push(events.last()));
        lemma_counts_push(seq![e] + front, events.last(), name);
        lemma_counts_push(front, events.last(), name);
    }
}

/// An element ends where, for the first time, as many of its closing tags have come as opening ones,
/// itself included; it does not end only if that never comes. The number of events does not matter.
pub proof fn law_element_ends_where_its_tags_are_balanced(
    events: Seq<EventView>,
    name: Seq<u8>,
    depth: nat,
)
    requires
        depth > 0,
    ensures
        xml::span(events, name, depth) matches Some(n) ==> {
            &&& 0 < n <= events.len()
            &&& closings(events.take(n as int), name) == openings(events.take(n as int), name)
                + depth
            &&& forall|m: int|
                #![trigger events.take(m)]
                0 <= m < n ==> closings(events.take(m), name) < openings(events.take(m), name)
                    + depth
        },
        xml::span(events, name, depth) is None ==> forall|m: int|
            #![trigger events.take(m)]
            0 <= m <= events.len() ==> closings(events.take(m), name) < openings(
                events.take(m),
                name,
            ) + depth,
    decreases events.len(),
{
    assert(events.take(0) =~= Seq::empty());
    if events.len() > 0 {
        lemma_counts_push(Seq::empty(), events[0], name);
        let e = events[0];
        let rest = events.skip(1);
        let next = xml::depth_after(e, name, depth);
        assert forall|m: int| #![trigger events.take(m)] 0 < m <= events.len() implies openings(
            events.take(m),
            name,
        ) == openings(rest.take(m - 1), name) + (if e.kind == EventKind::Start && e.name == name {
            1int
        } else {
            0
        }) && closings(events.take(m), name) == closings(rest.take(m - 1), name) + (if e.kind
            == EventKind::End && e.name == name {
            1int
        } else {
            0
        }) by {
            assert(events.take(m) =~= seq![e] + rest.take(m - 1));
            lemma_counts_front(e, rest.take(m - 1), name);
        }
        assert(rest.take(0) =~= Seq::empty());
        if next > 0 {
            law_element_ends_where_its_tags_are_balanced(rest, name, next);
            assert forall|m: int| #![trigger events.take(m)] 0 < m <= events.len() && (
            xml::span(events, name, depth) matches Some(n) ==> m < n) implies closings(
                events.take(m),
                name,
            ) < openings(events.take(m), name) + depth by {
                let shorter = rest.take(m - 1);
                assert(closings(shorter, name) < openings(shorter, name) + next);
            }
            if let Some(n) = xml::span(events, name, depth) {
                assert(closings(rest.take(n - 1), name) == openings(rest.take(n - 1), name) + next);
            }
        } else {
            assert(xml::span(rest, name, 0) == Some(0nat));
            assert(events.take(1) =~= seq![e] + rest.take(0));
        }
    } else {
        lemma_counts_push(Seq::empty(), arbitrary(), name);
    }
}

/// The markup of events holds that of each of them, at its place, and nothing else.
pub proof fn law_markup_of(front: Seq<EventView>, e: EventView, back: Seq<EventView>)
    ensures
        xml::markup_of(Seq::empty()).len() == 0,
        xml::markup_of(front + seq![e] + back) == xml::markup_of(front) + e.markup
            + xml::markup_of(back),
{
    xml::lemma_markup_concat(front + seq![e], back);
    xml::lemma_markup_concat(front, seq![e]);
    reveal_with_fuel(xml::markup_of, 2);
    assert(seq![e].skip(1) =~= Seq::empty());
    assert(xml::markup_of(seq![e]) =~= e.markup);
}

} // verus!
