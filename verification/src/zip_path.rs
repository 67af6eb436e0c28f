//! Names of files in an archive: their components, their normal form, their extensions.

use vstd::prelude::*;
use vstd::string::*;
use vstd::utf8::*;

use crate::text;
use crate::text::{
    chars_of, equal_ignoring_case, find_first, find_past_last, part, same_text, trim_leading,
};
use crate::xml;
use crate::xml::decode_lossy;

verus! {

/// The parts of `path` between its slashes.
pub open spec fn components(path: Seq<char>) -> Seq<Seq<char>>
    decreases path.len(),
{
    let slash = text::first_of(path, seq!['/']);
    proof {
        text::lemma_mark_positions(path, seq!['/']);
    }
    if slash < path.len() {
        seq![path.take(slash)] + components(path.skip(slash + 1))
    } else {
        seq![path]
    }
}

/// Where the walk along a path stands after one more component: an empty one and a dot stay, two
/// dots go up, any other goes down.
pub open spec fn walked(stack: Seq<Seq<char>>, component: Seq<char>) -> Seq<Seq<char>> {
    if component == ""@ || component == "."@ {
        stack
    } else if component == ".."@ {
        if stack.len() > 0 {
            stack.drop_last()
        } else {
            stack
        }
    } else {
        stack.push(component)
    }
}

/// Where the walk along a path ends.
pub open spec fn walked_all(stack: Seq<Seq<char>>, components: Seq<Seq<char>>) -> Seq<Seq<char>>
    decreases components.len(),
{
    if components.len() == 0 {
        stack
    } else {
        walked_all(walked(stack, components[0]), components.skip(1))
    }
}

/// The components with a slash between each two.
pub open spec fn slash_joined(components: Seq<Seq<char>>) -> Seq<char>
    decreases components.len(),
{
    if components.len() == 0 {
        Seq::empty()
    } else if components.len() == 1 {
        components[0]
    } else {
        components[0] + "/"@ + slash_joined(components.skip(1))
    }
}

/// The normal form of a path: where the walk along it ends.
pub open spec fn normalized(path: Seq<char>) -> Seq<char> {
    slash_joined(walked_all(Seq::empty(), components(path)))
}

/// The models of a list of strings.
pub open spec fn string_views(list: Seq<String>) -> Seq<Seq<char>> {
    list.map_values(|s: String| s@)
}

/// One more component at the end of a list.
pub proof fn lemma_join_push(components: Seq<Seq<char>>, last: Seq<char>)
    requires
        components.len() > 0,
    ensures
        slash_joined(components.push(last)) == slash_joined(components) + "/"@ + last,
    decreases components.len(),
{
    let all = components.push(last);
    assert(all.skip(1) =~= components.skip(1).push(last));
    if components.len() == 1 {
        assert(all.skip(1).len() == 1);
        assert(all.skip(1)[0] == last);
        assert(slash_joined(all.skip(1)) == last);
    } else {
        lemma_join_push(components.skip(1), last);
        assert(slash_joined(all) =~= slash_joined(components) + "/"@ + last);
    }
}

/// Joins components with slashes.
fn join_with_slashes(list: &Vec<String>) -> (r: String)
    ensures
        r@ == slash_joined(string_views(list@)),
{
    let ghost all = string_views(list@);
    let mut out: String = String::new();
    let mut i: usize = 0;
    proof {
        assert(all.take(0) =~= Seq::empty());
    }
    while i < list.len()
        invariant
            i <= list.len(),
            all == string_views(list@),
            out@ == slash_joined(all.take(i as int)),
        decreases list.len() - i,
    {
        proof {
            let done = all.take(i as int);
            assert(all.take(i + 1) =~= done.push(all[i as int]));
            assert(all[i as int] == list@[i as int]@);
            if i > 0 {
                lemma_join_push(done, all[i as int]);
            } else {
                assert(done =~= Seq::empty());
                assert(Seq::<char>::empty() + all[0] =~= all[0]);
                assert(slash_joined(done.push(all[0])) == all[0]);
            }
        }
        if i > 0 {
            out.append("/");
        }
        out.append(list[i].as_str());
        i += 1;
    }
    proof {
        assert(all.take(all.len() as int) =~= all);
    }
    out
}

/// Brings a path into its normal form: no empty component, no `.` and no `..`.
pub fn normalize_zip_path(path: &str) -> (r: String)
    ensures
        r@ == normalized(path@),
{
    let chars: Vec<char> = chars_of(path);
    let mut parts: Vec<String> = Vec::new();
    let mut start: usize = 0;
    let ghost goal = walked_all(Seq::empty(), components(path@));
    proof {
        assert(string_views(parts@) =~= Seq::empty());
        assert(path@.skip(0) =~= path@);
    }
    let mut done: bool = false;
    while !done
        invariant
            chars@ == path@,
            !done ==> start <= chars.len(),
            !done ==> goal == walked_all(
                string_views(parts@),
                components(path@.skip(start as int)),
            ),
            done ==> goal == string_views(parts@),
        decreases (if done { 0int } else { 1 + chars.len() - start }),
    {
        let ghost rest = path@.skip(start as int);
        let ghost before = string_views(parts@);
        let end: usize = next_slash(&chars, start);
        let component: String = part(path, start, end);
        proof {
            text::lemma_mark_positions(rest, seq!['/']);
            assert(component@ =~= rest.take(end - start));
            if end < chars.len() {
                assert(rest.skip(end - start + 1) =~= path@.skip(end + 1));
                assert(components(rest)[0] == component@);
                assert(components(rest).skip(1) =~= components(path@.skip(end + 1)));
            } else {
                assert(component@ =~= rest);
                assert(components(rest)[0] == component@);
                assert(components(rest).skip(1) =~= Seq::empty());
                assert(walked_all(walked(before, component@), components(rest).skip(1)) == walked(
                    before,
                    component@,
                ));
            }
        }
        if same_text(component.as_str(), "") || same_text(component.as_str(), ".") {
        } else if same_text(component.as_str(), "..") {
            let gone = parts.pop();
            proof {
                if before.len() > 0 {
                    assert(string_views(parts@) =~= before.drop_last());
                } else {
                    assert(string_views(parts@) =~= before);
                }
            }
        } else {
            parts.push(component);
            assert(string_views(parts@) =~= before.push(component@));
        }
        assert(string_views(parts@) == walked(before, component@));
        if end < chars.len() {
            start = end + 1;
        } else {
            done = true;
        }
    }
    join_with_slashes(&parts)
}

/// The position of the first slash at or behind `start`; the end of the text if there is none.
fn next_slash(chars: &Vec<char>, start: usize) -> (r: usize)
    requires
        start <= chars@.len(),
    ensures
        start <= r <= chars@.len(),
        r - start == text::first_of(chars@.skip(start as int), seq!['/']),
{
    let ghost rest = chars@.skip(start as int);
    let mut i: usize = start;
    while i < chars.len() && chars[i] != '/'
        invariant
            start <= i <= chars.len(),
            rest == chars@.skip(start as int),
            forall|j: int| 0 <= j < i - start ==> rest[j] != '/',
        decreases chars.len() - i,
    {
        i += 1;
    }
    proof {
        let marks = seq!['/'];
        assert(marks[0] == '/');
        assert forall|j: int| 0 <= j < i - start implies !marks.contains(#[trigger] rest[j]) by {}
        text::lemma_first_of(rest, marks, i - start);
    }
    i
}

/// A component that names something: not empty, neither dot nor two dots, and without slashes.
pub open spec fn is_plain_component(component: Seq<char>) -> bool {
    &&& component != ""@
    &&& component != "."@
    &&& component != ".."@
    &&& !component.contains('/')
}

/// Every component names something.
pub open spec fn are_plain(components: Seq<Seq<char>>) -> bool {
    forall|i: int| 0 <= i < components.len() ==> is_plain_component(#[trigger] components[i])
}

/// No component holds a slash.
pub proof fn lemma_components_hold_no_slash(path: Seq<char>)
    ensures
        components(path).len() > 0,
        forall|i: int|
            0 <= i < components(path).len() ==> !(#[trigger] components(path)[i]).contains('/'),
    decreases path.len(),
{
    let marks = seq!['/'];
    let slash = text::first_of(path, marks);
    text::lemma_mark_positions(path, marks);
    assert(marks[0] == '/');
    let first = path.take(slash);
    assert(!first.contains('/')) by {
        if first.contains('/') {
            let j = choose|j: int| 0 <= j < first.len() && first[j] == '/';
            assert(path[j] == '/');
            assert(marks.contains(path[j]));
        }
    }
    if slash < path.len() {
        lemma_components_hold_no_slash(path.skip(slash + 1));
        let rest = components(path.skip(slash + 1));
        assert forall|i: int| 0 <= i < components(path).len() implies !(
        #[trigger] components(path)[i]).contains('/') by {
            if i > 0 {
                assert(components(path)[i] == rest[i - 1]);
            }
        }
    } else {
        assert(first =~= path);
    }
}

/// A walk along components without slashes ends in components that name something.
pub proof fn lemma_walk_is_plain(stack: Seq<Seq<char>>, list: Seq<Seq<char>>)
    requires
        are_plain(stack),
        forall|i: int| 0 <= i < list.len() ==> !(#[trigger] list[i]).contains('/'),
    ensures
        are_plain(walked_all(stack, list)),
    decreases list.len(),
{
    if list.len() > 0 {
        let rest = list.skip(1);
        assert(!list[0].contains('/'));
        assert forall|i: int| 0 <= i < rest.len() implies !(#[trigger] rest[i]).contains('/') by {
            assert(rest[i] == list[i + 1]);
        }
        lemma_walk_is_plain(walked(stack, list[0]), rest);
    }
}

/// A walk along components that name something goes down all of them.
proof fn lemma_plain_walk(stack: Seq<Seq<char>>, list: Seq<Seq<char>>)
    requires
        are_plain(list),
    ensures
        walked_all(stack, list) == stack + list,
    decreases list.len(),
{
    if list.len() > 0 {
        let rest = list.skip(1);
        assert(is_plain_component(list[0]));
        assert forall|i: int| 0 <= i < rest.len() implies is_plain_component(
            #[trigger] rest[i],
        ) by {
            assert(rest[i] == list[i + 1]);
        }
        lemma_plain_walk(stack.push(list[0]), rest);
        assert(stack.push(list[0]) + rest =~= stack + list);
    } else {
        assert(stack + list =~= stack);
    }
}

/// Joining components and taking the result apart again gives the components.
pub proof fn lemma_components_of_joined(list: Seq<Seq<char>>)
    requires
        list.len() > 0,
        are_plain(list),
    ensures
        components(slash_joined(list)) == list,
    decreases list.len(),
{
    let marks = seq!['/'];
    let whole = slash_joined(list);
    let first = list[0];
    assert(is_plain_component(first));
    assert(marks[0] == '/');
    assert forall|i: int| 0 <= i < first.len() implies !marks.contains(#[trigger] whole[i]) by {
        if list.len() > 1 {
            assert(whole[i] == first[i]);
        }
        assert(!(first[i] == '/')) by {
            if first[i] == '/' {
                assert(first.contains('/'));
            }
        }
    }
    if list.len() == 1 {
        text::lemma_first_of(whole, marks, first.len() as int);
        assert(components(whole) =~= list);
    } else {
        reveal_strlit("/");
        let rest = list.skip(1);
        assert(whole == first + "/"@ + slash_joined(rest));
        assert(whole[first.len() as int] == '/');
        text::lemma_first_of(whole, marks, first.len() as int);
        assert(whole.take(first.len() as int) =~= first);
        assert(whole.skip((first.len() + 1) as int) =~= slash_joined(rest));
        assert forall|i: int| 0 <= i < rest.len() implies is_plain_component(
            #[trigger] rest[i],
        ) by {
            assert(rest[i] == list[i + 1]);
        }
        lemma_components_of_joined(rest);
        assert(components(whole) =~= list);
    }
}

/// A path in normal form is empty, or each of its components names something.
pub proof fn law_normal_form_has_plain_components(path: Seq<char>)
    ensures
        normalized(path).len() == 0 || are_plain(components(normalized(path))),
{
    let end = walked_all(Seq::empty(), components(path));
    lemma_components_hold_no_slash(path);
    lemma_walk_is_plain(Seq::empty(), components(path));
    if end.len() > 0 {
        lemma_components_of_joined(end);
    }
}

/// Bringing a path into its normal form twice is the same as once.
pub proof fn law_normal_form_is_final(path: Seq<char>)
    ensures
        normalized(normalized(path)) == normalized(path),
{
    let end = walked_all(Seq::empty(), components(path));
    lemma_components_hold_no_slash(path);
    lemma_walk_is_plain(Seq::empty(), components(path));
    if end.len() > 0 {
        lemma_components_of_joined(end);
        lemma_plain_walk(Seq::empty(), end);
        assert(Seq::<Seq<char>>::empty() + end =~= end);
    } else {
        let none = Seq::<char>::empty();
        reveal_strlit("");
        assert(normalized(path) =~= none);
        assert(components(none) =~= seq![none]);
        assert(none =~= ""@);
        reveal_with_fuel(walked_all, 2);
        assert(walked_all(Seq::empty(), seq![none]) =~= Seq::empty());
    }
}

/// A path whose components all name something is in normal form.
pub proof fn law_plain_path_is_normal(path: Seq<char>)
    requires
        are_plain(components(path)),
    ensures
        normalized(path) == path,
{
    lemma_plain_walk(Seq::empty(), components(path));
    assert(Seq::<Seq<char>>::empty() + components(path) =~= components(path));
    lemma_joined_components(path);
}

/// Taking a path apart and joining its components again gives the path.
pub proof fn lemma_joined_components(path: Seq<char>)
    ensures
        slash_joined(components(path)) == path,
    decreases path.len(),
{
    let marks = seq!['/'];
    let slash = text::first_of(path, marks);
    text::lemma_mark_positions(path, marks);
    if slash < path.len() {
        let rest = path.skip(slash + 1);
        lemma_joined_components(rest);
        lemma_components_hold_no_slash(rest);
        assert(marks.contains(path[slash]));
        reveal_strlit("/");
        assert(components(path).skip(1) =~= components(rest));
        assert(path.take(slash) + "/"@ + rest =~= path);
    } else {
        assert(path.take(slash) =~= path);
    }
}

/// The extension of the file that a path names: what stands behind the last dot of its last part,
/// where a slash, a question mark and a hash sign part a path.
pub open spec fn file_extension(path: Seq<char>) -> Option<Seq<char>> {
    let file = text::after_last(path, seq!['/', '?', '#']);
    if text::last_of(file, seq!['.']) >= 0 {
        Some(text::after_last(file, seq!['.']))
    } else {
        None
    }
}

/// The path names a file with the given extension, in capitals or small letters.
pub open spec fn has_extension(path: Seq<char>, ext: Seq<char>) -> bool {
    match file_extension(path) {
        Some(actual) => text::same_ignoring_case(actual, ext),
        None => false,
    }
}

/// Whether a path names a file with the given extension, in capitals or small letters.
pub fn extension_is(path: &str, ext: &str) -> (r: bool)
    ensures
        r == has_extension(path@, ext@),
{
    let chars: Vec<char> = chars_of(path);
    let parting: [char; 3] = ['/', '?', '#'];
    let from: usize = find_past_last(&chars, &parting);
    let file: String = part(path, from, chars.len());
    let file_chars: Vec<char> = chars_of(file.as_str());
    let dot: [char; 1] = ['.'];
    let behind: usize = find_past_last(&file_chars, &dot);
    proof {
        assert(parting@ =~= seq!['/', '?', '#']);
        assert(dot@ =~= seq!['.']);
        assert(file@ =~= text::after_last(path@, seq!['/', '?', '#']));
    }
    if behind == 0 {
        return false;
    }
    let actual: String = part(file.as_str(), behind, file_chars.len());
    proof {
        assert(actual@ =~= text::after_last(file@, seq!['.']));
    }
    equal_ignoring_case(actual.as_str(), ext)
}

/// The directory that a file stands in; empty for a file at the top.
pub open spec fn directory_of(path: Seq<char>) -> Seq<char> {
    let slash = text::last_of(path, seq!['/']);
    if slash >= 0 {
        path.take(slash)
    } else {
        Seq::empty()
    }
}

/// The path in the archive, in normal form, of the file `target` that is named from the package
/// document at `opf_path`: from the top of the archive if `target` opens with a slash, else from
/// the directory of the package document.
pub open spec fn located(opf_path: Seq<char>, target: Seq<char>) -> Seq<char> {
    let base = directory_of(opf_path);
    normalized(
        if target.len() > 0 && target[0] == '/' {
            text::without_leading(target, '/')
        } else if base.len() == 0 {
            target
        } else {
            base + "/"@ + target
        },
    )
}

/// What `href` refers to, without query and fragment.
pub open spec fn file_part(href: Seq<char>) -> Seq<char> {
    text::before_first(href, seq!['?', '#'])
}

/// The path in the archive of what `href` refers to in the package document at `opf_path`.
pub open spec fn resolved(opf_path: Seq<char>, href: Seq<char>) -> Seq<char> {
    located(opf_path, file_part(href))
}

/// The value of a hexadecimal digit, in capitals or small letters.
pub open spec fn hex_value(b: u8) -> Option<u8> {
    if 0x30 <= b <= 0x39 {
        Some((b - 0x30) as u8)
    } else if 0x41 <= b <= 0x46 {
        Some((b - 0x37) as u8)
    } else if 0x61 <= b <= 0x66 {
        Some((b - 0x57) as u8)
    } else {
        None
    }
}

/// The byte that a percent sign and two hexadecimal digits at the front of `bytes` stand for.
pub open spec fn leading_escape(bytes: Seq<u8>) -> Option<u8> {
    if bytes.len() >= 3 && bytes[0] == 0x25 && hex_value(bytes[1]) is Some && hex_value(
        bytes[2],
    ) is Some {
        Some((hex_value(bytes[1])->0 * 16 + hex_value(bytes[2])->0) as u8)
    } else {
        None
    }
}

/// `bytes` with each percent sign and the two hexadecimal digits behind it replaced by the byte
/// that they stand for.
pub open spec fn percent_decoded(bytes: Seq<u8>) -> Seq<u8>
    decreases bytes.len(),
{
    if bytes.len() == 0 {
        Seq::empty()
    } else {
        match leading_escape(bytes) {
            Some(b) => seq![b] + percent_decoded(bytes.skip(3)),
            None => seq![bytes[0]] + percent_decoded(bytes.skip(1)),
        }
    }
}

/// The path in the archive of what `href` refers to, where `href` is percent-encoded.
pub open spec fn resolved_decoded(opf_path: Seq<char>, href: Seq<char>) -> Seq<char> {
    located(opf_path, xml::lossy_text(percent_decoded(encode_utf8(file_part(href)))))
}

/// The path in the archive of the file `target` that is named from the package document at
/// `opf_path`.
fn locate(opf_path: &str, target: &str) -> (r: String)
    ensures
        r@ == located(opf_path@, target@),
        normalized(r@) == r@,
{
    let target_chars: Vec<char> = chars_of(target);
    let opf_chars: Vec<char> = chars_of(opf_path);
    let slash: [char; 1] = ['/'];
    let behind: usize = find_past_last(&opf_chars, &slash);
    proof {
        assert(slash@ =~= seq!['/']);
    }
    let joined: String = if target_chars.len() > 0 && target_chars[0] == '/' {
        trim_leading(target, '/')
    } else if behind <= 1 {
        target.to_owned()
    } else {
        let mut text: String = part(opf_path, 0, behind - 1);
        assert(text@ =~= directory_of(opf_path@));
        text.append("/");
        text.append(target);
        text
    };
    proof {
        law_normal_form_is_final(joined@);
    }
    normalize_zip_path(joined.as_str())
}

/// What `href` refers to, without query and fragment.
fn take_file_part(href: &str) -> (r: String)
    ensures
        r@ == file_part(href@),
{
    let chars: Vec<char> = chars_of(href);
    let ending: [char; 2] = ['?', '#'];
    let end: usize = find_first(&chars, &ending);
    proof {
        assert(ending@ =~= seq!['?', '#']);
        assert(href@.subrange(0, end as int) =~= href@.take(end as int));
    }
    part(href, 0, end)
}

/// The path in the archive of what `href` refers to in the package document at `opf_path`.
pub fn resolve_opf_href(opf_path: &str, href: &str) -> (r: String)
    ensures
        r@ == resolved(opf_path@, href@),
        normalized(r@) == r@,
{
    locate(opf_path, take_file_part(href).as_str())
}

/// The value of a hexadecimal digit, in capitals or small letters.
fn digit_of(b: u8) -> (r: Option<u8>)
    ensures
        r == hex_value(b),
        r matches Some(d) ==> d < 16,
{
    if 0x30 <= b && b <= 0x39 {
        Some(b - 0x30)
    } else if 0x41 <= b && b <= 0x46 {
        Some(b - 0x37)
    } else if 0x61 <= b && b <= 0x66 {
        Some(b - 0x57)
    } else {
        None
    }
}

/// The byte that a percent sign and two hexadecimal digits at position `at` stand for.
fn escape_at(bytes: &[u8], at: usize) -> (r: Option<u8>)
    requires
        at < bytes@.len(),
    ensures
        r == leading_escape(bytes@.skip(at as int)),
{
    if bytes.len() - at < 3 || bytes[at] != 0x25 {
        return None;
    }
    match (digit_of(bytes[at + 1]), digit_of(bytes[at + 2])) {
        (Some(high), Some(low)) => Some(high * 16 + low),
        _ => None,
    }
}

/// Replaces each percent sign and the two hexadecimal digits behind it by the byte that they stand
/// for.
pub fn percent_decode(bytes: &[u8]) -> (r: Vec<u8>)
    ensures
        r@ == percent_decoded(bytes@),
{
    let mut out: Vec<u8> = Vec::new();
    let mut i: usize = 0;
    proof {
        assert(bytes@.skip(0) =~= bytes@);
        assert(out@ + percent_decoded(bytes@) =~= percent_decoded(bytes@));
    }
    while i < bytes.len()
        invariant
            i <= bytes.len(),
            out@ + percent_decoded(bytes@.skip(i as int)) == percent_decoded(bytes@),
        decreases bytes.len() - i,
    {
        let ghost before = out@;
        let ghost rest = bytes@.skip(i as int);
        match escape_at(bytes, i) {
            Some(b) => {
                out.push(b);
                proof {
                    assert(rest.skip(3) =~= bytes@.skip(i + 3));
                    assert(out@ + percent_decoded(rest.skip(3)) =~= before + percent_decoded(rest));
                }
                i += 3;
            },
            None => {
                out.push(bytes[i]);
                proof {
                    assert(rest.skip(1) =~= bytes@.skip(i + 1));
                    assert(out@ + percent_decoded(rest.skip(1)) =~= before + percent_decoded(rest));
                }
                i += 1;
            },
        }
    }
    proof {
        assert(out@ + percent_decoded(bytes@.skip(i as int)) =~= out@);
    }
    out
}

/// The path in the archive of what `href` refers to, where `href` is percent-encoded.
pub fn resolve_decoded_href(opf_path: &str, href: &str) -> (r: String)
    ensures
        r@ == resolved_decoded(opf_path@, href@),
        normalized(r@) == r@,
{
    let file: String = take_file_part(href);
    let bytes: Vec<u8> = percent_decode(file.as_str().as_bytes());
    locate(opf_path, decode_lossy(bytes.as_slice()).as_str())
}

/// The path of a file in the archive is in normal form.
pub proof fn law_located_path_is_normal(opf_path: Seq<char>, target: Seq<char>)
    ensures
        normalized(located(opf_path, target)) == located(opf_path, target),
{
    law_normal_form_is_final(text::without_leading(target, '/'));
    law_normal_form_is_final(target);
    law_normal_form_is_final(directory_of(opf_path) + "/"@ + target);
}

} // verus!
