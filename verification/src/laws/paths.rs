//! Laws of paths in an archive: extensions, normal forms, targets of references.

use vstd::prelude::*;
use vstd::utf8::*;

use crate::laws::words;
use crate::text;
use crate::xml;
use crate::zip_path;

verus! {

/// None of the characters is a slash, a question mark or a hash sign.
pub open spec fn is_one_part(s: Seq<char>) -> bool {
    forall|i: int| 0 <= i < s.len() ==> #[trigger] s[i] != '/' && s[i] != '?' && s[i] != '#'
}

/// Nothing, or a text that ends in a slash, a question mark or a hash sign.
pub open spec fn ends_a_part(s: Seq<char>) -> bool {
    s.len() == 0 || s.last() == '/' || s.last() == '?' || s.last() == '#'
}

/// The characters that part a path.
proof fn lemma_part_marks(c: char)
    ensures
        seq!['/', '?', '#'].contains(c) <==> c == '/' || c == '?' || c == '#',
        seq!['?', '#'].contains(c) <==> c == '?' || c == '#',
        seq!['/'].contains(c) <==> c == '/',
        seq!['.'].contains(c) <==> c == '.',
{
    assert(seq!['/', '?', '#'][0] == '/');
    assert(seq!['/', '?', '#'][1] == '?');
    assert(seq!['/', '?', '#'][2] == '#');
    assert(seq!['?', '#'][0] == '?');
    assert(seq!['?', '#'][1] == '#');
    assert(seq!['/'][0] == '/');
    assert(seq!['.'][0] == '.');
}

/// The extension of a path is what stands behind the last dot of its last part, whatever stands
/// before it.
pub proof fn law_extension(front: Seq<char>, stem: Seq<char>, ext: Seq<char>)
    requires
        ends_a_part(front),
        is_one_part(stem),
        is_one_part(ext),
        !ext.contains('.'),
    ensures
        zip_path::file_extension(front + (stem + seq!['.'] + ext)) == Some(ext),
{
    let file = stem + seq!['.'] + ext;
    let marks = seq!['/', '?', '#'];
    assert forall|i: int| 0 <= i < file.len() implies !marks.contains(#[trigger] file[i]) by {
        lemma_part_marks(file[i]);
        if i < stem.len() {
            assert(file[i] == stem[i]);
        } else if i > stem.len() {
            assert(file[i] == ext[i - stem.len() - 1]);
        }
    }
    if front.len() > 0 {
        lemma_part_marks(front.last());
    }
    words::law_after_last(front, file, marks);
    let begin = stem + seq!['.'];
    assert(begin.last() == '.');
    lemma_part_marks('.');
    assert forall|i: int| 0 <= i < ext.len() implies !seq!['.'].contains(#[trigger] ext[i]) by {
        lemma_part_marks(ext[i]);
    }
    words::law_after_last(begin, ext, seq!['.']);
    assert(begin + ext =~= file);
}

/// A path whose last part holds no dot has no extension.
pub proof fn law_no_extension(front: Seq<char>, file: Seq<char>)
    requires
        ends_a_part(front),
        is_one_part(file),
        !file.contains('.'),
    ensures
        zip_path::file_extension(front + file) is None,
{
    let marks = seq!['/', '?', '#'];
    assert forall|i: int| 0 <= i < file.len() implies !marks.contains(#[trigger] file[i]) by {
        lemma_part_marks(file[i]);
    }
    if front.len() > 0 {
        lemma_part_marks(front.last());
    }
    words::law_after_last(front, file, marks);
    assert forall|i: int| 0 <= i < file.len() implies !seq!['.'].contains(#[trigger] file[i]) by {
        lemma_part_marks(file[i]);
    }
    words::law_after_last(Seq::empty(), file, seq!['.']);
    assert(Seq::<char>::empty() + file =~= file);
}

/// A path has an extension without regard to case.
pub proof fn law_has_extension(front: Seq<char>, stem: Seq<char>, ext: Seq<char>, wanted: Seq<char>)
    requires
        ends_a_part(front),
        is_one_part(stem),
        is_one_part(ext),
        !ext.contains('.'),
    ensures
        zip_path::has_extension(front + (stem + seq!['.'] + ext), wanted) <==> ext.len()
            == wanted.len() && forall|i: int|
            0 <= i < ext.len() ==> words::are_one_letter(#[trigger] ext[i], wanted[i]),
{
    law_extension(front, stem, ext);
    words::law_same_ignoring_case(ext, wanted);
}

/// A path without extension has none that could be asked for.
pub proof fn law_has_no_extension(front: Seq<char>, file: Seq<char>, wanted: Seq<char>)
    requires
        ends_a_part(front),
        is_one_part(file),
        !file.contains('.'),
    ensures
        !zip_path::has_extension(front + file, wanted),
{
    law_no_extension(front, file);
}

/// A path has no component with a slash in it, and joining its components gives it back.
pub proof fn law_components(path: Seq<char>, i: int)
    requires
        0 <= i < zip_path::components(path).len(),
    ensures
        zip_path::slash_joined(zip_path::components(path)) == path,
        !zip_path::components(path)[i].contains('/'),
{
    zip_path::lemma_joined_components(path);
    zip_path::lemma_components_hold_no_slash(path);
}

/// The components of two paths with a slash between them are those of the one and those of the
/// other.
pub proof fn law_components_concat(p: Seq<char>, q: Seq<char>)
    ensures
        zip_path::components(p + "/"@ + q) == zip_path::components(p) + zip_path::components(q),
    decreases p.len(),
{
    reveal_strlit("/");
    let marks = seq!['/'];
    let whole = p + "/"@ + q;
    let slash = text::first_of(p, marks);
    text::lemma_mark_positions(p, marks);
    lemma_part_marks('/');
    assert forall|i: int| 0 <= i < slash implies !marks.contains(#[trigger] whole[i]) by {
        assert(whole[i] == p[i]);
    }
    assert(slash < p.len() ==> whole[slash] == p[slash]);
    text::lemma_first_of(whole, marks, slash);
    assert(whole.take(slash) =~= p.take(slash));
    if slash < p.len() {
        law_components_concat(p.skip(slash + 1), q);
        assert(whole.skip(slash + 1) =~= p.skip(slash + 1) + "/"@ + q);
        assert(zip_path::components(whole) =~= zip_path::components(p) + zip_path::components(q));
    } else {
        assert(p.take(slash) =~= p);
        assert(whole.skip(slash + 1) =~= q);
        assert(zip_path::components(whole) =~= zip_path::components(p) + zip_path::components(q));
    }
}

/// A path without slash is its only component.
pub proof fn law_single_component(c: Seq<char>)
    requires
        !c.contains('/'),
    ensures
        zip_path::components(c) == seq![c],
{
    assert forall|i: int| 0 <= i < c.len() implies !seq!['/'].contains(#[trigger] c[i]) by {
        lemma_part_marks(c[i]);
    }
    text::lemma_first_of(c, seq!['/'], c.len() as int);
}

/// A walk along two lists is a walk along the one and then along the other.
proof fn lemma_walk_concat(stack: Seq<Seq<char>>, a: Seq<Seq<char>>, b: Seq<Seq<char>>)
    ensures
        zip_path::walked_all(stack, a + b) == zip_path::walked_all(
            zip_path::walked_all(stack, a),
            b,
        ),
    decreases a.len(),
{
    if a.len() == 0 {
        assert(a + b =~= b);
    } else {
        assert((a + b).skip(1) =~= a.skip(1) + b);
        lemma_walk_concat(zip_path::walked(stack, a[0]), a.skip(1), b);
    }
}

/// Where the walk along a path ends.
pub open spec fn end_of(path: Seq<char>) -> Seq<Seq<char>> {
    zip_path::walked_all(Seq::empty(), zip_path::components(path))
}

/// The walk along a path with one more component.
proof fn lemma_end_of_longer(p: Seq<char>, c: Seq<char>)
    requires
        !c.contains('/'),
    ensures
        end_of(p + "/"@ + c) == zip_path::walked(end_of(p), c),
        zip_path::normalized(p).len() == 0 <==> end_of(p).len() == 0,
{
    law_components_concat(p, c);
    law_single_component(c);
    lemma_walk_concat(Seq::empty(), zip_path::components(p), seq![c]);
    reveal_with_fuel(zip_path::walked_all, 2);
    assert(seq![c].skip(1) =~= Seq::empty());
    zip_path::lemma_components_hold_no_slash(p);
    zip_path::lemma_walk_is_plain(Seq::empty(), zip_path::components(p));
    if end_of(p).len() > 0 {
        assert(zip_path::is_plain_component(end_of(p)[0]));
        reveal_strlit("");
        assert(end_of(p)[0].len() > 0) by {
            if end_of(p)[0].len() == 0 {
                assert(end_of(p)[0] =~= ""@);
            }
        }
    }
}

/// The normal form of a path grows by a component that names something, and by it only: the rest of
/// the path has the normal form that it has without it.
pub proof fn law_normal_form_grows(p: Seq<char>, c: Seq<char>)
    requires
        c.len() > 0,
        c != "."@,
        c != ".."@,
        !c.contains('/'),
    ensures
        zip_path::normalized(p + "/"@ + c) == (if zip_path::normalized(p).len() == 0 {
            c
        } else {
            zip_path::normalized(p) + "/"@ + c
        }),
        zip_path::normalized(c) == c,
{
    reveal_strlit("");
    lemma_end_of_longer(p, c);
    if end_of(p).len() > 0 {
        zip_path::lemma_join_push(end_of(p), c);
    } else {
        assert(end_of(p).push(c)[0] == c);
    }
    law_single_component(c);
    assert(zip_path::is_plain_component(c));
    zip_path::law_plain_path_is_normal(c);
}

/// A trailing slash and a component `.` leave the normal form as it is.
pub proof fn law_normal_form_passes_over(p: Seq<char>)
    ensures
        zip_path::normalized(p + "/"@) == zip_path::normalized(p),
        zip_path::normalized(p + "/."@) == zip_path::normalized(p),
{
    reveal_strlit("");
    reveal_strlit("/");
    reveal_strlit(".");
    reveal_strlit("/.");
    assert(!""@.contains('/'));
    assert(!"."@.contains('/'));
    lemma_end_of_longer(p, ""@);
    lemma_end_of_longer(p, "."@);
    assert(p + "/"@ + ""@ =~= p + "/"@);
    assert(p + "/"@ + "."@ =~= p + "/."@);
}

/// A component `..` takes back the component before it, and nothing where there is none.
pub proof fn law_normal_form_steps_back(p: Seq<char>, c: Seq<char>)
    requires
        c.len() > 0,
        c != "."@,
        c != ".."@,
        !c.contains('/'),
    ensures
        zip_path::normalized(p + "/"@ + c + "/.."@) == zip_path::normalized(p),
        zip_path::normalized(p).len() == 0 ==> zip_path::normalized(p + "/.."@).len() == 0,
{
    reveal_strlit("");
    reveal_strlit("/");
    reveal_strlit(".");
    reveal_strlit("..");
    reveal_strlit("/..");
    assert(!".."@.contains('/'));
    assert(".."@.len() != "."@.len());
    let longer = p + "/"@ + c;
    lemma_end_of_longer(p, c);
    lemma_end_of_longer(longer, ".."@);
    lemma_end_of_longer(p, ".."@);
    assert(longer + "/"@ + ".."@ =~= longer + "/.."@);
    assert(p + "/"@ + ".."@ =~= p + "/.."@);
    assert(end_of(p).push(c).drop_last() =~= end_of(p));
}

/// Leading slashes, and components `.` and `..` at the front, leave the normal form as it is.
pub proof fn law_normal_form_of_the_front(p: Seq<char>)
    ensures
        zip_path::normalized("/"@ + p) == zip_path::normalized(p),
        zip_path::normalized("./"@ + p) == zip_path::normalized(p),
        zip_path::normalized("../"@ + p) == zip_path::normalized(p),
        zip_path::normalized(Seq::empty()).len() == 0,
{
    reveal_strlit("");
    reveal_strlit("/");
    reveal_strlit(".");
    reveal_strlit("..");
    reveal_strlit("./");
    reveal_strlit("../");
    assert(!""@.contains('/'));
    assert(!"."@.contains('/'));
    assert(!".."@.contains('/'));
    lemma_front(""@, p);
    lemma_front("."@, p);
    lemma_front(".."@, p);
    assert(""@ + "/"@ + p =~= "/"@ + p);
    assert("."@ + "/"@ + p =~= "./"@ + p);
    assert(".."@ + "/"@ + p =~= "../"@ + p);
    law_single_component(Seq::empty());
    assert(Seq::<char>::empty() =~= ""@);
    reveal_with_fuel(zip_path::walked_all, 2);
}

/// A first component that leads nowhere.
proof fn lemma_front(c: Seq<char>, p: Seq<char>)
    requires
        !c.contains('/'),
        zip_path::walked(Seq::empty(), c).len() == 0,
    ensures
        end_of(c + "/"@ + p) == end_of(p),
{
    law_components_concat(c, p);
    law_single_component(c);
    lemma_walk_concat(Seq::empty(), seq![c], zip_path::components(p));
    reveal_with_fuel(zip_path::walked_all, 2);
    assert(seq![c].skip(1) =~= Seq::empty());
    assert(zip_path::walked(Seq::empty(), c) =~= Seq::empty());
}

/// The normal form of a path goes by the normal form of its front.
pub proof fn law_normal_form_of_a_normal_front(p: Seq<char>, q: Seq<char>, c: Seq<char>)
    requires
        zip_path::normalized(p) == zip_path::normalized(q),
    ensures
        zip_path::normalized(p + "/"@ + c) == zip_path::normalized(q + "/"@ + c),
{
    law_components_concat(p, c);
    law_components_concat(q, c);
    lemma_walk_concat(Seq::empty(), zip_path::components(p), zip_path::components(c));
    lemma_walk_concat(Seq::empty(), zip_path::components(q), zip_path::components(c));
    lemma_same_end(p, q);
}

/// Paths of one normal form end at one place.
proof fn lemma_same_end(p: Seq<char>, q: Seq<char>)
    requires
        zip_path::normalized(p) == zip_path::normalized(q),
    ensures
        end_of(p) == end_of(q),
{
    zip_path::lemma_components_hold_no_slash(p);
    zip_path::lemma_components_hold_no_slash(q);
    zip_path::lemma_walk_is_plain(Seq::empty(), zip_path::components(p));
    zip_path::lemma_walk_is_plain(Seq::empty(), zip_path::components(q));
    lemma_end_of_longer(p, Seq::empty());
    lemma_end_of_longer(q, Seq::empty());
    if end_of(p).len() > 0 {
        zip_path::lemma_components_of_joined(end_of(p));
        zip_path::lemma_components_of_joined(end_of(q));
    } else {
        assert(end_of(p) =~= end_of(q));
    }
}

/// The directory of a path is all that stands before its last slash; without slash it is empty.
pub proof fn law_directory(dir: Seq<char>, file: Seq<char>)
    requires
        !file.contains('/'),
    ensures
        zip_path::directory_of(dir + "/"@ + file) == dir,
        zip_path::directory_of(file).len() == 0,
{
    reveal_strlit("/");
    let marks = seq!['/'];
    let front = dir + "/"@;
    lemma_part_marks('/');
    assert forall|i: int| 0 <= i < file.len() implies !marks.contains(#[trigger] file[i]) by {
        lemma_part_marks(file[i]);
    }
    words::law_after_last(front, file, marks);
    words::law_after_last(Seq::empty(), file, marks);
    assert(Seq::<char>::empty() + file =~= file);
    assert((front + file).take(dir.len() as int) =~= dir);
}

/// A target is looked for in the directory of the package document, or, if it begins with slashes,
/// at the top of the archive.
pub proof fn law_located(dir: Seq<char>, file: Seq<char>, slashes: Seq<char>, target: Seq<char>)
    requires
        !file.contains('/'),
        target.len() == 0 || target[0] != '/',
        forall|i: int| 0 <= i < slashes.len() ==> #[trigger] slashes[i] == '/',
    ensures
        zip_path::located(file, target) == zip_path::normalized(target),
        zip_path::located(dir + "/"@ + file, target) == zip_path::normalized(dir + "/"@ + target),
        slashes.len() > 0 ==> zip_path::located(dir + "/"@ + file, slashes + target)
            == zip_path::normalized(target),
        slashes.len() > 0 ==> zip_path::located(file, slashes + target) == zip_path::normalized(
            target,
        ),
{
    law_directory(dir, file);
    if slashes.len() > 0 {
        assert((slashes + target)[0] == slashes[0]);
        words::law_without_leading(slashes, target, '/');
    }
    if dir.len() == 0 {
        law_normal_form_of_the_front(target);
        assert(dir + "/"@ + target =~= "/"@ + target);
    }
}

/// What stands in a reference behind a question mark or a hash sign does not matter; the rest counts
/// whole.
pub proof fn law_reference(opf_path: Seq<char>, target: Seq<char>, back: Seq<char>)
    requires
        forall|i: int| 0 <= i < target.len() ==> #[trigger] target[i] != '?' && target[i] != '#',
        back.len() == 0 || back[0] == '?' || back[0] == '#',
    ensures
        zip_path::file_part(target + back) == target,
        zip_path::resolved(opf_path, target + back) == zip_path::located(opf_path, target),
        zip_path::resolved_decoded(opf_path, target + back) == zip_path::located(
            opf_path,
            xml::lossy_text(zip_path::percent_decoded(encode_utf8(target))),
        ),
{
    let marks = seq!['?', '#'];
    assert forall|i: int| 0 <= i < target.len() implies !marks.contains(#[trigger] target[i]) by {
        lemma_part_marks(target[i]);
    }
    if back.len() > 0 {
        lemma_part_marks(back[0]);
    }
    words::law_before_first(target, back, marks);
}

/// The number that a hexadecimal digit stands for, in either case.
pub open spec fn hexadecimal(b: u8) -> Option<int> {
    if 48 <= b <= 57 {
        Some(b - 48)
    } else if 65 <= b <= 70 {
        Some(b - 55)
    } else if 97 <= b <= 102 {
        Some(b - 87)
    } else {
        None
    }
}

/// A percent sign with two hexadecimal digits behind it stands for the byte that they give; any
/// other byte, and a percent sign without two such digits, stands for itself. What follows is
/// decoded by itself.
pub proof fn law_percent_decoding(hi: u8, lo: u8, b: u8, rest: Seq<u8>)
    ensures
        zip_path::percent_decoded(Seq::empty()).len() == 0,
        hexadecimal(hi) is Some && hexadecimal(lo) is Some ==> {
            let decoded = zip_path::percent_decoded(seq![0x25u8, hi, lo] + rest);
            &&& decoded.len() == zip_path::percent_decoded(rest).len() + 1
            &&& decoded[0] as int == 16 * hexadecimal(hi)->0 + hexadecimal(lo)->0
            &&& decoded.skip(1) == zip_path::percent_decoded(rest)
        },
        b != 0x25 || rest.len() < 2 || hexadecimal(rest[0]) is None || hexadecimal(rest[1]) is None
            ==> zip_path::percent_decoded(seq![b] + rest) == seq![b] + zip_path::percent_decoded(
            rest,
        ),
{
    let escape = seq![0x25u8, hi, lo] + rest;
    assert(escape.skip(3) =~= rest);
    let plain = seq![b] + rest;
    assert(plain.skip(1) =~= rest);
    assert(plain[0] == b);
    if rest.len() >= 2 {
        assert(plain[1] == rest[0]);
        assert(plain[2] == rest[1]);
    }
    let decoded = zip_path::percent_decoded(escape);
    if hexadecimal(hi) is Some && hexadecimal(lo) is Some {
        assert(escape[0] == 0x25 && escape[1] == hi && escape[2] == lo);
        assert(zip_path::leading_escape(escape) is Some);
        assert(decoded.skip(1) =~= zip_path::percent_decoded(rest));
    }
}

/// The model of a list of texts holds each at its place.
pub proof fn law_string_views(list: Seq<String>, i: int)
    requires
        0 <= i < list.len(),
    ensures
        zip_path::string_views(list).len() == list.len(),
        zip_path::string_views(list)[i] == list[i]@,
{
}

} // verus!
