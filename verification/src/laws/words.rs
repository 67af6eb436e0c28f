//! Laws of texts: comparing, finding, trimming.

use vstd::prelude::*;

use crate::text;

verus! {

/// The two characters are the same, or the capital and the small form of one ASCII letter.
pub open spec fn are_one_letter(c: char, d: char) -> bool {
    ||| c == d
    ||| 65 <= c as int <= 90 && d as int == c as int + 32
    ||| 65 <= d as int <= 90 && c as int == d as int + 32
}

/// Two texts are the same without regard to case exactly if they are as long as each other, and at
/// each position hold the same character or the two forms of one ASCII letter.
pub proof fn law_same_ignoring_case(a: Seq<char>, b: Seq<char>)
    ensures
        text::same_ignoring_case(a, b) <==> a.len() == b.len() && forall|i: int|
            0 <= i < a.len() ==> are_one_letter(#[trigger] a[i], b[i]),
{
    if text::same_ignoring_case(a, b) {
        assert forall|i: int| 0 <= i < a.len() implies are_one_letter(#[trigger] a[i], b[i]) by {
            assert(text::ascii_lower(a[i]) == text::ascii_lower(b[i]));
            lemma_lower_code(a[i]);
            lemma_lower_code(b[i]);
        }
    }
    if a.len() == b.len() && forall|i: int|
        0 <= i < a.len() ==> are_one_letter(#[trigger] a[i], b[i]) {
        assert forall|i: int| 0 <= i < a.len() implies text::ascii_lower(#[trigger] a[i])
            == text::ascii_lower(b[i]) by {
            assert(are_one_letter(a[i], b[i]));
            lemma_lower_code(a[i]);
            lemma_lower_code(b[i]);
        }
    }
}

/// The code point of a letter in its small form.
proof fn lemma_lower_code(c: char)
    ensures
        65 <= c as int <= 90 ==> text::ascii_lower(c) as int == c as int + 32,
        !(65 <= c as int <= 90) ==> text::ascii_lower(c) == c,
{
}

/// A text opens with a prefix without regard to case exactly if it is as long, and at each position
/// of the prefix holds the same character or the other form of the same letter.
pub proof fn law_starts_ignoring_case(s: Seq<char>, prefix: Seq<char>)
    ensures
        text::starts_ignoring_case(s, prefix) <==> prefix.len() <= s.len() && forall|i: int|
            0 <= i < prefix.len() ==> are_one_letter(#[trigger] s[i], prefix[i]),
{
    if prefix.len() <= s.len() {
        let head = s.take(prefix.len() as int);
        law_same_ignoring_case(head, prefix);
        if text::starts_ignoring_case(s, prefix) {
            assert forall|i: int| 0 <= i < prefix.len() implies are_one_letter(
                #[trigger] s[i],
                prefix[i],
            ) by {
                assert(head[i] == s[i]);
            }
        }
        if forall|i: int| 0 <= i < prefix.len() ==> are_one_letter(#[trigger] s[i], prefix[i]) {
            assert forall|i: int| 0 <= i < head.len() implies are_one_letter(
                #[trigger] head[i],
                prefix[i],
            ) by {
                assert(are_one_letter(s[i], prefix[i]));
            }
        }
    }
}

/// A text holds what stands in it, whatever stands before and behind it.
pub proof fn law_part_occurs(front: Seq<char>, needle: Seq<char>, back: Seq<char>)
    ensures
        text::occurs_in(front + needle + back, needle),
{
    let s = front + needle + back;
    let at = front.len() as int;
    assert(s.subrange(at, at + needle.len()) =~= needle);
    assert(text::stands_at(s, needle, at));
}

/// What a text holds stands in it between a front and a back.
pub proof fn law_occurring_part_stands_somewhere(s: Seq<char>, needle: Seq<char>) -> (r: (
    Seq<char>,
    Seq<char>,
))
    requires
        text::occurs_in(s, needle),
    ensures
        s == r.0 + needle + r.1,
{
    let at = choose|at: int| #[trigger] text::stands_at(s, needle, at);
    let front = s.take(at);
    let back = s.skip(at + needle.len());
    assert(s =~= front + s.subrange(at, at + needle.len()) + back);
    (front, back)
}

/// What stands before the first mark is the text up to it.
pub proof fn law_before_first(front: Seq<char>, rest: Seq<char>, marks: Seq<char>)
    requires
        forall|i: int| 0 <= i < front.len() ==> !marks.contains(#[trigger] front[i]),
        rest.len() == 0 || marks.contains(rest[0]),
    ensures
        text::before_first(front + rest, marks) == front,
{
    let s = front + rest;
    assert forall|i: int| 0 <= i < front.len() implies !marks.contains(#[trigger] s[i]) by {
        assert(s[i] == front[i]);
    }
    text::lemma_first_of(s, marks, front.len() as int);
    assert(s.take(front.len() as int) =~= front);
}

/// What stands behind the last mark is the text from it on.
pub proof fn law_after_last(front: Seq<char>, back: Seq<char>, marks: Seq<char>)
    requires
        front.len() == 0 || marks.contains(front.last()),
        forall|i: int| 0 <= i < back.len() ==> !marks.contains(#[trigger] back[i]),
    ensures
        text::last_of(front + back, marks) == front.len() - 1,
        text::after_last(front + back, marks) == back,
{
    let s = front + back;
    assert forall|i: int| front.len() - 1 < i < s.len() implies !marks.contains(
        #[trigger] s[i],
    ) by {
        assert(s[i] == back[i - front.len()]);
    }
    text::lemma_last_of(s, marks, front.len() - 1);
    assert(s.skip(front.len() as int) =~= back);
}

/// White space is made of the characters with these numbers.
pub proof fn law_white_space(c: char)
    ensures
        text::is_white_space(c) <==> {
            let n = c as int;
            9 <= n <= 13 || n == 32 || n == 133 || n == 160 || n == 5760 || 8192 <= n <= 8202 || n
                == 8232 || n == 8233 || n == 8239 || n == 8287 || n == 12288
        },
{
}

/// All characters are white space.
pub open spec fn are_white(s: Seq<char>) -> bool {
    forall|i: int| 0 <= i < s.len() ==> text::is_white_space(#[trigger] s[i])
}

/// Trimming takes away all white space at both ends, however much it is, and nothing else.
pub proof fn law_trimmed(front: Seq<char>, core: Seq<char>, back: Seq<char>)
    requires
        are_white(front),
        are_white(back),
        core.len() == 0 || (!text::is_white_space(core[0]) && !text::is_white_space(core.last())),
    ensures
        text::trimmed(front + core + back) == core,
{
    let s = front + core + back;
    if core.len() == 0 {
        let all = front + back;
        assert(s =~= all);
        assert forall|i: int| 0 <= i < all.len() implies text::is_white_space(
            #[trigger] all[i],
        ) by {
            if i < front.len() {
                assert(all[i] == front[i]);
            } else {
                assert(all[i] == back[i - front.len()]);
            }
        }
        lemma_leading_space(all, Seq::empty());
        assert(all + Seq::<char>::empty() =~= all);
        assert(text::without_leading_space(s) =~= Seq::empty());
    } else {
        assert(s =~= front + (core + back));
        assert((core + back)[0] == core[0]);
        lemma_leading_space(front, core + back);
        lemma_trailing_space(core, back);
    }
}

/// Leading white space is taken away.
proof fn lemma_leading_space(front: Seq<char>, rest: Seq<char>)
    requires
        are_white(front),
        rest.len() == 0 || !text::is_white_space(rest[0]),
    ensures
        text::without_leading_space(front + rest) == rest,
    decreases front.len(),
{
    let s = front + rest;
    if front.len() > 0 {
        assert(text::is_white_space(front[0]));
        assert(s.skip(1) =~= front.skip(1) + rest);
        assert forall|i: int| 0 <= i < front.skip(1).len() implies text::is_white_space(
            #[trigger] front.skip(1)[i],
        ) by {
            assert(front.skip(1)[i] == front[i + 1]);
        }
        lemma_leading_space(front.skip(1), rest);
    } else {
        assert(s =~= rest);
    }
}

/// Trailing white space is taken away.
proof fn lemma_trailing_space(rest: Seq<char>, back: Seq<char>)
    requires
        are_white(back),
        rest.len() == 0 || !text::is_white_space(rest.last()),
    ensures
        text::without_trailing_space(rest + back) == rest,
    decreases back.len(),
{
    let s = rest + back;
    if back.len() > 0 {
        assert(text::is_white_space(back[back.len() - 1]));
        assert(s.last() == back.last());
        assert(s.drop_last() =~= rest + back.drop_last());
        assert forall|i: int| 0 <= i < back.drop_last().len() implies text::is_white_space(
            #[trigger] back.drop_last()[i],
        ) by {
            assert(back.drop_last()[i] == back[i]);
        }
        lemma_trailing_space(rest, back.drop_last());
    } else {
        assert(s =~= rest);
    }
}

/// All copies of a mark at the front of a text are taken away, and nothing else.
pub proof fn law_without_leading(front: Seq<char>, rest: Seq<char>, mark: char)
    requires
        forall|i: int| 0 <= i < front.len() ==> #[trigger] front[i] == mark,
        rest.len() == 0 || rest[0] != mark,
    ensures
        text::without_leading(front + rest, mark) == rest,
    decreases front.len(),
{
    let s = front + rest;
    if front.len() > 0 {
        assert(front[0] == mark);
        assert(s.skip(1) =~= front.skip(1) + rest);
        assert forall|i: int| 0 <= i < front.skip(1).len() implies #[trigger] front.skip(1)[i]
            == mark by {
            assert(front.skip(1)[i] == front[i + 1]);
        }
        law_without_leading(front.skip(1), rest, mark);
    } else {
        assert(s =~= rest);
    }
}

/// All copies of a mark at the end of a text are taken away, and nothing else.
pub proof fn law_without_trailing(rest: Seq<char>, back: Seq<char>, mark: char)
    requires
        forall|i: int| 0 <= i < back.len() ==> #[trigger] back[i] == mark,
        rest.len() == 0 || rest.last() != mark,
    ensures
        text::without_trailing(rest + back, mark) == rest,
    decreases back.len(),
{
    let s = rest + back;
    if back.len() > 0 {
        assert(back[back.len() - 1] == mark);
        assert(s.last() == back.last());
        assert(s.drop_last() =~= rest + back.drop_last());
        assert forall|i: int| 0 <= i < back.drop_last().len() implies #[trigger] back.drop_last()[i]
            == mark by {
            assert(back.drop_last()[i] == back[i]);
        }
        law_without_trailing(rest, back.drop_last(), mark);
    } else {
        assert(s =~= rest);
    }
}

/// An optional string is told by its characters, and trimmed like any other.
pub proof fn law_optional_text(s: String, t: Seq<char>)
    ensures
        text::optional(Some(s)) == Some(s@),
        text::optional(None) is None,
        text::optional_trimmed(Some(t)) == Some(text::trimmed(t)),
        text::optional_trimmed(None) is None,
{
}

} // verus!
