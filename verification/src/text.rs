//! Text and byte helpers: searching, trimming, splitting and comparing, each
//! stated over the sequence of characters (or bytes) that the value holds.

use vstd::prelude::*;
use vstd::string::*;

verus! {

/// The character `c` with an ASCII capital turned into its small letter.
pub open spec fn ascii_lower(c: char) -> char {
    if 'A' <= c && c <= 'Z' {
        ((c as u32 + 32) as u32) as char
    } else {
        c
    }
}

/// The two texts are equal when ASCII capitals and small letters count as the same.
pub open spec fn same_ignoring_case(a: Seq<char>, b: Seq<char>) -> bool {
    &&& a.len() == b.len()
    &&& forall|i: int| 0 <= i < a.len() ==> ascii_lower(#[trigger] a[i]) == ascii_lower(b[i])
}

/// `needle` stands in `s` from position `at` on.
pub open spec fn stands_at(s: Seq<char>, needle: Seq<char>, at: int) -> bool {
    0 <= at && at + needle.len() <= s.len() && s.subrange(at, at + needle.len()) == needle
}

/// `needle` stands somewhere in `s`.
pub open spec fn occurs_in(s: Seq<char>, needle: Seq<char>) -> bool {
    exists|at: int| #[trigger] stands_at(s, needle, at)
}

/// The first position of `s` that holds one of `marks`; the length of `s` if none does.
pub open spec fn first_of(s: Seq<char>, marks: Seq<char>) -> int
    decreases s.len(),
{
    if s.len() == 0 || marks.contains(s[0]) {
        0
    } else {
        1 + first_of(s.skip(1), marks)
    }
}

/// The last position of `s` that holds one of `marks`; -1 if none does.
pub open spec fn last_of(s: Seq<char>, marks: Seq<char>) -> int
    decreases s.len(),
{
    if s.len() == 0 {
        -1
    } else if marks.contains(s.last()) {
        s.len() - 1
    } else {
        last_of(s.drop_last(), marks)
    }
}

/// What stands before the first of `marks` in `s`.
pub open spec fn before_first(s: Seq<char>, marks: Seq<char>) -> Seq<char> {
    s.take(first_of(s, marks))
}

/// What stands after the last of `marks` in `s`.
pub open spec fn after_last(s: Seq<char>, marks: Seq<char>) -> Seq<char> {
    s.skip(last_of(s, marks) + 1)
}

/// The characters of Unicode's `White_Space` property.
pub open spec fn is_white_space(c: char) -> bool {
    ||| '\u{9}' <= c && c <= '\u{d}'
    ||| c == '\u{20}'
    ||| c == '\u{85}'
    ||| c == '\u{a0}'
    ||| c == '\u{1680}'
    ||| '\u{2000}' <= c && c <= '\u{200a}'
    ||| c == '\u{2028}'
    ||| c == '\u{2029}'
    ||| c == '\u{202f}'
    ||| c == '\u{205f}'
    ||| c == '\u{3000}'
}

/// `s` without the white space at its front.
pub open spec fn without_leading_space(s: Seq<char>) -> Seq<char>
    decreases s.len(),
{
    if s.len() > 0 && is_white_space(s[0]) {
        without_leading_space(s.skip(1))
    } else {
        s
    }
}

/// `s` without the white space at its back.
pub open spec fn without_trailing_space(s: Seq<char>) -> Seq<char>
    decreases s.len(),
{
    if s.len() > 0 && is_white_space(s.last()) {
        without_trailing_space(s.drop_last())
    } else {
        s
    }
}

/// `s` without the white space at either end.
pub open spec fn trimmed(s: Seq<char>) -> Seq<char> {
    without_trailing_space(without_leading_space(s))
}

/// The text of an optional string.
pub open spec fn optional(text: Option<String>) -> Option<Seq<char>> {
    match text {
        Some(s) => Some(s@),
        None => None,
    }
}

/// An optional text without the white space at either end.
pub open spec fn optional_trimmed(text: Option<Seq<char>>) -> Option<Seq<char>> {
    match text {
        Some(s) => Some(trimmed(s)),
        None => None,
    }
}

/// `s` without the copies of `mark` at its front.
pub open spec fn without_leading(s: Seq<char>, mark: char) -> Seq<char>
    decreases s.len(),
{
    if s.len() > 0 && s[0] == mark {
        without_leading(s.skip(1), mark)
    } else {
        s
    }
}

/// `s` without the copies of `mark` at its back.
pub open spec fn without_trailing(s: Seq<char>, mark: char) -> Seq<char>
    decreases s.len(),
{
    if s.len() > 0 && s.last() == mark {
        without_trailing(s.drop_last(), mark)
    } else {
        s
    }
}

/// A position that splits `s` into a part without `marks` and one that opens with a mark
/// is the first position of a mark.
pub proof fn lemma_first_of(s: Seq<char>, marks: Seq<char>, at: int)
    requires
        0 <= at <= s.len(),
        forall|i: int| 0 <= i < at ==> !marks.contains(#[trigger] s[i]),
        at < s.len() ==> marks.contains(s[at]),
    ensures
        first_of(s, marks) == at,
    decreases s.len(),
{
    if at > 0 {
        let rest = s.skip(1);
        assert(!marks.contains(s[0]));
        assert forall|i: int| 0 <= i < at - 1 implies !marks.contains(#[trigger] rest[i]) by {
            assert(rest[i] == s[i + 1]);
        }
        lemma_first_of(rest, marks, at - 1);
    }
}

/// A position that holds a mark, with none behind it, is the last position of a mark.
pub proof fn lemma_last_of(s: Seq<char>, marks: Seq<char>, at: int)
    requires
        -1 <= at < s.len(),
        forall|i: int| at < i < s.len() ==> !marks.contains(#[trigger] s[i]),
        at >= 0 ==> marks.contains(s[at]),
    ensures
        last_of(s, marks) == at,
    decreases s.len(),
{
    if s.len() > 0 && at < s.len() - 1 {
        assert(!marks.contains(s[s.len() - 1]));
        lemma_last_of(s.drop_last(), marks, at);
    }
}

/// Where the first and the last mark stand.
pub proof fn lemma_mark_positions(s: Seq<char>, marks: Seq<char>)
    ensures
        0 <= first_of(s, marks) <= s.len(),
        forall|i: int| 0 <= i < first_of(s, marks) ==> !marks.contains(#[trigger] s[i]),
        first_of(s, marks) < s.len() ==> marks.contains(s[first_of(s, marks)]),
        -1 <= last_of(s, marks) < s.len(),
        forall|i: int| last_of(s, marks) < i < s.len() ==> !marks.contains(#[trigger] s[i]),
        last_of(s, marks) >= 0 ==> marks.contains(s[last_of(s, marks)]),
    decreases s.len(),
{
    if s.len() > 0 {
        lemma_mark_positions(s.skip(1), marks);
        lemma_mark_positions(s.drop_last(), marks);
        if !marks.contains(s[0]) {
            let rest = s.skip(1);
            assert forall|i: int| 0 <= i < first_of(s, marks) implies !marks.contains(
                #[trigger] s[i],
            ) by {
                if i > 0 {
                    assert(rest[i - 1] == s[i]);
                }
            }
        }
        if !marks.contains(s.last()) {
            let front = s.drop_last();
            assert forall|i: int| last_of(s, marks) < i < s.len() implies !marks.contains(
                #[trigger] s[i],
            ) by {
                if i < s.len() - 1 {
                    assert(front[i] == s[i]);
                }
            }
        }
    }
}

/// The characters of `s`, in order.
pub(crate) fn chars_of(s: &str) -> (r: Vec<char>)
    ensures
        r@ == s@,
{
    let mut r: Vec<char> = Vec::new();
    for c in it: s.chars()
        invariant
            it.seq() == s@,
            r@ == s@.take(it.index()),
    {
        proof {
            assert(s@.take(it.index() + 1) == s@.take(it.index()).push(s@[it.index()]));
        }
        r.push(c);
    }
    proof {
        assert(s@.take(s@.len() as int) == s@);
    }
    r
}

/// Whether the two texts are equal.
pub(crate) fn same_text(a: &str, b: &str) -> (r: bool)
    ensures
        r == (a@ == b@),
{
    let left: Vec<char> = chars_of(a);
    let right: Vec<char> = chars_of(b);
    if left.len() != right.len() {
        return false;
    }
    let mut i: usize = 0;
    while i < left.len()
        invariant
            left@ == a@,
            right@ == b@,
            left.len() == right.len(),
            i <= left.len(),
            forall|j: int| 0 <= j < i ==> a@[j] == b@[j],
        decreases left.len() - i,
    {
        if left[i] != right[i] {
            assert(a@[i as int] != b@[i as int]);
            return false;
        }
        i += 1;
    }
    assert(a@ =~= b@);
    true
}

/// Whether `bytes` are the UTF-8 bytes of `text`.
pub(crate) fn bytes_are(bytes: &[u8], text: &str) -> (r: bool)
    ensures
        r == (bytes@ == text.spec_bytes()),
{
    same_bytes(bytes, text.as_bytes())
}

/// Whether the two byte strings are equal.
pub(crate) fn same_bytes(a: &[u8], b: &[u8]) -> (r: bool)
    ensures
        r == (a@ == b@),
{
    if a.len() != b.len() {
        return false;
    }
    let mut i: usize = 0;
    while i < a.len()
        invariant
            a.len() == b.len(),
            i <= a.len(),
            forall|j: int| 0 <= j < i ==> a@[j] == b@[j],
        decreases a.len() - i,
    {
        if a[i] != b[i] {
            return false;
        }
        i += 1;
    }
    assert(a@ =~= b@);
    true
}

/// The code point of `c` with an ASCII capital turned into its small letter.
fn lower_code(c: char) -> (r: u32)
    ensures
        r == ascii_lower(c) as u32,
{
    let code: u32 = c as u32;
    if 'A' <= c && c <= 'Z' {
        code + 32
    } else {
        code
    }
}

/// Whether the two texts are equal when ASCII capitals and small letters count as the same.
pub(crate) fn equal_ignoring_case(a: &str, b: &str) -> (r: bool)
    ensures
        r == same_ignoring_case(a@, b@),
{
    let left: Vec<char> = chars_of(a);
    let right: Vec<char> = chars_of(b);
    left.len() == right.len() && opens_ignoring_case(&left, &right)
}

/// `s` opens with `prefix` when ASCII capitals and small letters count as the same.
pub open spec fn starts_ignoring_case(s: Seq<char>, prefix: Seq<char>) -> bool {
    prefix.len() <= s.len() && same_ignoring_case(s.take(prefix.len() as int), prefix)
}

fn opens_ignoring_case(s: &Vec<char>, prefix: &Vec<char>) -> (r: bool)
    ensures
        r == starts_ignoring_case(s@, prefix@),
        s@.len() == prefix@.len() ==> r == same_ignoring_case(s@, prefix@),
{
    if s.len() < prefix.len() {
        return false;
    }
    let mut i: usize = 0;
    while i < prefix.len()
        invariant
            prefix.len() <= s.len(),
            i <= prefix.len(),
            forall|j: int| 0 <= j < i ==> ascii_lower(s@[j]) == ascii_lower(prefix@[j]),
        decreases prefix.len() - i,
    {
        if lower_code(s[i]) != lower_code(prefix[i]) {
            assert(s@.take(prefix@.len() as int)[i as int] == s@[i as int]);
            return false;
        }
        i += 1;
    }
    true
}

/// Whether `s` opens with `prefix` when ASCII capitals and small letters count as the same.
pub(crate) fn begins_ignoring_case(s: &str, prefix: &str) -> (r: bool)
    ensures
        r == starts_ignoring_case(s@, prefix@),
{
    opens_ignoring_case(&chars_of(s), &chars_of(prefix))
}

/// Whether `needle` stands in `s` from position `at` on.
fn matches_at(s: &Vec<char>, needle: &Vec<char>, at: usize) -> (r: bool)
    requires
        at + needle@.len() <= s@.len(),
    ensures
        r == stands_at(s@, needle@, at as int),
{
    let mut i: usize = 0;
    while i < needle.len()
        invariant
            at + needle@.len() <= s.len(),
            i <= needle.len(),
            forall|j: int| 0 <= j < i ==> s@[at + j] == needle@[j],
        decreases needle.len() - i,
    {
        if s[at + i] != needle[i] {
            assert(s@.subrange(at as int, at + needle@.len())[i as int] == s@[at + i]);
            return false;
        }
        i += 1;
    }
    assert(s@.subrange(at as int, at + needle@.len()) =~= needle@);
    true
}

/// Whether `needle` stands somewhere in `s`.
pub(crate) fn contains(s: &str, needle: &str) -> (r: bool)
    ensures
        r == occurs_in(s@, needle@),
{
    let text: Vec<char> = chars_of(s);
    let wanted: Vec<char> = chars_of(needle);
    let mut at: usize = 0;
    while wanted.len() <= text.len() && at <= text.len() - wanted.len()
        invariant
            text@ == s@,
            wanted@ == needle@,
            at <= text.len(),
            forall|j: int| 0 <= j < at ==> !stands_at(s@, needle@, j),
        decreases text.len() - at,
    {
        if matches_at(&text, &wanted, at) {
            return true;
        }
        if at == text.len() {
            return false;
        }
        at += 1;
    }
    false
}

/// Whether `list` holds `c`.
fn is_one_of(c: char, list: &[char]) -> (r: bool)
    ensures
        r == list@.contains(c),
{
    let mut i: usize = 0;
    while i < list.len()
        invariant
            i <= list.len(),
            forall|j: int| 0 <= j < i ==> list@[j] != c,
        decreases list.len() - i,
    {
        if list[i] == c {
            return true;
        }
        i += 1;
    }
    false
}

/// The first position of `s` that holds one of `marks`; the length of `s` if none does.
pub(crate) fn find_first(s: &Vec<char>, marks: &[char]) -> (r: usize)
    ensures
        r == first_of(s@, marks@),
        r <= s@.len(),
{
    let mut i: usize = 0;
    while i < s.len() && !is_one_of(s[i], marks)
        invariant
            i <= s.len(),
            forall|j: int| 0 <= j < i ==> !marks@.contains(#[trigger] s@[j]),
        decreases s.len() - i,
    {
        i += 1;
    }
    proof {
        lemma_first_of(s@, marks@, i as int);
    }
    i
}

/// One past the last position of `s` that holds one of `marks`; 0 if none does.
pub(crate) fn find_past_last(s: &Vec<char>, marks: &[char]) -> (r: usize)
    ensures
        r == last_of(s@, marks@) + 1,
        r <= s@.len(),
{
    let mut i: usize = s.len();
    while i > 0 && !is_one_of(s[i - 1], marks)
        invariant
            i <= s.len(),
            forall|j: int| i <= j < s.len() ==> !marks@.contains(#[trigger] s@[j]),
        decreases i,
    {
        i -= 1;
    }
    proof {
        lemma_last_of(s@, marks@, i - 1);
    }
    i
}

/// The part of `s` between two positions.
pub(crate) fn part(s: &str, from: usize, to: usize) -> (r: String)
    requires
        from <= to <= s@.len(),
    ensures
        r@ == s@.subrange(from as int, to as int),
{
    s.substring_char(from, to).to_owned()
}

/// `s` without the white space at either end.
pub(crate) fn trim(s: &str) -> (r: String)
    ensures
        r@ == trimmed(s@),
{
    let chars: Vec<char> = chars_of(s);
    let mut from: usize = 0;
    proof {
        assert(s@.skip(0) =~= s@);
    }
    while from < chars.len() && white_space(chars[from])
        invariant
            chars@ == s@,
            from <= chars.len(),
            without_leading_space(s@) == without_leading_space(s@.skip(from as int)),
        decreases chars.len() - from,
    {
        proof {
            assert(s@.skip(from as int).skip(1) =~= s@.skip(from + 1));
        }
        from += 1;
    }
    let ghost led = s@.skip(from as int);
    assert(without_leading_space(s@) == led);
    let mut to: usize = chars.len();
    assert(s@.subrange(from as int, to as int) =~= led);
    while to > from && white_space(chars[to - 1])
        invariant
            chars@ == s@,
            from <= to <= chars.len(),
            without_trailing_space(led) == without_trailing_space(
                s@.subrange(from as int, to as int),
            ),
        decreases to,
    {
        proof {
            let now = s@.subrange(from as int, to as int);
            assert(now.last() == s@[to - 1]);
            assert(now.drop_last() =~= s@.subrange(from as int, to - 1));
        }
        to -= 1;
    }
    proof {
        let now = s@.subrange(from as int, to as int);
        if now.len() > 0 {
            assert(now.last() == s@[to - 1]);
        }
    }
    part(s, from, to)
}

/// Whether `c` is white space.
fn white_space(c: char) -> (r: bool)
    ensures
        r == is_white_space(c),
{
    ('\u{9}' <= c && c <= '\u{d}') || c == '\u{20}' || c == '\u{85}' || c == '\u{a0}'
        || c == '\u{1680}' || ('\u{2000}' <= c && c <= '\u{200a}') || c == '\u{2028}'
        || c == '\u{2029}' || c == '\u{202f}' || c == '\u{205f}' || c == '\u{3000}'
}

/// `s` without the copies of `mark` at its front.
pub(crate) fn trim_leading(s: &str, mark: char) -> (r: String)
    ensures
        r@ == without_leading(s@, mark),
{
    let chars: Vec<char> = chars_of(s);
    let mut from: usize = 0;
    proof {
        assert(s@.skip(0) =~= s@);
    }
    while from < chars.len() && chars[from] == mark
        invariant
            chars@ == s@,
            from <= chars.len(),
            without_leading(s@, mark) == without_leading(s@.skip(from as int), mark),
        decreases chars.len() - from,
    {
        proof {
            assert(s@.skip(from as int).skip(1) =~= s@.skip(from + 1));
        }
        from += 1;
    }
    proof {
        assert(s@.subrange(from as int, s@.len() as int) =~= s@.skip(from as int));
    }
    part(s, from, chars.len())
}

/// `s` without the copies of `mark` at its back.
pub(crate) fn trim_trailing(s: &str, mark: char) -> (r: String)
    ensures
        r@ == without_trailing(s@, mark),
{
    let chars: Vec<char> = chars_of(s);
    let mut to: usize = chars.len();
    proof {
        assert(s@.take(to as int) =~= s@);
    }
    while to > 0 && chars[to - 1] == mark
        invariant
            chars@ == s@,
            to <= chars.len(),
            without_trailing(s@, mark) == without_trailing(s@.take(to as int), mark),
        decreases to,
    {
        proof {
            assert(s@.take(to as int).drop_last() =~= s@.take(to - 1));
        }
        to -= 1;
    }
    proof {
        assert(s@.subrange(0, to as int) =~= s@.take(to as int));
    }
    part(s, 0, to)
}

} // verus!
