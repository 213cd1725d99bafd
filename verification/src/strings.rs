//! Searching, cutting and joining of text.
use vstd::prelude::*;
use vstd::string::*;
use crate::text::to_chars;

verus! {

/// Whether `part` stands in `s` at `i`.
pub open spec fn stands_at(s: Seq<char>, i: int, part: Seq<char>) -> bool {
    0 <= i && i + part.len() <= s.len() && s.subrange(i, i + part.len()) == part
}

/// Whether `s` begins with `prefix`.
pub open spec fn begins(s: Seq<char>, prefix: Seq<char>) -> bool {
    stands_at(s, 0, prefix)
}

/// Whether `part` stands in `s` somewhere.
pub open spec fn holds(s: Seq<char>, part: Seq<char>) -> bool {
    exists|i: int| stands_at(s, i, part)
}

/// `s` without `prefix`, however often it stands at the beginning.
pub open spec fn without_prefixes(s: Seq<char>, prefix: Seq<char>) -> Seq<char>
    decreases s.len(),
{
    if prefix.len() > 0 && begins(s, prefix) {
        without_prefixes(s.skip(prefix.len() as int), prefix)
    } else {
        s
    }
}

/// `s` with `to` wherever `from` stands, from the left.
pub open spec fn replaced(s: Seq<char>, from: Seq<char>, to: Seq<char>) -> Seq<char>
    decreases s.len(),
{
    if s.len() == 0 || from.len() == 0 {
        s
    } else if begins(s, from) {
        to + replaced(s.skip(from.len() as int), from, to)
    } else {
        seq![s[0]] + replaced(s.skip(1), from, to)
    }
}

/// Whether a character is white space, as Unicode has it.
pub open spec fn is_white_space(c: char) -> bool {
    ||| '\u{9}' <= c <= '\u{d}'
    ||| c == '\u{20}'
    ||| c == '\u{85}'
    ||| c == '\u{a0}'
    ||| c == '\u{1680}'
    ||| '\u{2000}' <= c <= '\u{200a}'
    ||| c == '\u{2028}'
    ||| c == '\u{2029}'
    ||| c == '\u{202f}'
    ||| c == '\u{205f}'
    ||| c == '\u{3000}'
}

/// `s` without the white space at its beginning.
pub open spec fn without_leading_space(s: Seq<char>) -> Seq<char>
    decreases s.len(),
{
    if s.len() > 0 && is_white_space(s[0]) {
        without_leading_space(s.skip(1))
    } else {
        s
    }
}

/// `s` without the white space at its end.
pub open spec fn without_trailing_space(s: Seq<char>) -> Seq<char>
    decreases s.len(),
{
    if s.len() > 0 && is_white_space(s.last()) {
        without_trailing_space(s.drop_last())
    } else {
        s
    }
}

/// `s` without the white space around it.
pub open spec fn trimmed(s: Seq<char>) -> Seq<char> {
    without_trailing_space(without_leading_space(s))
}

/// An ASCII letter in lower case; any other character as it is.
pub open spec fn ascii_lower(c: char) -> char {
    if 'A' <= c <= 'Z' {
        (c as u32 + 32) as char
    } else {
        c
    }
}

/// Whether `s` begins with `prefix`, which is in lower case, in whatever case
/// the letters of `s` are.
pub open spec fn begins_in_any_case(s: Seq<char>, prefix: Seq<char>) -> bool {
    s.len() >= prefix.len() && forall|i: int| 0 <= i < prefix.len() ==> ascii_lower(#[trigger] s[i]) == prefix[i]
}

/// The text that stands in `chars` from `from` up to `to`.
fn text_between(chars: &Vec<char>, from: usize, to: usize) -> (r: String)
    requires
        from <= to <= chars@.len(),
    ensures
        r@ == chars@.subrange(from as int, to as int),
{
    let mut out = String::new();
    append_between(&mut out, chars, from, to);
    assert(out@ =~= chars@.subrange(from as int, to as int));
    out
}

/// Appends the characters from `from` up to `to`.
fn append_between(out: &mut String, chars: &Vec<char>, from: usize, to: usize)
    requires
        from <= to <= chars@.len(),
    ensures
        final(out)@ == old(out)@ + chars@.subrange(from as int, to as int),
{
    let ghost before = out@;
    let mut i: usize = from;
    assert(before + chars@.subrange(from as int, from as int) =~= before);
    while i < to
        invariant
            from <= i <= to <= chars@.len(),
            out@ == before + chars@.subrange(from as int, i as int),
        decreases to - i,
    {
        out.push(chars[i]);
        i += 1;
        assert(out@ =~= before + chars@.subrange(from as int, i as int));
    }
}

/// Whether `part` stands in `chars` at `at`.
fn chars_stand_at(chars: &Vec<char>, at: usize, part: &Vec<char>) -> (r: bool)
    requires
        at <= chars@.len(),
    ensures
        r == stands_at(chars@, at as int, part@),
{
    let total: usize = chars.len();
    if part.len() > total - at {
        return false;
    }
    let mut i: usize = 0;
    while i < part.len()
        invariant
            i <= part@.len(),
            at + part@.len() <= total == chars@.len(),
            forall|k: int| 0 <= k < i ==> #[trigger] part@[k] == chars@[at + k],
        decreases part@.len() - i,
    {
        if part[i] != chars[at + i] {
            assert(chars@.subrange(at as int, at + part@.len())[i as int] != part@[i as int]);
            return false;
        }
        i += 1;
    }
    assert(chars@.subrange(at as int, at + part@.len()) =~= part@);
    true
}

/// Whether `s` begins with `prefix`.
pub fn text_begins(s: &str, prefix: &str) -> (r: bool)
    ensures
        r == begins(s@, prefix@),
{
    chars_stand_at(&to_chars(s), 0, &to_chars(prefix))
}

/// Whether `part` stands in `s` somewhere.
pub fn text_holds(s: &str, part: &str) -> (r: bool)
    ensures
        r == holds(s@, part@),
{
    let chars = to_chars(s);
    let wanted = to_chars(part);
    let mut i: usize = 0;
    while i < chars.len()
        invariant
            i <= chars@.len(),
            chars@ == s@,
            wanted@ == part@,
            forall|k: int| 0 <= k < i ==> !#[trigger] stands_at(s@, k, part@),
        decreases chars@.len() - i,
    {
        if chars_stand_at(&chars, i, &wanted) {
            return true;
        }
        i += 1;
    }
    chars_stand_at(&chars, i, &wanted)
}

/// `s` without `prefix`, however often it stands at the beginning.
pub fn text_without_prefixes(s: &str, prefix: &str) -> (r: String)
    ensures
        r@ == without_prefixes(s@, prefix@),
{
    let chars = to_chars(s);
    let wanted = to_chars(prefix);
    let total: usize = chars.len();
    let mut from: usize = 0;
    assert(chars@.skip(0) =~= chars@);
    if wanted.len() > 0 {
        while chars_stand_at(&chars, from, &wanted)
            invariant
                from <= total == chars@.len(),
                wanted@ == prefix@,
                wanted@.len() > 0,
                without_prefixes(chars@.skip(from as int), prefix@) == without_prefixes(s@, prefix@),
            ensures
                !stands_at(chars@, from as int, wanted@),
            decreases chars@.len() - from,
        {
            assert(chars@.skip(from as int).subrange(0, wanted@.len() as int) =~= chars@.subrange(
                from as int,
                from + wanted@.len(),
            ));
            assert(chars@.skip(from as int).skip(wanted@.len() as int) =~= chars@.skip(from + wanted@.len()));
            from = from + wanted.len();
        }
        assert(begins(chars@.skip(from as int), prefix@) ==> stands_at(chars@, from as int, prefix@)) by {
            if begins(chars@.skip(from as int), prefix@) {
                assert(chars@.skip(from as int).subrange(0, wanted@.len() as int) =~= chars@.subrange(
                    from as int,
                    from + wanted@.len(),
                ));
            }
        }
    }
    assert(chars@.subrange(from as int, chars@.len() as int) =~= chars@.skip(from as int));
    text_between(&chars, from, total)
}

/// `s` with `to` wherever `from` stands, from the left.
pub fn text_replaced(s: &str, from: &str, to: &str) -> (r: String)
    requires
        from@.len() > 0,
    ensures
        r@ == replaced(s@, from@, to@),
{
    let chars = to_chars(s);
    let wanted = to_chars(from);
    let mut out = String::new();
    let mut i: usize = 0;
    assert(chars@.skip(0) =~= chars@);
    assert(out@ + replaced(s@, from@, to@) =~= replaced(s@, from@, to@));
    while i < chars.len()
        invariant
            i <= chars@.len(),
            wanted@ == from@,
            wanted@.len() > 0,
            out@ + replaced(chars@.skip(i as int), from@, to@) == replaced(s@, from@, to@),
        decreases chars@.len() - i,
    {
        let ghost rest = chars@.skip(i as int);
        let ghost before = out@;
        assert(begins(rest, from@) <==> stands_at(chars@, i as int, from@)) by {
            if i + wanted@.len() <= chars@.len() {
                assert(rest.subrange(0, wanted@.len() as int) =~= chars@.subrange(i as int, i + wanted@.len()));
            }
        }
        if chars_stand_at(&chars, i, &wanted) {
            out.append(to);
            assert(rest.skip(wanted@.len() as int) =~= chars@.skip(i + wanted@.len()));
            assert(before + (to@ + replaced(rest.skip(wanted@.len() as int), from@, to@)) =~= out@ + replaced(
                rest.skip(wanted@.len() as int),
                from@,
                to@,
            ));
            i = i + wanted.len();
        } else {
            out.push(chars[i]);
            assert(rest.skip(1) =~= chars@.skip(i + 1));
            assert(before + (seq![rest[0]] + replaced(rest.skip(1), from@, to@)) =~= out@ + replaced(
                rest.skip(1),
                from@,
                to@,
            ));
            i = i + 1;
        }
    }
    assert(chars@.skip(i as int) =~= Seq::<char>::empty());
    assert(out@ + Seq::<char>::empty() =~= out@);
    out
}

/// Whether a character is white space.
fn char_is_white_space(c: char) -> (r: bool)
    ensures
        r == is_white_space(c),
{
    ('\u{9}' <= c && c <= '\u{d}') || c == '\u{20}' || c == '\u{85}' || c == '\u{a0}' || c == '\u{1680}' || (
    '\u{2000}' <= c && c <= '\u{200a}') || c == '\u{2028}' || c == '\u{2029}' || c == '\u{202f}' || c == '\u{205f}'
        || c == '\u{3000}'
}

/// `s` without the white space around it.
pub fn text_trimmed(s: &str) -> (r: String)
    ensures
        r@ == trimmed(s@),
{
    let chars = to_chars(s);
    let mut from: usize = 0;
    assert(chars@.skip(0) =~= chars@);
    while from < chars.len() && char_is_white_space(chars[from])
        invariant
            from <= chars@.len(),
            without_leading_space(chars@.skip(from as int)) == without_leading_space(s@),
        ensures
            from < chars@.len() ==> !is_white_space(chars@[from as int]),
        decreases chars@.len() - from,
    {
        assert(chars@.skip(from as int).skip(1) =~= chars@.skip(from + 1));
        from = from + 1;
    }
    let ghost rest = chars@.skip(from as int);
    assert(without_leading_space(s@) == rest);
    let mut to: usize = chars.len();
    assert(chars@.subrange(from as int, to as int) =~= rest);
    while to > from && char_is_white_space(chars[to - 1])
        invariant
            from <= to <= chars@.len(),
            without_trailing_space(chars@.subrange(from as int, to as int)) == without_trailing_space(rest),
        ensures
            to > from ==> !is_white_space(chars@[to - 1]),
        decreases to,
    {
        let ghost here = chars@.subrange(from as int, to as int);
        assert(here.last() == chars@[to - 1]);
        assert(here.drop_last() =~= chars@.subrange(from as int, to - 1));
        to = to - 1;
    }
    assert(to > from ==> chars@.subrange(from as int, to as int).last() == chars@[to - 1]);
    text_between(&chars, from, to)
}

/// A path without the slashes at its end.
pub open spec fn without_slashes(path: Seq<char>) -> Seq<char>
    decreases path.len(),
{
    if path.len() > 0 && path.last() == '/' {
        without_slashes(path.drop_last())
    } else {
        path
    }
}

/// `path` without the slashes at its end.
pub fn text_without_slashes(path: &str) -> (r: String)
    ensures
        r@ == without_slashes(path@),
{
    let chars = to_chars(path);
    let mut to: usize = chars.len();
    assert(chars@.take(to as int) =~= path@);
    while to > 0 && chars[to - 1] == '/'
        invariant
            to <= chars@.len(),
            without_slashes(chars@.take(to as int)) == without_slashes(path@),
        ensures
            to > 0 ==> chars@[to - 1] != '/',
        decreases to,
    {
        let ghost here = chars@.take(to as int);
        assert(here.last() == chars@[to - 1]);
        assert(here.drop_last() =~= chars@.take(to - 1));
        to = to - 1;
    }
    let ghost rest = chars@.take(to as int);
    assert(to > 0 ==> rest.last() == chars@[to - 1]);
    assert(chars@.subrange(0, to as int) =~= rest);
    text_between(&chars, 0, to)
}

/// Whether `s` begins with `prefix`, which is in lower case, in whatever case
/// the letters of `s` are.
pub fn text_begins_in_any_case(s: &str, prefix: &str) -> (r: bool)
    ensures
        r == begins_in_any_case(s@, prefix@),
{
    let chars = to_chars(s);
    let wanted = to_chars(prefix);
    if chars.len() < wanted.len() {
        return false;
    }
    let mut i: usize = 0;
    while i < wanted.len()
        invariant
            i <= wanted@.len() <= chars@.len(),
            chars@ == s@,
            wanted@ == prefix@,
            forall|k: int| 0 <= k < i ==> ascii_lower(#[trigger] s@[k]) == prefix@[k],
        decreases wanted@.len() - i,
    {
        let c: char = chars[i];
        let lower: char = if 'A' <= c && c <= 'Z' {
            ((c as u8) + 32) as char
        } else {
            c
        };
        assert(lower == ascii_lower(c));
        if lower != wanted[i] {
            assert(s@[i as int] == c);
            return false;
        }
        i += 1;
    }
    true
}

/// What is left of a text without the white space around it has none around it.
pub proof fn trimmed_has_no_space_around(s: Seq<char>)
    ensures
        trimmed(s).len() > 0 ==> !is_white_space(trimmed(s)[0]) && !is_white_space(trimmed(s).last()),
        trimmed(trimmed(s)) == trimmed(s),
{
    let front = without_leading_space(s);
    lemma_leading(s);
    lemma_trailing(front);
    let t = trimmed(s);
    if t.len() > 0 {
        assert(t[0] == front[0]);
    }
}

proof fn lemma_leading(s: Seq<char>)
    ensures
        without_leading_space(s).len() > 0 ==> !is_white_space(without_leading_space(s)[0]),
    decreases s.len(),
{
    if s.len() > 0 && is_white_space(s[0]) {
        lemma_leading(s.skip(1));
    }
}

proof fn lemma_trailing(s: Seq<char>)
    ensures
        without_trailing_space(s).len() > 0 ==> !is_white_space(without_trailing_space(s).last())
            && without_trailing_space(s)[0] == s[0],
        without_trailing_space(s).len() <= s.len(),
    decreases s.len(),
{
    if s.len() > 0 && is_white_space(s.last()) {
        lemma_trailing(s.drop_last());
    }
}

} // verus!
