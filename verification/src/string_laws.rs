//! What holds of the operations on texts and on numbers in texts.
use vstd::prelude::*;
use vstd::string::*;
use crate::ids::hex_text;
use crate::numeral::{decimal, digits_value, signed_decimal, signed_numeral, unsigned_numeral};
use crate::strings::{
    ascii_lower, begins, begins_in_any_case, holds, is_white_space, replaced, stands_at, trimmed, without_leading_space,
    without_prefixes, without_slashes, without_trailing_space,
};

verus! {

/// A text begins with another where it has the same characters as far as the other
/// goes.
pub proof fn what_a_text_begins_with(s: Seq<char>, prefix: Seq<char>)
    ensures
        begins(s, prefix) <==> s.len() >= prefix.len() && forall|i: int|
            0 <= i < prefix.len() ==> s[i] == #[trigger] prefix[i],
        begins(prefix + s, prefix),
{
    if s.len() >= prefix.len() && forall|i: int| 0 <= i < prefix.len() ==> s[i] == #[trigger] prefix[i] {
        assert(s.subrange(0, prefix.len() as int) =~= prefix);
    }
    if begins(s, prefix) {
        assert forall|i: int| 0 <= i < prefix.len() implies s[i] == #[trigger] prefix[i] by {
            assert(s.subrange(0, prefix.len() as int)[i] == s[i]);
        }
    }
    assert((prefix + s).subrange(0, prefix.len() as int) =~= prefix);
}

/// A text holds another where it is made of something before it, the other, and
/// something behind it.
pub proof fn what_a_text_holds(s: Seq<char>, before: Seq<char>, part: Seq<char>, after: Seq<char>)
    ensures
        holds(before + part + after, part),
        holds(s, part) ==> exists|i: int|
            0 <= i && i + part.len() <= s.len() && #[trigger] s.subrange(i, i + part.len()) == part,
{
    let all = before + part + after;
    assert(all.subrange(before.len() as int, before.len() as int + part.len()) =~= part);
    assert(stands_at(all, before.len() as int, part));
    if holds(s, part) {
        let i = choose|i: int| stands_at(s, i, part);
        assert(s.subrange(i, i + part.len()) == part);
    }
}

/// A text in which a part does not stand is not changed by replacing the part.
pub proof fn what_does_not_hold_a_part_stays(s: Seq<char>, from: Seq<char>, to: Seq<char>)
    requires
        !holds(s, from),
    ensures
        replaced(s, from, to) == s,
    decreases s.len(),
{
    if s.len() > 0 && from.len() > 0 {
        assert(!stands_at(s, 0, from));
        let rest = s.skip(1);
        assert forall|i: int| !stands_at(rest, i, from) by {
            if stands_at(rest, i, from) {
                assert(s.subrange(i + 1, i + 1 + from.len()) =~= rest.subrange(i, i + from.len()));
                assert(stands_at(s, i + 1, from));
            }
        }
        what_does_not_hold_a_part_stays(rest, from, to);
        assert(s =~= seq![s[0]] + rest);
    }
}

/// Where a part stands for the first time, another is put in its place; what is
/// before stays, and in what is behind the part is replaced in the same way.
pub proof fn a_part_is_replaced(before: Seq<char>, from: Seq<char>, after: Seq<char>, to: Seq<char>)
    requires
        from.len() > 0,
        forall|i: int| 0 <= i < before.len() ==> !#[trigger] stands_at(before + from + after, i, from),
    ensures
        replaced(before + from + after, from, to) == before + to + replaced(after, from, to),
    decreases before.len(),
{
    let s = before + from + after;
    if before.len() == 0 {
        assert(s.subrange(0, from.len() as int) =~= from);
        assert(s.skip(from.len() as int) =~= after);
        assert(before + to + replaced(after, from, to) =~= to + replaced(after, from, to));
    } else {
        assert(!stands_at(s, 0, from));
        let shorter = before.skip(1);
        let rest = shorter + from + after;
        assert(s.skip(1) =~= rest);
        assert forall|i: int| 0 <= i < shorter.len() implies !#[trigger] stands_at(rest, i, from) by {
            assert(!stands_at(s, i + 1, from));
            if i + from.len() <= rest.len() {
                assert(s.subrange(i + 1, i + 1 + from.len()) =~= rest.subrange(i, i + from.len()));
            }
        }
        a_part_is_replaced(shorter, from, after, to);
        assert(before + to + replaced(after, from, to) =~= seq![s[0]] + (shorter + to + replaced(after, from, to)));
    }
}

/// A beginning is taken away as often as it stands there, and nothing else is.
pub proof fn a_beginning_is_taken_away(s: Seq<char>, prefix: Seq<char>)
    requires
        prefix.len() > 0,
    ensures
        without_prefixes(prefix + s, prefix) == without_prefixes(s, prefix),
        !begins(s, prefix) ==> without_prefixes(s, prefix) == s,
        !begins(without_prefixes(s, prefix), prefix),
    decreases s.len(),
{
    let all = prefix + s;
    assert(all.subrange(0, prefix.len() as int) =~= prefix);
    assert(all.skip(prefix.len() as int) =~= s);
    if begins(s, prefix) {
        a_beginning_is_taken_away(s.skip(prefix.len() as int), prefix);
    }
}

/// The characters that count as white space, by their numbers.
pub proof fn what_is_white_space(c: char)
    ensures
        is_white_space(c) <==> (9 <= c as u32 <= 13 || c as u32 == 32 || c as u32 == 133 || c as u32 == 160 || c as u32
            == 5760 || 8192 <= c as u32 <= 8202 || c as u32 == 8232 || c as u32 == 8233 || c as u32 == 8239 || c as u32
            == 8287 || c as u32 == 12288),
{
}

/// Trimming takes white space away at both ends, all of it and nothing else.
pub proof fn trimming_takes_white_space_away(s: Seq<char>)
    ensures
        exists|from: int, to: int|
            0 <= from <= to <= s.len() && #[trigger] s.subrange(from, to) == trimmed(s) && (forall|i: int|
                0 <= i < from || to <= i < s.len() ==> is_white_space(#[trigger] s[i])),
        trimmed(s).len() > 0 ==> !is_white_space(trimmed(s)[0]) && !is_white_space(trimmed(s).last()),
{
    crate::strings::trimmed_has_no_space_around(s);
    let front = without_leading_space(s);
    lemma_leading_is_space(s);
    lemma_trailing_is_space(front);
    let from = s.len() - front.len();
    let to = from + trimmed(s).len();
    assert(s.subrange(from, to) =~= trimmed(s)) by {
        assert(s.skip(from) == front);
        assert(front.take(trimmed(s).len() as int) == trimmed(s));
    }
    assert forall|i: int| 0 <= i < from || to <= i < s.len() implies is_white_space(#[trigger] s[i]) by {
        if i >= to {
            assert(front[i - from] == s[i]);
        }
    }
}

proof fn lemma_leading_is_space(s: Seq<char>)
    ensures
        without_leading_space(s).len() <= s.len(),
        s.skip(s.len() - without_leading_space(s).len()) == without_leading_space(s),
        forall|i: int| 0 <= i < s.len() - without_leading_space(s).len() ==> is_white_space(#[trigger] s[i]),
    decreases s.len(),
{
    let t = without_leading_space(s);
    if s.len() > 0 && is_white_space(s[0]) {
        let rest = s.skip(1);
        lemma_leading_is_space(rest);
        assert(s.skip(s.len() - t.len()) =~= rest.skip(rest.len() - t.len()));
        assert forall|i: int| 0 <= i < s.len() - t.len() implies is_white_space(#[trigger] s[i]) by {
            if i > 0 {
                assert(rest[i - 1] == s[i]);
            }
        }
    } else {
        assert(s.skip(0) =~= s);
    }
}

proof fn lemma_trailing_is_space(s: Seq<char>)
    ensures
        without_trailing_space(s).len() <= s.len(),
        s.take(without_trailing_space(s).len() as int) == without_trailing_space(s),
        forall|i: int| without_trailing_space(s).len() <= i < s.len() ==> is_white_space(#[trigger] s[i]),
    decreases s.len(),
{
    let t = without_trailing_space(s);
    if s.len() > 0 && is_white_space(s.last()) {
        let rest = s.drop_last();
        lemma_trailing_is_space(rest);
        assert(s.take(t.len() as int) =~= rest.take(t.len() as int));
        assert forall|i: int| t.len() <= i < s.len() implies is_white_space(#[trigger] s[i]) by {
            if i < s.len() - 1 {
                assert(rest[i] == s[i]);
            }
        }
    } else {
        assert(s.take(s.len() as int) =~= s);
    }
}

/// The twenty-six capital letters get their small ones, and any other character stays.
pub proof fn small_letters(c: char)
    ensures
        65 <= c as u32 <= 90 ==> ascii_lower(c) as u32 == c as u32 + 32,
        !(65 <= c as u32 <= 90) ==> ascii_lower(c) == c,
{
}

proof fn lemma_same_letter(c: char, small: char)
    requires
        !(65 <= small as u32 <= 90),
        c == small || (97 <= small as u32 <= 122 && c as u32 + 32 == small as u32),
    ensures
        ascii_lower(c) == small,
{
}

/// A text begins with another in any case where each of its first characters is the
/// one of the other or, for a small letter, its capital.
pub proof fn what_a_text_begins_with_in_any_case(s: Seq<char>, prefix: Seq<char>)
    requires
        forall|i: int| 0 <= i < prefix.len() ==> !(65 <= (#[trigger] prefix[i]) as u32 <= 90),
    ensures
        begins_in_any_case(s, prefix) <==> s.len() >= prefix.len() && forall|i: int|
            0 <= i < prefix.len() ==> s[i] == #[trigger] prefix[i] || (97 <= prefix[i] as u32 <= 122 && s[i] as u32 + 32
                == prefix[i] as u32),
{
    if begins_in_any_case(s, prefix) {
        assert forall|i: int| 0 <= i < prefix.len() implies s[i] == #[trigger] prefix[i] || (97 <= prefix[i] as u32
            <= 122 && s[i] as u32 + 32 == prefix[i] as u32) by {
            assert(ascii_lower(s[i]) == prefix[i]);
        }
    }
    if s.len() >= prefix.len() && forall|i: int|
        0 <= i < prefix.len() ==> s[i] == #[trigger] prefix[i] || (97 <= prefix[i] as u32 <= 122 && s[i] as u32 + 32
            == prefix[i] as u32) {
        assert forall|i: int| 0 <= i < prefix.len() implies ascii_lower(#[trigger] s[i]) == prefix[i] by {
            assert(s[i] == prefix[i] || (97 <= prefix[i] as u32 <= 122 && s[i] as u32 + 32 == prefix[i] as u32));
            lemma_same_letter(s[i], prefix[i]);
        }
    }
}

/// The slashes at the end of a path are taken away, all of them and nothing else.
pub proof fn slashes_are_taken_away(path: Seq<char>)
    ensures
        without_slashes(path).len() <= path.len(),
        path.take(without_slashes(path).len() as int) == without_slashes(path),
        forall|i: int| without_slashes(path).len() <= i < path.len() ==> #[trigger] path[i] == '/',
        without_slashes(path).len() > 0 ==> without_slashes(path).last() != '/',
    decreases path.len(),
{
    let t = without_slashes(path);
    if path.len() > 0 && path.last() == '/' {
        let rest = path.drop_last();
        slashes_are_taken_away(rest);
        assert(path.take(t.len() as int) =~= rest.take(t.len() as int));
        assert forall|i: int| t.len() <= i < path.len() implies #[trigger] path[i] == '/' by {
            if i < path.len() - 1 {
                assert(rest[i] == path[i]);
            }
        }
    } else {
        assert(path.take(path.len() as int) =~= path);
    }
}

/// A byte is written with two digits, the higher half first, in small letters.
pub proof fn two_digits_for_a_byte(bytes: Seq<u8>, i: int)
    requires
        0 <= i < bytes.len(),
    ensures
        hex_text(bytes).len() == 2 * bytes.len(),
        hex_text(bytes)[2 * i] == "0123456789abcdef"@[bytes[i] as int / 16],
        hex_text(bytes)[2 * i + 1] == "0123456789abcdef"@[bytes[i] as int % 16],
{
    reveal_strlit("0123456789abcdef");
    assert((2 * i) / 2 == i && (2 * i) % 2 == 0);
    assert((2 * i + 1) / 2 == i && (2 * i + 1) % 2 == 1);
}

/// Each digit more of a numeral makes ten times what stands before it and itself. A
/// numeral is one or more digits; any of them may be zero.
pub proof fn what_a_numeral_denotes(s: Seq<u8>, digit: u8)
    ensures
        unsigned_numeral(seq![]) is None,
        unsigned_numeral(seq![digit]) is Some <==> 48 <= digit <= 57,
        48 <= digit <= 57 ==> unsigned_numeral(seq![digit]) == Some((digit - 48) as nat),
        unsigned_numeral(s) matches Some(n) ==> 48 <= digit <= 57 ==> unsigned_numeral(s.push(digit)) == Some(
            (10 * n + digit - 48) as nat,
        ),
        !(48 <= digit <= 57) ==> unsigned_numeral(s.push(digit)) is None,
        s.len() > 0 && unsigned_numeral(s) is None ==> unsigned_numeral(s.push(digit)) is None,
{
    let one = seq![digit];
    assert(one.drop_last() =~= Seq::<u8>::empty());
    assert(digits_value(one.drop_last()) == 0);
    assert(one[0] == digit);
    let more = s.push(digit);
    assert(more.drop_last() =~= s);
    assert(more[s.len() as int] == digit);
    if unsigned_numeral(s) is None && s.len() > 0 {
        let i = choose|i: int| 0 <= i < s.len() && !crate::numeral::is_digit(#[trigger] s[i]);
        assert(more[i] == s[i]);
    }
}

/// A sign before a numeral gives the number or its negative, and nothing but one sign
/// may stand before the digits.
pub proof fn what_a_sign_does(s: Seq<u8>)
    ensures
        signed_numeral(seq!['-' as u8] + s) == match unsigned_numeral(s) {
            Some(n) => Some(-(n as int)),
            None => None::<int>,
        },
        signed_numeral(seq!['+' as u8] + s) == match unsigned_numeral(s) {
            Some(n) => Some(n as int),
            None => None::<int>,
        },
        s.len() > 0 && s[0] != '-' as u8 && s[0] != '+' as u8 ==> signed_numeral(s) == match unsigned_numeral(s) {
            Some(n) => Some(n as int),
            None => None::<int>,
        },
        signed_numeral(seq![]) is None,
{
    assert((seq!['-' as u8] + s).skip(1) =~= s);
    assert((seq!['+' as u8] + s).skip(1) =~= s);
}

/// Numbers are written without zeros before them, and with a sign only where they are
/// negative.
pub proof fn numbers_are_written_as_short_as_can_be(n: nat, i: int)
    ensures
        n == 0 ==> decimal(n) == seq!['0' as u8],
        n > 0 ==> decimal(n)[0] != '0' as u8,
        i < 0 ==> signed_decimal(i) == seq!['-' as u8] + decimal((-i) as nat),
        i >= 0 ==> signed_decimal(i) == decimal(i as nat),
    decreases n,
{
    if n >= 10 {
        numbers_are_written_as_short_as_can_be(n / 10, i);
        crate::numeral::decimal_reads_back(n / 10);
    }
}

} // verus!
