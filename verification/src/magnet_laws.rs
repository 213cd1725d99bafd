//! What holds of magnet links as a whole.
use vstd::prelude::*;
use vstd::string::*;
use vstd::utf8::{
    decode_utf8, encode_utf8, encode_utf8_decode_utf8, encode_utf8_valid_utf8, is_ascii_chars,
    is_ascii_chars_encode_utf8, valid_utf8,
};
use crate::ids::{hex_char, hex_text};
use crate::magnet::{
    all_parts, form_byte, form_encoded, form_unchanged, hex_byte, hex_decoded, hex_read_into, hex_value,
    lemma_prefix_lengths, link_for_hash, magnet_of, pairs_from, part_end, percent_decoded, query_parts, query_text,
    tracker_params, with_part, MagnetError, MagnetView, Parts,
};
use crate::text::{ascii_is_utf8, ascii_text, encode_utf8_concat, encode_utf8_lacks};

verus! {

/// Bytes with a plus sign in place of every space.
pub open spec fn plus_bytes(bytes: Seq<u8>) -> Seq<u8> {
    bytes.map_values(
        |b: u8|
            if b == ' ' as u8 {
                '+' as u8
            } else {
                b
            },
    )
}

/// A text with a plus sign in place of every space.
pub open spec fn plus_text(text: Seq<char>) -> Seq<char> {
    text.map_values(
        |c: char|
            if c == ' ' {
                '+'
            } else {
                c
            },
    )
}

/// Texts with a plus sign in place of every space.
pub open spec fn plus_texts(texts: Seq<Seq<char>>) -> Seq<Seq<char>> {
    texts.map_values(|text: Seq<char>| plus_text(text))
}

/// Texts without a space stay as they are.
pub proof fn without_spaces_nothing_changes(texts: Seq<Seq<char>>)
    requires
        forall|i: int, j: int|
            0 <= i < texts.len() && 0 <= j < texts[i].len() ==> #[trigger] texts[i][j] != ' ',
    ensures
        plus_texts(texts) == texts,
{
    assert forall|i: int| 0 <= i < texts.len() implies plus_text(#[trigger] texts[i]) == texts[i] by {
        assert forall|j: int| 0 <= j < texts[i].len() implies plus_text(texts[i])[j] == texts[i][j] by {
            assert(texts[i][j] != ' ');
        }
        assert(plus_text(texts[i]) =~= texts[i]);
    }
    assert(plus_texts(texts) =~= texts);
}

/// Bytes are read back from the form that they were written in, but for spaces: a
/// space is written as a plus sign, which reads as a plus sign.
pub proof fn form_reads_back(bytes: Seq<u8>)
    ensures
        percent_decoded(form_encoded(bytes)) == Some(plus_bytes(bytes)),
        forall|i: int|
            0 <= i < form_encoded(bytes).len() ==> #[trigger] form_encoded(bytes)[i] < 128
                && form_encoded(bytes)[i] != '&' as u8,
    decreases bytes.len(),
{
    if bytes.len() > 0 {
        let rest = bytes.skip(1);
        form_reads_back(rest);
        let first = form_byte(bytes[0]);
        let all = form_encoded(bytes);
        assert(plus_bytes(bytes) =~= seq![plus_bytes(bytes)[0]] + plus_bytes(rest));
        if form_unchanged(bytes[0]) || bytes[0] == ' ' as u8 {
            assert(all.skip(1) =~= form_encoded(rest));
        } else {
            assert(all.skip(3) =~= form_encoded(rest));
            assert(all[1] == first[1] && all[2] == first[2]);
        }
        assert forall|i: int| 0 <= i < all.len() implies #[trigger] all[i] < 128 && all[i] != '&' as u8 by {
            if i < first.len() {
                assert(all[i] == first[i]);
            } else {
                assert(all[i] == form_encoded(rest)[i - first.len()]);
            }
        }
    } else {
        assert(plus_bytes(bytes) =~= Seq::<u8>::empty());
    }
}

/// A plus sign in place of a space is one in the bytes too.
proof fn lemma_plus(text: Seq<char>)
    ensures
        plus_bytes(encode_utf8(text)) == encode_utf8(plus_text(text)),
    decreases text.len(),
{
    if text.len() == 0 {
        assert(plus_text(text) =~= text);
        assert(plus_bytes(encode_utf8(text)) =~= encode_utf8(text));
    } else {
        let front = text.drop_last();
        let last = seq![text.last()];
        let plus = plus_text(last);
        lemma_plus(front);
        assert(text =~= front + last);
        assert(plus_text(text) =~= plus_text(front) + plus);
        encode_utf8_concat(front, last);
        encode_utf8_concat(plus_text(front), plus);
        assert(plus_bytes(encode_utf8(last)) =~= encode_utf8(plus)) by {
            if text.last() == ' ' {
                assert(plus =~= seq!['+']);
                assert(is_ascii_chars(last) && is_ascii_chars(plus));
                is_ascii_chars_encode_utf8(last);
                is_ascii_chars_encode_utf8(plus);
            } else {
                assert(plus =~= last);
                encode_utf8_lacks(last, ' ' as u8);
            }
        }
        assert(plus_bytes(encode_utf8(text)) =~= plus_bytes(encode_utf8(front)) + plus_bytes(encode_utf8(last)));
    }
}

/// A hash is read back from its hexadecimal text.
pub proof fn hex_reads_back(bytes: Seq<u8>)
    ensures
        hex_decoded(encode_utf8(hex_text(bytes))) == Some(bytes),
{
    let text = hex_text(bytes);
    assert(is_ascii_chars(text)) by {
        assert forall|i: int| 0 <= i < text.len() implies '\u{0}' <= #[trigger] text[i] <= '\u{7f}' by {
            lemma_hex_char(bytes[i / 2] as int / 16);
            lemma_hex_char(bytes[i / 2] as int % 16);
        }
    }
    is_ascii_chars_encode_utf8(text);
    let s = encode_utf8(text);
    assert forall|i: int| 0 <= i < s.len() implies hex_value(#[trigger] s[i]) is Some by {
        lemma_hex_char(bytes[i / 2] as int / 16);
        lemma_hex_char(bytes[i / 2] as int % 16);
        assert(s[i] == text[i] as u8);
    }
    assert(hex_decoded(s)->0 =~= bytes) by {
        assert forall|i: int| 0 <= i < bytes.len() implies hex_byte(s[2 * i], s[2 * i + 1])->0 == bytes[i] by {
            lemma_hex_char(bytes[i] as int / 16);
            lemma_hex_char(bytes[i] as int % 16);
            assert(s[2 * i] == text[2 * i] as u8);
            assert(s[2 * i + 1] == text[2 * i + 1] as u8);
        }
    }
}

proof fn lemma_hex_char(n: int)
    requires
        0 <= n < 16,
    ensures
        hex_value(hex_char(n) as u8) == Some(n as u8),
        (hex_char(n) as u32) < 128,
{
}

proof fn lemma_part_end(q: Seq<u8>, o: int, end: int)
    requires
        0 <= o <= end <= q.len(),
        forall|k: int| o <= k < end ==> #[trigger] q[k] != '&' as u8,
        end < q.len() ==> q[end] == '&' as u8,
    ensures
        part_end(q, o) == end,
    decreases end - o,
{
    if o < end {
        lemma_part_end(q, o + 1, end);
    }
}

proof fn lemma_part_end_range(q: Seq<u8>, o: int)
    requires
        0 <= o <= q.len(),
    ensures
        o <= part_end(q, o) <= q.len(),
        part_end(q, o) < q.len() ==> q[part_end(q, o)] == '&' as u8,
        forall|k: int| o <= k < part_end(q, o) ==> #[trigger] q[k] != '&' as u8,
    decreases q.len() - o,
{
    if o < q.len() && q[o] != '&' as u8 {
        lemma_part_end_range(q, o + 1);
    }
}

/// A part behind one more ampersand is one more part.
proof fn lemma_one_more_part(q: Seq<u8>, part: Seq<u8>, o: int)
    requires
        0 <= o <= q.len(),
        forall|i: int| 0 <= i < part.len() ==> #[trigger] part[i] != '&' as u8,
    ensures
        query_parts(q + seq!['&' as u8] + part, o) == query_parts(q, o).push(part),
    decreases q.len() - o,
{
    let all = q + seq!['&' as u8] + part;
    lemma_part_end_range(q, o);
    let end = part_end(q, o);
    assert forall|k: int| o <= k < end implies #[trigger] all[k] != '&' as u8 by {
        assert(all[k] == q[k]);
    }
    lemma_part_end(all, o, end);
    assert(all.subrange(o, end) =~= q.subrange(o, end));
    if end < q.len() {
        lemma_one_more_part(q, part, end + 1);
        assert(seq![q.subrange(o, end)] + query_parts(q, end + 1).push(part) =~= (seq![
            q.subrange(o, end),
        ] + query_parts(q, end + 1)).push(part));
    } else {
        assert forall|k: int| end + 1 <= k < all.len() implies #[trigger] all[k] != '&' as u8 by {
            assert(all[k] == part[k - end - 1]);
        }
        lemma_part_end(all, end + 1, all.len() as int);
        assert(all.subrange(end + 1, all.len() as int) =~= part);
        assert(query_parts(all, end + 1) =~= seq![part]);
        assert(query_parts(all, o) =~= query_parts(q, o).push(part));
    }
}

/// The query of the link for a hash, in bytes.
spec fn query_for_hash(hash: Seq<u8>, trackers: Seq<Seq<char>>) -> Seq<u8>
    decreases trackers.len(),
{
    if trackers.len() == 0 {
        "xt=urn:btih:".spec_bytes() + hash
    } else {
        query_for_hash(hash, trackers.drop_last()) + seq!['&' as u8] + ("tr=".spec_bytes()
            + form_encoded(encode_utf8(trackers.last())))
    }
}

/// The bytes of the link for a hash.
proof fn lemma_link_bytes(hash: Seq<char>, trackers: Seq<Seq<char>>)
    ensures
        encode_utf8("xt=urn:btih:"@ + hash + tracker_params(trackers)) == query_for_hash(
            encode_utf8(hash),
            trackers,
        ),
    decreases trackers.len(),
{
    let front = "xt=urn:btih:"@ + hash;
    if trackers.len() == 0 {
        assert(front + tracker_params(trackers) =~= front);
        encode_utf8_concat("xt=urn:btih:"@, hash);
    } else {
        let fewer = trackers.drop_last();
        lemma_link_bytes(hash, fewer);
        let last = trackers.last();
        let enc = form_encoded(encode_utf8(last));
        lemma_form_text(last);
        assert(front + tracker_params(trackers) =~= (front + tracker_params(fewer)) + ("&tr="@ + ascii_text(enc)));
        encode_utf8_concat(front + tracker_params(fewer), "&tr="@ + ascii_text(enc));
        encode_utf8_concat("&tr="@, ascii_text(enc));
        ascii_is_utf8(enc);
        reveal_strlit("&tr=");
        reveal_strlit("tr=");
        is_ascii_spec_bytes("&tr=");
        is_ascii_spec_bytes("tr=");
        assert("&tr=".spec_bytes() =~= seq!['&' as u8] + "tr=".spec_bytes());
        assert(encode_utf8(front + tracker_params(trackers)) =~= query_for_hash(encode_utf8(hash), trackers));
    }
}

/// A text is read back from the form that it was written in, but for spaces.
proof fn lemma_form_text(text: Seq<char>)
    ensures
        query_text(form_encoded(encode_utf8(text))) == Some(plus_text(text)),
        forall|i: int|
            0 <= i < form_encoded(encode_utf8(text)).len() ==> #[trigger] form_encoded(encode_utf8(text))[i] < 128
                && form_encoded(encode_utf8(text))[i] != '&' as u8,
{
    form_reads_back(encode_utf8(text));
    lemma_plus(text);
    encode_utf8_valid_utf8(plus_text(text));
    encode_utf8_decode_utf8(plus_text(text));
}

/// What the part that holds the hash says.
proof fn lemma_topic_part(parts: Parts, hash: Seq<u8>)
    requires
        hash.len() == 40,
        hex_decoded(hash) is Some,
    ensures
        with_part(parts, "xt=urn:btih:".spec_bytes() + hash) == (Parts { info_hash: hex_decoded(hash), ..parts }),
{
    let part = "xt=urn:btih:".spec_bytes() + hash;
    lemma_topic_prefix();
    lemma_prefix_lengths();
    assert(part.take(3) =~= "xt=".spec_bytes());
    assert(part.skip(3).take(9) =~= "urn:btih:".spec_bytes());
    assert(part.skip(3).skip(9) =~= hash);
}

proof fn lemma_topic_prefix()
    ensures
        "xt=urn:btih:".spec_bytes() == "xt=".spec_bytes() + "urn:btih:".spec_bytes(),
        forall|i: int|
            0 <= i < "xt=urn:btih:".spec_bytes().len() ==> #[trigger] "xt=urn:btih:".spec_bytes()[i] != '&' as u8,
{
    reveal_strlit("xt=");
    reveal_strlit("urn:btih:");
    reveal_strlit("xt=urn:btih:");
    is_ascii_spec_bytes("xt=");
    is_ascii_spec_bytes("urn:btih:");
    is_ascii_spec_bytes("xt=urn:btih:");
    assert("xt=urn:btih:".spec_bytes() =~= "xt=".spec_bytes() + "urn:btih:".spec_bytes());
}

/// What the part that holds a tracker says.
proof fn lemma_tracker_part(parts: Parts, tracker: Seq<char>)
    ensures
        with_part(parts, "tr=".spec_bytes() + form_encoded(encode_utf8(tracker))) == (Parts {
            trackers: parts.trackers.push(plus_text(tracker)),
            ..parts
        }),
        forall|i: int|
            0 <= i < ("tr=".spec_bytes() + form_encoded(encode_utf8(tracker))).len() ==> #[trigger] (
            "tr=".spec_bytes() + form_encoded(encode_utf8(tracker)))[i] != '&' as u8,
{
    let enc = form_encoded(encode_utf8(tracker));
    let part = "tr=".spec_bytes() + enc;
    lemma_form_text(tracker);
    reveal_strlit("xt=");
    reveal_strlit("tr=");
    is_ascii_spec_bytes("xt=");
    is_ascii_spec_bytes("tr=");
    assert(part.take(3) =~= "tr=".spec_bytes());
    assert(part.take(3)[0] == 't' as u8);
    assert("xt=".spec_bytes()[0] == 'x' as u8);
    assert(part.skip(3) =~= enc);
    assert forall|i: int| 0 <= i < part.len() implies #[trigger] part[i] != '&' as u8 by {
        if i >= 3 {
            assert(part[i] == enc[i - 3]);
        }
    }
}

proof fn lemma_query_parts(hash: Seq<u8>, trackers: Seq<Seq<char>>)
    requires
        hash.len() == 40,
        hex_decoded(hash) is Some,
    ensures
        all_parts(query_parts(query_for_hash(hash, trackers), 0)) == (Parts {
            info_hash: hex_decoded(hash),
            trackers: plus_texts(trackers),
            name: None,
        }),
    decreases trackers.len(),
{
    let q = query_for_hash(hash, trackers);
    let parts = query_parts(q, 0);
    if trackers.len() == 0 {
        let prefix = "xt=urn:btih:".spec_bytes();
        lemma_topic_prefix();
        assert forall|k: int| 0 <= k < q.len() implies #[trigger] q[k] != '&' as u8 by {
            if k < prefix.len() {
                assert(q[k] == prefix[k]);
            } else {
                assert(q[k] == hash[k - prefix.len()]);
                assert(hex_value(hash[k - prefix.len()]) is Some);
            }
        }
        lemma_part_end(q, 0, q.len() as int);
        assert(q.subrange(0, q.len() as int) =~= q);
        assert(parts =~= seq![q]);
        assert(parts.drop_last() =~= Seq::<Seq<u8>>::empty());
        assert(plus_texts(trackers) =~= Seq::<Seq<char>>::empty());
        lemma_topic_part(all_parts(parts.drop_last()), hash);
    } else {
        let fewer = trackers.drop_last();
        lemma_query_parts(hash, fewer);
        let last = trackers.last();
        let before = query_parts(query_for_hash(hash, fewer), 0);
        lemma_tracker_part(all_parts(before), last);
        let part = "tr=".spec_bytes() + form_encoded(encode_utf8(last));
        lemma_one_more_part(query_for_hash(hash, fewer), part, 0);
        assert(parts == before.push(part));
        assert(parts.drop_last() =~= before);
        assert(plus_texts(fewer).push(plus_text(last)) =~= plus_texts(trackers));
    }
}

/// The link that is made for forty hexadecimal digits says what it was made
/// from: the hash, and the trackers, in their order. Only a space in a tracker
/// comes back as a plus sign.
pub proof fn link_for_hash_reads_back(hash: Seq<char>, trackers: Seq<Seq<char>>)
    requires
        encode_utf8(hash).len() == 40,
        hex_decoded(encode_utf8(hash)) is Some,
    ensures
        magnet_of(encode_utf8(link_for_hash(hash, trackers))) == Ok::<MagnetView, MagnetError>(
            MagnetView {
                info_hash: hex_decoded(encode_utf8(hash))->0,
                trackers: plus_texts(trackers),
                name: None,
            },
        ),
{
    let query = "xt=urn:btih:"@ + hash + tracker_params(trackers);
    let link = link_for_hash(hash, trackers);
    reveal_strlit("magnet:?");
    reveal_strlit("xt=urn:btih:");
    reveal_strlit("magnet:?xt=urn:btih:");
    assert(link =~= "magnet:?"@ + query);
    encode_utf8_concat("magnet:?"@, query);
    lemma_prefix_lengths();
    let bytes = encode_utf8(link);
    lemma_link_bytes(hash, trackers);
    assert(bytes.take(8) =~= "magnet:?".spec_bytes());
    assert(bytes.skip(8) =~= query_for_hash(encode_utf8(hash), trackers));
    lemma_query_parts(encode_utf8(hash), trackers);
}

/// Parts of a query with ampersands between them.
pub open spec fn joined_query(parts: Seq<Seq<u8>>) -> Seq<u8>
    decreases parts.len(),
{
    if parts.len() == 0 {
        seq![]
    } else if parts.len() == 1 {
        parts[0]
    } else {
        parts[0] + seq!['&' as u8] + joined_query(parts.skip(1))
    }
}

/// Whether none of the parts holds an ampersand.
pub open spec fn are_parts(parts: Seq<Seq<u8>>) -> bool {
    forall|i: int, k: int| 0 <= i < parts.len() && 0 <= k < parts[i].len() ==> #[trigger] parts[i][k] != '&' as u8
}

/// The first part of a query that is read at `o`.
proof fn lemma_first_part(q: Seq<u8>, o: int, first: Seq<u8>, rest: Seq<u8>, more: bool)
    requires
        0 <= o <= q.len(),
        forall|k: int| 0 <= k < first.len() ==> #[trigger] first[k] != '&' as u8,
        !more ==> q.skip(o) == first,
        more ==> q.skip(o) == first + seq!['&' as u8] + rest,
    ensures
        part_end(q, o) == o + first.len(),
        q.subrange(o, o + first.len()) == first,
        !more ==> q.len() == o + first.len(),
        more ==> o + first.len() + 1 <= q.len() && q.skip(o + first.len() + 1) == rest,
{
    let end = o + first.len();
    let tail = q.skip(o);
    assert(q.len() == o + tail.len());
    assert forall|k: int| 0 <= k < tail.len() implies q[o + k] == #[trigger] tail[k] by {}
    assert forall|k: int| o <= k < end implies #[trigger] q[k] != '&' as u8 by {
        assert(tail[k - o] == first[k - o]);
    }
    if more {
        assert(tail[first.len() as int] == '&' as u8);
        assert(q[end] == '&' as u8);
        assert forall|k: int| 0 <= k < rest.len() implies q.skip(end + 1)[k] == rest[k] by {
            assert(tail[first.len() + 1 + k] == rest[k]);
        }
        assert(q.skip(end + 1) =~= rest);
    }
    lemma_part_end(q, o, end);
    assert forall|k: int| 0 <= k < first.len() implies q.subrange(o, end)[k] == first[k] by {
        assert(tail[k] == first[k]);
    }
    assert(q.subrange(o, end) =~= first);
}

proof fn lemma_joined_query(q: Seq<u8>, o: int, parts: Seq<Seq<u8>>)
    requires
        0 <= o <= q.len(),
        parts.len() > 0,
        are_parts(parts),
        q.skip(o) == joined_query(parts),
    ensures
        query_parts(q, o) == parts,
    decreases parts.len(),
{
    let first = parts[0];
    let end = o + first.len();
    let rest = parts.skip(1);
    assert forall|k: int| 0 <= k < first.len() implies #[trigger] first[k] != '&' as u8 by {
        assert(parts[0][k] != '&' as u8);
    }
    lemma_first_part(q, o, first, joined_query(rest), parts.len() > 1);
    if parts.len() == 1 {
        assert(query_parts(q, o) == seq![q.subrange(o, end)]);
        assert(parts =~= seq![first]);
    } else {
        assert forall|i: int, k: int| 0 <= i < rest.len() && 0 <= k < rest[i].len() implies #[trigger] rest[i][k]
            != '&' as u8 by {
            assert(parts[i + 1][k] != '&' as u8);
        }
        lemma_joined_query(q, end + 1, rest);
        assert(query_parts(q, o) == seq![q.subrange(o, end)] + query_parts(q, end + 1));
        assert(parts =~= seq![first] + rest);
    }
}

/// A query is read as the parts between its ampersands, all of them and in order.
pub proof fn ampersands_separate_the_parts(parts: Seq<Seq<u8>>)
    requires
        parts.len() > 0,
        are_parts(parts),
    ensures
        query_parts(joined_query(parts), 0) == parts,
{
    assert(joined_query(parts).skip(0) =~= joined_query(parts));
    lemma_joined_query(joined_query(parts), 0, parts);
}

/// What hexadecimal digits are worth, in either case; nothing else is a digit.
pub proof fn what_a_digit_is_worth(c: u8)
    ensures
        48 <= c <= 57 ==> hex_value(c) == Some((c - 48) as u8),
        65 <= c <= 70 ==> hex_value(c) == Some((c - 55) as u8),
        97 <= c <= 102 ==> hex_value(c) == Some((c - 87) as u8),
        hex_value(c) is Some ==> 48 <= c <= 57 || 65 <= c <= 70 || 97 <= c <= 102,
{
}

/// Digits are read in pairs, the first of which is worth sixteen times as much; and
/// they are read only where all of them are digits and none is left over.
pub proof fn digits_are_read_in_pairs(s: Seq<u8>)
    ensures
        hex_decoded(s) is Some <==> s.len() % 2 == 0 && forall|i: int|
            0 <= i < s.len() ==> hex_value(#[trigger] s[i]) is Some,
        hex_decoded(s) matches Some(bytes) ==> 2 * bytes.len() == s.len() && forall|i: int|
            0 <= i < bytes.len() ==> #[trigger] bytes[i] == 16 * hex_value(s[2 * i])->0 + hex_value(s[2 * i + 1])->0,
{
    if hex_decoded(s) is Some {
        let bytes = hex_decoded(s)->0;
        assert forall|i: int| 0 <= i < bytes.len() implies #[trigger] bytes[i] == 16 * hex_value(s[2 * i])->0 + hex_value(
            s[2 * i + 1],
        )->0 by {
            assert(hex_value(s[2 * i]) is Some);
            assert(hex_value(s[2 * i + 1]) is Some);
            what_a_digit_is_worth(s[2 * i]);
            what_a_digit_is_worth(s[2 * i + 1]);
        }
    }
}

proof fn lemma_pairs(s: Seq<u8>, i: int)
    requires
        0 <= i,
        2 * i <= s.len(),
    ensures
        i <= pairs_from(s, i),
        2 * pairs_from(s, i) <= s.len(),
        forall|k: int| i <= k < pairs_from(s, i) ==> #[trigger] hex_byte(s[2 * k], s[2 * k + 1]) is Some,
        2 * pairs_from(s, i) + 1 < s.len() ==> hex_byte(s[2 * pairs_from(s, i)], s[2 * pairs_from(s, i) + 1]) is None,
    decreases s.len() - 2 * i,
{
    if 2 * i + 1 < s.len() && hex_byte(s[2 * i], s[2 * i + 1]) is Some {
        lemma_pairs(s, i + 1);
    }
}

/// Digits are read into a buffer up to the first pair that is none; what is behind it
/// stays, and so does everything where the digits are not as many as they should be.
pub proof fn digits_are_read_up_to_the_first_fault(s: Seq<u8>, out: Seq<u8>, i: int)
    requires
        0 <= i < out.len(),
    ensures
        hex_read_into(s, out).len() == out.len(),
        s.len() != 2 * out.len() ==> hex_read_into(s, out) == out,
        s.len() == 2 * out.len() && (forall|k: int| 0 <= k <= 2 * i + 1 ==> hex_value(#[trigger] s[k]) is Some)
            ==> hex_read_into(s, out)[i] == 16 * hex_value(s[2 * i])->0 + hex_value(s[2 * i + 1])->0,
        s.len() == 2 * out.len() && (exists|k: int| 0 <= k <= 2 * i + 1 && hex_value(#[trigger] s[k]) is None)
            ==> hex_read_into(s, out)[i] == out[i],
{
    lemma_pairs(s, 0);
    let n = pairs_from(s, 0);
    if s.len() == 2 * out.len() {
        if forall|k: int| 0 <= k <= 2 * i + 1 ==> hex_value(#[trigger] s[k]) is Some {
            if n <= i {
                assert(hex_value(s[2 * n]) is Some);
                assert(hex_value(s[2 * n + 1]) is Some);
            }
            assert(hex_value(s[2 * i]) is Some);
            assert(hex_value(s[2 * i + 1]) is Some);
            what_a_digit_is_worth(s[2 * i]);
            what_a_digit_is_worth(s[2 * i + 1]);
        } else {
            let k = choose|k: int| 0 <= k <= 2 * i + 1 && hex_value(#[trigger] s[k]) is None;
            if i < n {
                let h = k / 2;
                assert(hex_byte(s[2 * h], s[2 * h + 1]) is Some);
                assert(k == 2 * h || k == 2 * h + 1);
            }
        }
    }
}

/// What holds no percent sign stands for itself.
pub proof fn without_percent_signs_nothing_changes(s: Seq<u8>)
    requires
        forall|i: int| 0 <= i < s.len() ==> #[trigger] s[i] != '%' as u8,
    ensures
        percent_decoded(s) == Some(s),
    decreases s.len(),
{
    if s.len() > 0 {
        let rest = s.skip(1);
        assert forall|i: int| 0 <= i < rest.len() implies #[trigger] rest[i] != '%' as u8 by {
            assert(s[i + 1] != '%' as u8);
        }
        without_percent_signs_nothing_changes(rest);
        assert(s[0] != '%' as u8);
        assert(s =~= seq![s[0]] + rest);
    }
}

/// A percent sign and two digits stand for the byte that the digits denote, and a
/// percent sign without two digits cannot be read.
pub proof fn a_percent_sign_stands_for_a_byte(high: u8, low: u8, rest: Seq<u8>)
    ensures
        hex_value(high) is Some && hex_value(low) is Some ==> percent_decoded(seq!['%' as u8, high, low]) == Some(
            seq![(16 * hex_value(high)->0 + hex_value(low)->0) as u8],
        ),
        hex_value(high) is None || hex_value(low) is None ==> percent_decoded(seq!['%' as u8, high, low] + rest) is None,
        percent_decoded(seq!['%' as u8]) is None,
        percent_decoded(seq!['%' as u8, high]) is None,
{
    let three = seq!['%' as u8, high, low];
    assert(three.skip(3) =~= Seq::<u8>::empty());
    assert(percent_decoded(three.skip(3)) == Some(Seq::<u8>::empty()));
    what_a_digit_is_worth(high);
    what_a_digit_is_worth(low);
    if hex_value(high) is Some && hex_value(low) is Some {
        let one = seq![hex_byte(high, low)->0];
        assert(one + Seq::<u8>::empty() =~= one);
        assert(three[1] == high && three[2] == low && three[0] == '%' as u8);
    }
}

/// What stands behind something that can be read is read behind it.
pub proof fn what_follows_is_read_behind(a: Seq<u8>, b: Seq<u8>)
    requires
        percent_decoded(a) is Some,
    ensures
        match percent_decoded(b) {
            Some(second) => percent_decoded(a + b) == Some(percent_decoded(a)->0 + second),
            None => percent_decoded(a + b) is None,
        },
    decreases a.len(),
{
    let all = a + b;
    if a.len() == 0 {
        assert(all =~= b);
        if let Some(second) = percent_decoded(b) {
            assert(Seq::<u8>::empty() + second =~= second);
        }
    } else {
        let n = if a[0] == '%' as u8 {
            3int
        } else {
            1int
        };
        let rest = a.skip(n);
        assert(all.skip(n) =~= rest + b);
        what_follows_is_read_behind(rest, b);
        if let Some(second) = percent_decoded(b) {
            let front = if a[0] == '%' as u8 {
                seq![hex_byte(a[1], a[2])->0]
            } else {
                seq![a[0]]
            };
            let middle = percent_decoded(rest)->0;
            assert(front + (middle + second) =~= (front + middle) + second);
        }
    }
}

/// A part of a query is a text where its percent signs can be read and its bytes are
/// UTF-8.
pub proof fn where_a_part_is_a_text(s: Seq<u8>)
    ensures
        query_text(s) is Some <==> (percent_decoded(s) matches Some(bytes) && valid_utf8(bytes)),
        query_text(s) matches Some(text) ==> (percent_decoded(s) matches Some(bytes) && text == decode_utf8(bytes)),
{
}

/// A part that names a hash sets the hash and nothing else; it does so only with
/// forty digits.
pub proof fn a_part_with_a_hash(parts: Parts, digits: Seq<u8>)
    ensures
        ({
            let after = with_part(parts, "xt=".spec_bytes() + "urn:btih:".spec_bytes() + digits);
            &&& after.trackers == parts.trackers
            &&& after.name == parts.name
            &&& digits.len() == 40 && hex_decoded(digits) is Some ==> after.info_hash == hex_decoded(digits)
            &&& digits.len() != 40 || hex_decoded(digits) is None ==> after.info_hash == parts.info_hash
        }),
{
    lemma_prefix_lengths();
    let part = "xt=".spec_bytes() + "urn:btih:".spec_bytes() + digits;
    assert(part.take(3) =~= "xt=".spec_bytes());
    let topic = part.skip(3);
    assert(topic.take(9) =~= "urn:btih:".spec_bytes());
    assert(topic.skip(9) =~= digits);
}

/// A topic of another kind says nothing.
pub proof fn a_part_with_another_topic(parts: Parts, topic: Seq<u8>)
    requires
        !(topic.len() >= 9 && topic.take(9) == "urn:btih:".spec_bytes()),
    ensures
        with_part(parts, "xt=".spec_bytes() + topic) == parts,
{
    lemma_prefix_lengths();
    let part = "xt=".spec_bytes() + topic;
    assert(part.take(3) =~= "xt=".spec_bytes());
    assert(part.skip(3) =~= topic);
}

proof fn lemma_different_prefixes()
    ensures
        "xt=".spec_bytes()[0] != "tr=".spec_bytes()[0],
        "xt=".spec_bytes()[0] != "dn=".spec_bytes()[0],
        "tr=".spec_bytes()[0] != "dn=".spec_bytes()[0],
{
    reveal_strlit("xt=");
    reveal_strlit("tr=");
    reveal_strlit("dn=");
    is_ascii_spec_bytes("xt=");
    is_ascii_spec_bytes("tr=");
    is_ascii_spec_bytes("dn=");
}

/// A part that names a tracker adds it behind the others and changes nothing else; one
/// that cannot be read is passed over.
pub proof fn a_part_with_a_tracker(parts: Parts, value: Seq<u8>)
    ensures
        ({
            let after = with_part(parts, "tr=".spec_bytes() + value);
            &&& after.info_hash == parts.info_hash
            &&& after.name == parts.name
            &&& query_text(value) matches Some(text) ==> after.trackers == parts.trackers.push(text)
            &&& query_text(value) is None ==> after.trackers == parts.trackers
        }),
{
    lemma_prefix_lengths();
    lemma_different_prefixes();
    let part = "tr=".spec_bytes() + value;
    assert(part.take(3) =~= "tr=".spec_bytes());
    assert(part.skip(3) =~= value);
    assert(part.take(3)[0] != "xt=".spec_bytes()[0]);
}

/// A part that names the torrent sets its name and nothing else; one that cannot be
/// read is passed over.
pub proof fn a_part_with_a_name(parts: Parts, value: Seq<u8>)
    ensures
        ({
            let after = with_part(parts, "dn=".spec_bytes() + value);
            &&& after.info_hash == parts.info_hash
            &&& after.trackers == parts.trackers
            &&& query_text(value) matches Some(text) ==> after.name == Some(text)
            &&& query_text(value) is None ==> after.name == parts.name
        }),
{
    lemma_prefix_lengths();
    lemma_different_prefixes();
    let part = "dn=".spec_bytes() + value;
    assert(part.take(3) =~= "dn=".spec_bytes());
    assert(part.skip(3) =~= value);
    assert(part.take(3)[0] != "xt=".spec_bytes()[0]);
    assert(part.take(3)[0] != "tr=".spec_bytes()[0]);
}

/// Any other part says nothing.
pub proof fn any_other_part(parts: Parts, part: Seq<u8>)
    requires
        part.len() < 3 || (part.take(3) != "xt=".spec_bytes() && part.take(3) != "tr=".spec_bytes() && part.take(3)
            != "dn=".spec_bytes()),
    ensures
        with_part(parts, part) == parts,
{
    lemma_prefix_lengths();
}

/// A link says what its parts say, one after the other. It must begin as a magnet link
/// does, and one of its parts must name a hash.
pub proof fn a_link_says_what_its_parts_say(parts: Seq<Seq<u8>>, part: Seq<u8>)
    requires
        are_parts(parts.push(part)),
    ensures
        all_parts(seq![]) == (Parts { info_hash: None, trackers: seq![], name: None }),
        all_parts(parts.push(part)) == with_part(all_parts(parts), part),
        ({
            let said = all_parts(parts.push(part));
            match magnet_of("magnet:?".spec_bytes() + joined_query(parts.push(part))) {
                Ok(link) => said.info_hash == Some(link.info_hash) && link.trackers == said.trackers && link.name
                    == said.name,
                Err(e) => said.info_hash is None && e == MagnetError::MissingXt,
            }
        }),
{
    lemma_prefix_lengths();
    let all = parts.push(part);
    assert(all.drop_last() =~= parts);
    ampersands_separate_the_parts(all);
    let url = "magnet:?".spec_bytes() + joined_query(all);
    assert(url.take(8) =~= "magnet:?".spec_bytes());
    assert(url.skip(8) =~= joined_query(all));
}

/// What does not begin as a magnet link does is none.
pub proof fn what_is_no_magnet_link(url: Seq<u8>)
    requires
        url.len() < 8 || url.take(8) != "magnet:?".spec_bytes(),
    ensures
        magnet_of(url) == Err::<MagnetView, MagnetError>(MagnetError::InvalidPrefix),
{
    lemma_prefix_lengths();
}

} // verus!
