//! What holds of reading bencoded values: where it starts, where it ends, and what
//! is too short.
use vstd::prelude::*;
use vstd::string::*;
use crate::bencode::{
    encoding, entries_encoding, index_from, info_place, info_place_from, items_encoding, lookup, lemma_rank,
    parse_bytes, parse_entries, parse_items, parse_key, parse_value, put, put_keeps_well_formed,
    rank_from, string_encoding, well_formed, BValue, DecodeFailure, InfoPlace, Step,
};
use crate::bencode_laws::{
    agree, decode_ignores_what_follows, decode_undoes_encode, decoded_is_well_formed, encoding_is_injective,
    info_key_encoding, lemma_entries_layout, lemma_entry_reads_back, lemma_index_from, lemma_index_from_range,
    lemma_string_reads_back, lemma_value_reads_back, lookup_after_put,
};
use crate::numeral::{all_digits, decimal, digits_value, is_digit, signed_decimal, signed_numeral};
use crate::order::bytes_before;

verus! {

/// That there are too few bytes.
pub open spec fn too_short<T>() -> Step<T> {
    Step::Failed(DecodeFailure::UnexpectedEOF)
}

/// Where no `c` stands from `o` on, none is found.
pub(crate) proof fn lemma_no_index(b: Seq<u8>, o: int, c: u8)
    requires
        0 <= o <= b.len(),
        forall|k: int| o <= k < b.len() ==> #[trigger] b[k] != c,
    ensures
        index_from(b, o, c) == b.len(),
    decreases b.len() - o,
{
    if o < b.len() {
        lemma_no_index(b, o + 1, c);
    }
}

/// A beginning of a value, however long, is too short to be read.
pub proof fn a_truncated_value_is_too_short(b: Seq<u8>, o: int, k: int)
    requires
        0 <= o <= k,
        parse_value(b, o) matches Step::Done(_, next) && k < next,
    ensures
        parse_value(b.take(k), o) == too_short::<BValue>(),
    decreases b.len() - o, 1int,
{
    decoded_is_well_formed(b, o);
    let next = parse_value(b, o)->Done_1;
    let c = b.take(k);
    if o < k {
        assert(c[o] == b[o]);
        if b[o] == 'i' as u8 {
            lemma_index_from_range(b, o + 1, 'e' as u8);
            assert forall|m: int| o + 1 <= m < c.len() implies #[trigger] c[m] != 'e' as u8 by {
                assert(c[m] == b[m]);
            }
            lemma_no_index(c, o + 1, 'e' as u8);
        } else if b[o] == 'l' as u8 {
            lemma_items_too_short(b, o + 1, seq![], k);
        } else if b[o] == 'd' as u8 {
            lemma_entries_too_short(b, o + 1, seq![], k);
        } else {
            let colon = index_from(b, o, ':' as u8);
            lemma_index_from_range(b, o, ':' as u8);
            if k <= colon {
                assert forall|m: int| o <= m < c.len() implies #[trigger] c[m] != ':' as u8 by {
                    assert(c[m] == b[m]);
                }
                lemma_no_index(c, o, ':' as u8);
            } else {
                assert forall|m: int| o <= m < colon implies #[trigger] c[m] != ':' as u8 by {
                    assert(c[m] == b[m]);
                }
                lemma_index_from(c, o, colon, ':' as u8);
                assert(c.subrange(o, colon) =~= b.subrange(o, colon));
            }
        }
    }
}

proof fn lemma_items_too_short(b: Seq<u8>, o: int, items: Seq<BValue>, k: int)
    requires
        0 <= o <= k,
        parse_items(b, o, items) matches Step::Done(_, next) && k < next <= b.len(),
    ensures
        parse_items(b.take(k), o, items) == too_short::<Seq<BValue>>(),
    decreases b.len() - o, 2int,
{
    let c = b.take(k);
    if o < k {
        assert(c[o] == b[o]);
        let middle = parse_value(b, o)->Done_1;
        let v = parse_value(b, o)->Done_0;
        if k < middle {
            a_truncated_value_is_too_short(b, o, k);
        } else {
            assert(agree(b, c, middle));
            decode_ignores_what_follows(b, c, o);
            assert(parse_items(b, o, items) == parse_items(b, middle, items.push(v)));
            lemma_items_too_short(b, middle, items.push(v), k);
        }
    }
}

proof fn lemma_entries_too_short(b: Seq<u8>, o: int, entries: Seq<(Seq<u8>, BValue)>, k: int)
    requires
        0 <= o <= k,
        parse_entries(b, o, entries) matches Step::Done(_, next) && k < next <= b.len(),
    ensures
        parse_entries(b.take(k), o, entries) == too_short::<Seq<(Seq<u8>, BValue)>>(),
    decreases b.len() - o, 3int,
{
    let c = b.take(k);
    if o < k {
        assert(c[o] == b[o]);
        let key = parse_key(b, o)->Done_0;
        let middle = parse_key(b, o)->Done_1;
        assert(parse_value(b, o) == Step::<BValue>::Done(BValue::Bytes(key), middle));
        if k < middle {
            a_truncated_value_is_too_short(b, o, k);
        } else {
            assert(agree(b, c, middle));
            decode_ignores_what_follows(b, c, o);
            let v = parse_value(b, middle)->Done_0;
            let next = parse_value(b, middle)->Done_1;
            assert(parse_key(c, o) == Step::<Seq<u8>>::Done(key, middle));
            if k < next {
                a_truncated_value_is_too_short(b, middle, k);
            } else {
                assert(agree(b, c, next));
                decode_ignores_what_follows(b, c, middle);
                assert(parse_entries(b, o, entries) == parse_entries(b, next, put(entries, key, v)));
                lemma_entries_too_short(b, next, put(entries, key, v), k);
            }
        }
    }
}

/// A beginning of the encoding of a value, however long, ends too early, and that
/// is all that is wrong with it.
pub proof fn a_truncated_encoding_is_too_short(v: BValue, k: int)
    requires
        well_formed(v),
        encoding(v).len() <= usize::MAX,
        0 <= k < encoding(v).len(),
    ensures
        parse_value(encoding(v).take(k), 0) == too_short::<BValue>(),
{
    decode_undoes_encode(v, seq![]);
    assert(encoding(v) + Seq::<u8>::empty() =~= encoding(v));
    a_truncated_value_is_too_short(encoding(v), 0, k);
}

/// What reading comes to, with the place where a value ends moved forward by `by`.
pub open spec fn moved<T>(step: Step<T>, by: int) -> Step<T> {
    match step {
        Step::Done(v, next) => Step::Done(v, next - by),
        Step::Failed(failure) => Step::Failed(failure),
        Step::Fault => Step::Fault,
    }
}

proof fn lemma_index_moves(b: Seq<u8>, by: int, o: int, c: u8)
    requires
        0 <= by <= o <= b.len(),
    ensures
        index_from(b.skip(by), o - by, c) == index_from(b, o, c) - by,
    decreases b.len() - o,
{
    if o < b.len() {
        assert(b.skip(by)[o - by] == b[o]);
        lemma_index_moves(b, by, o + 1, c);
    }
}

/// Reading at a place comes to what reading the rest from its start comes to.
proof fn lemma_value_moves(b: Seq<u8>, by: int, o: int)
    requires
        0 <= by <= o,
        !(parse_value(b, o) is Fault),
        by <= b.len(),
    ensures
        parse_value(b.skip(by), o - by) == moved(parse_value(b, o), by),
    decreases b.len() - o, 1int,
{
    let c = b.skip(by);
    if o < b.len() {
        assert(c[o - by] == b[o]);
        if b[o] == 'i' as u8 {
            lemma_index_moves(b, by, o + 1, 'e' as u8);
            lemma_index_from_range(b, o + 1, 'e' as u8);
            let end = index_from(b, o + 1, 'e' as u8);
            if end < b.len() {
                assert(c.subrange(o + 1 - by, end - by) =~= b.subrange(o + 1, end));
            }
        } else if b[o] == 'l' as u8 {
            lemma_items_move(b, by, o + 1, seq![]);
        } else if b[o] == 'd' as u8 {
            lemma_entries_move(b, by, o + 1, seq![]);
        } else if is_digit(b[o]) {
            lemma_index_moves(b, by, o, ':' as u8);
            lemma_index_from_range(b, o, ':' as u8);
            let colon = index_from(b, o, ':' as u8);
            if colon < b.len() {
                assert(c.subrange(o - by, colon - by) =~= b.subrange(o, colon));
                if let Step::Done(_, next) = parse_bytes(b, o) {
                    assert(c.subrange(colon + 1 - by, next - by) =~= b.subrange(colon + 1, next));
                }
            }
        }
    }
}

proof fn lemma_items_move(b: Seq<u8>, by: int, o: int, items: Seq<BValue>)
    requires
        0 <= by <= o,
        !(parse_items(b, o, items) is Fault),
        by <= b.len(),
    ensures
        parse_items(b.skip(by), o - by, items) == moved(parse_items(b, o, items), by),
    decreases b.len() - o, 2int,
{
    let c = b.skip(by);
    if o < b.len() {
        assert(c[o - by] == b[o]);
        if b[o] != 'e' as u8 {
            lemma_value_moves(b, by, o);
            if let Step::Done(v, next) = parse_value(b, o) {
                lemma_items_move(b, by, next, items.push(v));
            }
        }
    }
}

proof fn lemma_entries_move(b: Seq<u8>, by: int, o: int, entries: Seq<(Seq<u8>, BValue)>)
    requires
        0 <= by <= o,
        !(parse_entries(b, o, entries) is Fault),
        by <= b.len(),
    ensures
        parse_entries(b.skip(by), o - by, entries) == moved(parse_entries(b, o, entries), by),
    decreases b.len() - o, 3int,
{
    let c = b.skip(by);
    if o < b.len() {
        assert(c[o - by] == b[o]);
        if b[o] != 'e' as u8 {
            lemma_value_moves(b, by, o);
            assert(parse_key(c, o - by) == moved(parse_key(b, o), by)) by {
                if let Step::Done(_, next) = parse_value(b, o) {
                    if 0 <= next < b.len() {
                        decoded_is_well_formed(b, o);
                        assert(c[next - by] == b[next]);
                    }
                }
            }
            if let Step::Done(key, middle) = parse_key(b, o) {
                lemma_value_moves(b, by, middle);
                if let Step::Done(v, next) = parse_value(b, middle) {
                    lemma_entries_move(b, by, next, put(entries, key, v));
                }
            }
        }
    }
}

/// Reading at a place comes to what reading the rest from its start comes to; and
/// a value that is read there is read from its own bytes alone.
pub proof fn reading_at_a_place_is_reading_the_rest(b: Seq<u8>, o: int)
    requires
        0 <= o <= b.len(),
        !(parse_value(b, o) is Fault),
    ensures
        parse_value(b.skip(o), 0) == moved(parse_value(b, o), o),
        parse_value(b, o) matches Step::Done(v, next) ==> {
            &&& o < next <= b.len()
            &&& parse_value(b.subrange(o, next), 0) == Step::<BValue>::Done(v, next - o)
        },
{
    lemma_value_moves(b, o, o);
    decoded_is_well_formed(b, o);
    if let Step::Done(v, next) = parse_value(b, o) {
        let here = b.subrange(o, next);
        assert(agree(b.skip(o), here, next - o));
        decode_ignores_what_follows(b.skip(o), here, 0);
    }
}

/// Digits denote a number whose numeral is not longer.
proof fn lemma_numeral_is_shortest(s: Seq<u8>)
    requires
        s.len() > 0,
        all_digits(s),
    ensures
        decimal(digits_value(s)).len() <= s.len(),
    decreases s.len(),
{
    let front = s.drop_last();
    assert(is_digit(s[s.len() - 1]));
    if digits_value(s) >= 10 {
        if front.len() == 0 {
            assert(digits_value(front) == 0);
        }
        assert forall|i: int| 0 <= i < front.len() implies is_digit(#[trigger] front[i]) by {
            assert(is_digit(s[i]));
        }
        lemma_numeral_is_shortest(front);
        assert(digits_value(s) / 10 == digits_value(front));
    }
}

proof fn lemma_signed_numeral_is_shortest(s: Seq<u8>, i: int)
    requires
        signed_numeral(s) == Some(i),
    ensures
        signed_decimal(i).len() <= s.len(),
{
    if s[0] == '-' as u8 || s[0] == '+' as u8 {
        lemma_numeral_is_shortest(s.skip(1));
    } else {
        lemma_numeral_is_shortest(s);
    }
}

/// How many bytes the encoding of an entry has.
spec fn entry_length(key: Seq<u8>, v: BValue) -> nat {
    string_encoding(key).len() + encoding(v).len()
}

proof fn lemma_insert_length(entries: Seq<(Seq<u8>, BValue)>, at: int, key: Seq<u8>, v: BValue)
    requires
        0 <= at <= entries.len(),
    ensures
        entries_encoding(entries.insert(at, (key, v))).len() == entries_encoding(entries).len() + entry_length(key, v),
    decreases entries.len(),
{
    let longer = entries.insert(at, (key, v));
    if at == entries.len() {
        assert(longer.drop_last() =~= entries);
    } else {
        assert(longer.drop_last() =~= entries.drop_last().insert(at, (key, v)));
        assert(longer.last() == entries.last());
        lemma_insert_length(entries.drop_last(), at, key, v);
    }
}

proof fn lemma_update_length(entries: Seq<(Seq<u8>, BValue)>, at: int, key: Seq<u8>, v: BValue)
    requires
        0 <= at < entries.len(),
    ensures
        entries_encoding(entries.update(at, (key, v))).len() <= entries_encoding(entries).len() + entry_length(key, v),
    decreases entries.len(),
{
    let other = entries.update(at, (key, v));
    if at == entries.len() - 1 {
        assert(other.drop_last() =~= entries.drop_last());
    } else {
        assert(other.drop_last() =~= entries.drop_last().update(at, (key, v)));
        assert(other.last() == entries.last());
        lemma_update_length(entries.drop_last(), at, key, v);
    }
}

proof fn lemma_put_length(entries: Seq<(Seq<u8>, BValue)>, key: Seq<u8>, v: BValue)
    ensures
        entries_encoding(put(entries, key, v)).len() <= entries_encoding(entries).len() + entry_length(key, v),
{
    let at = rank_from(entries, key, 0);
    lemma_rank(entries, key, 0);
    if at < entries.len() && entries[at].0 == key {
        lemma_update_length(entries, at, key, v);
    } else {
        lemma_insert_length(entries, at, key, v);
    }
}

proof fn lemma_value_length(b: Seq<u8>, o: int)
    requires
        0 <= o,
    ensures
        parse_value(b, o) matches Step::Done(v, next) ==> encoding(v).len() <= next - o,
    decreases b.len() - o, 1int,
{
    if let Step::Done(v, next) = parse_value(b, o) {
        if b[o] == 'i' as u8 {
            let end = index_from(b, o + 1, 'e' as u8);
            lemma_index_from_range(b, o + 1, 'e' as u8);
            lemma_signed_numeral_is_shortest(b.subrange(o + 1, end), v->Int_0 as int);
        } else if b[o] == 'l' as u8 {
            lemma_items_length(b, o + 1, seq![]);
        } else if b[o] == 'd' as u8 {
            lemma_entries_length(b, o + 1, seq![]);
        } else {
            let colon = index_from(b, o, ':' as u8);
            lemma_index_from_range(b, o, ':' as u8);
            lemma_numeral_is_shortest(b.subrange(o, colon));
        }
    }
}

proof fn lemma_items_length(b: Seq<u8>, o: int, items: Seq<BValue>)
    requires
        0 <= o,
    ensures
        parse_items(b, o, items) matches Step::Done(all, next) ==> items_encoding(all).len() + 1 <= items_encoding(
            items,
        ).len() + (next - o),
    decreases b.len() - o, 2int,
{
    if o < b.len() && b[o] != 'e' as u8 {
        lemma_value_length(b, o);
        if let Step::Done(v, next) = parse_value(b, o) {
            if o < next <= b.len() {
                let longer = items.push(v);
                assert(longer.drop_last() =~= items);
                lemma_items_length(b, next, longer);
            }
        }
    }
}

proof fn lemma_entries_length(b: Seq<u8>, o: int, entries: Seq<(Seq<u8>, BValue)>)
    requires
        0 <= o,
    ensures
        parse_entries(b, o, entries) matches Step::Done(all, next) ==> entries_encoding(all).len() + 1
            <= entries_encoding(entries).len() + (next - o),
    decreases b.len() - o, 3int,
{
    if o < b.len() && b[o] != 'e' as u8 {
        lemma_value_length(b, o);
        if let Step::Done(key, middle) = parse_key(b, o) {
            if o < middle <= b.len() {
                assert(encoding(BValue::Bytes(key)) == string_encoding(key));
                lemma_value_length(b, middle);
                if let Step::Done(v, next) = parse_value(b, middle) {
                    if middle < next <= b.len() {
                        lemma_put_length(entries, key, v);
                        lemma_entries_length(b, next, put(entries, key, v));
                    }
                }
            }
        }
    }
}

/// The encoding of a value is the shortest of all bytes that decode to it.
pub proof fn the_encoding_is_the_shortest(b: Seq<u8>)
    requires
        b.len() <= usize::MAX,
        parse_value(b, 0) is Done,
    ensures
        parse_value(b, 0) matches Step::Done(v, next) && {
            &&& encoding(v).len() <= next <= b.len()
            &&& parse_value(encoding(v), 0) == Step::<BValue>::Done(v, encoding(v).len() as int)
        },
{
    lemma_value_length(b, 0);
    decoded_is_well_formed(b, 0);
    let v = parse_value(b, 0)->Done_0;
    decode_undoes_encode(v, seq![]);
    assert(encoding(v) + Seq::<u8>::empty() =~= encoding(v));
}

/// A dictionary is written between a `d` and an `e`, key after key in strictly
/// ascending order, each directly followed by its value.
pub proof fn a_dictionary_is_written_in_order(entries: Seq<(Seq<u8>, BValue)>, i: int)
    requires
        well_formed(BValue::Dict(entries)),
        0 <= i < entries.len(),
    ensures
        ({
            let all = encoding(BValue::Dict(entries));
            let start = 1 + entries_encoding(entries.take(i)).len();
            let middle = start + string_encoding(entries[i].0).len();
            let end = middle + encoding(entries[i].1).len();
            &&& all[0] == 'd' as u8
            &&& all.last() == 'e' as u8
            &&& end < all.len()
            &&& all.subrange(start as int, middle as int) == string_encoding(entries[i].0)
            &&& all.subrange(middle as int, end as int) == encoding(entries[i].1)
            &&& end == 1 + entries_encoding(entries.take(i + 1)).len()
            &&& i + 1 == entries.len() ==> end == all.len() - 1
            &&& i + 1 < entries.len() ==> bytes_before(entries[i].0, entries[i + 1].0)
        }),
{
    let all = encoding(BValue::Dict(entries));
    let inner = entries_encoding(entries);
    let start = 1int + entries_encoding(entries.take(i)).len();
    let middle = start + string_encoding(entries[i].0).len();
    let end = middle + encoding(entries[i].1).len();
    lemma_entries_layout(entries, i);
    assert(all.subrange(start, middle) =~= inner.subrange(start - 1, middle - 1));
    assert(all.subrange(middle, end) =~= inner.subrange(middle - 1, end - 1));
    if i + 1 == entries.len() {
        assert(entries.take(i + 1) =~= entries);
    }
}

/// Where a dictionary has no key `info`, none is found in its encoding, whatever
/// stands in its values and whatever follows it.
pub proof fn without_the_key_no_info_is_found(entries: Seq<(Seq<u8>, BValue)>, rest: Seq<u8>)
    requires
        well_formed(BValue::Dict(entries)),
        forall|i: int| 0 <= i < entries.len() ==> (#[trigger] entries[i]).0 != "info".spec_bytes(),
        encoding(BValue::Dict(entries)).len() + rest.len() <= usize::MAX,
    ensures
        info_place(encoding(BValue::Dict(entries)) + rest) == InfoPlace::Missing,
{
    let b = encoding(BValue::Dict(entries)) + rest;
    let inner = entries_encoding(entries);
    assert(b[0] == 'd' as u8);
    assert(b.subrange(1, 1int + inner.len()) =~= inner);
    assert(b[1 + inner.len() as int] == 'e' as u8);
    assert(entries.take(0) =~= Seq::<(Seq<u8>, BValue)>::empty());
    lemma_info_missing(b, entries, 0);
}

proof fn lemma_info_missing(b: Seq<u8>, entries: Seq<(Seq<u8>, BValue)>, i: int)
    requires
        well_formed(BValue::Dict(entries)),
        0 <= i <= entries.len(),
        forall|k: int| 0 <= k < entries.len() ==> (#[trigger] entries[k]).0 != "info".spec_bytes(),
        1 + entries_encoding(entries).len() < b.len() <= usize::MAX,
        b.subrange(1, 1int + entries_encoding(entries).len()) == entries_encoding(entries),
        b[1int + entries_encoding(entries).len()] == 'e' as u8,
    ensures
        info_place_from(b, 1int + entries_encoding(entries.take(i)).len()) == InfoPlace::Missing,
    decreases entries.len() - i,
{
    if i == entries.len() {
        assert(entries.take(i) =~= entries);
    } else {
        let o = 1int + entries_encoding(entries.take(i)).len();
        let key = string_encoding(entries[i].0);
        lemma_entry_reads_back(b, 1, entries, i);
        lemma_value_reads_back(b, o + key.len(), entries[i].1);
        lemma_entries_layout(entries, i);
        info_key_encoding();
        if key == "4:info".spec_bytes() {
            assert(encoding(BValue::Bytes(entries[i].0)) == key);
            assert(encoding(BValue::Bytes("info".spec_bytes())) == key);
            encoding_is_injective(BValue::Bytes(entries[i].0), BValue::Bytes("info".spec_bytes()));
        }
        lemma_info_missing(b, entries, i + 1);
    }
}

/// How often `key` is read among the keys of a dictionary from `o` on.
pub open spec fn times_read(b: Seq<u8>, o: int, key: Seq<u8>) -> nat
    decreases b.len() - o,
{
    if !(0 <= o < b.len()) || b[o] == 'e' as u8 {
        0
    } else {
        match parse_key(b, o) {
            Step::Done(this, middle) => match parse_value(b, middle) {
                Step::Done(_, next) => if o < middle < next <= b.len() {
                    times_read(b, next, key) + if this == key {
                        1nat
                    } else {
                        0nat
                    }
                } else {
                    0
                },
                _ => 0,
            },
            _ => 0,
        }
    }
}

/// A key that does not occur any more keeps what it holds.
proof fn lemma_untouched(b: Seq<u8>, o: int, entries: Seq<(Seq<u8>, BValue)>, key: Seq<u8>)
    requires
        0 <= o,
        well_formed(BValue::Dict(entries)),
        parse_entries(b, o, entries) is Done,
        times_read(b, o, key) == 0,
    ensures
        lookup(parse_entries(b, o, entries)->Done_0, key) == lookup(entries, key),
    decreases b.len() - o,
{
    if b[o] != 'e' as u8 {
        let this = parse_key(b, o)->Done_0;
        let middle = parse_key(b, o)->Done_1;
        let v = parse_value(b, middle)->Done_0;
        let next = parse_value(b, middle)->Done_1;
        decoded_is_well_formed(b, middle);
        put_keeps_well_formed(entries, this, v);
        lookup_after_put(entries, this, v, key);
        lemma_untouched(b, next, put(entries, this, v), key);
    }
}

/// A key that is written `4:info` is `info`.
proof fn lemma_written_info(b: Seq<u8>, o: int, middle: int)
    requires
        0 <= o <= middle <= b.len() <= usize::MAX,
        b.subrange(o, middle) == "4:info".spec_bytes(),
    ensures
        parse_value(b, o) == Step::<BValue>::Done(BValue::Bytes("info".spec_bytes()), middle),
        "4:info".spec_bytes().len() == 6,
{
    info_key_encoding();
    reveal_strlit("4:info");
    is_ascii_spec_bytes("4:info");
    assert(middle - o == b.subrange(o, middle).len());
    lemma_string_reads_back(b, o, "info".spec_bytes());
}

/// What is found from `o` on is one value, directly behind a key `info`.
proof fn lemma_found(b: Seq<u8>, o: int)
    requires
        0 <= o,
        b.len() <= usize::MAX,
        info_place_from(b, o) is Found,
    ensures
        info_place_from(b, o) matches InfoPlace::Found(start, end) && {
            &&& o + 6 <= start < end <= b.len()
            &&& b.subrange(start - 6, start) == "4:info".spec_bytes()
            &&& parse_value(b, start) matches Step::Done(_, next) && next == end
        },
    decreases b.len() - o,
{
    let middle = parse_value(b, o)->Done_1;
    let end = parse_value(b, middle)->Done_1;
    if b.subrange(o, middle) == "4:info".spec_bytes() {
        lemma_written_info(b, o, middle);
        assert(b.subrange(middle - 6, middle) == b.subrange(o, middle)) by {
            assert(b.subrange(o, middle).len() == middle - o);
        }
    } else {
        lemma_found(b, end);
    }
}

proof fn lemma_found_is_read(b: Seq<u8>, o: int, entries: Seq<(Seq<u8>, BValue)>)
    requires
        0 <= o,
        b.len() <= usize::MAX,
        well_formed(BValue::Dict(entries)),
        parse_entries(b, o, entries) is Done,
        info_place_from(b, o) is Found,
    ensures
        times_read(b, o, "info".spec_bytes()) >= 1,
        times_read(b, o, "info".spec_bytes()) == 1 ==> lookup(
            parse_entries(b, o, entries)->Done_0,
            "info".spec_bytes(),
        ) == Some(parse_value(b, info_place_from(b, o)->Found_0)->Done_0),
    decreases b.len() - o,
{
    let info = "info".spec_bytes();
    let this = parse_key(b, o)->Done_0;
    let middle = parse_key(b, o)->Done_1;
    let v = parse_value(b, middle)->Done_0;
    let next = parse_value(b, middle)->Done_1;
    assert(parse_value(b, o) == Step::<BValue>::Done(BValue::Bytes(this), middle));
    let longer = put(entries, this, v);
    decoded_is_well_formed(b, middle);
    put_keeps_well_formed(entries, this, v);
    lookup_after_put(entries, this, v, info);
    if b.subrange(o, middle) == "4:info".spec_bytes() {
        lemma_written_info(b, o, middle);
        if times_read(b, next, info) == 0 {
            lemma_untouched(b, next, longer, info);
        }
    } else {
        lemma_found_is_read(b, next, longer);
    }
}

/// A place that is found for the info value holds at least one byte.
pub proof fn a_found_place_is_not_empty(b: Seq<u8>)
    requires
        b.len() <= usize::MAX,
        info_place(b) is Found,
    ensures
        info_place(b) matches InfoPlace::Found(start, end) && 7 <= start < end <= b.len(),
{
    lemma_found(b, 1);
}

/// The slice that is found under `info` stands directly behind the key, is exactly
/// one value, and no shorter beginning of it is one. Where the bytes decode to a
/// dictionary in which the key occurs once, it is the value that the dictionary
/// holds there.
pub proof fn the_info_slice_is_one_value(b: Seq<u8>, k: int)
    requires
        b.len() <= usize::MAX,
        info_place(b) matches InfoPlace::Found(start, end) && 0 <= k < end - start,
    ensures
        info_place(b) matches InfoPlace::Found(start, end) && {
            let slice = b.subrange(start, end);
            &&& 7 <= start < end <= b.len()
            &&& b.subrange(start - 6, start) == "4:info".spec_bytes()
            &&& parse_value(slice, 0) matches Step::Done(v, next) && {
                &&& next == slice.len()
                &&& times_read(b, 1, "info".spec_bytes()) == 1 ==> {
                    parse_value(b, 0) matches Step::Done(BValue::Dict(entries), _) ==> lookup(
                        entries,
                        "info".spec_bytes(),
                    ) == Some(v)
                }
            }
            &&& parse_value(slice.take(k), 0) == too_short::<BValue>()
        },
{
    lemma_found(b, 1);
    let start = info_place(b)->Found_0;
    let end = info_place(b)->Found_1;
    reading_at_a_place_is_reading_the_rest(b, start);
    a_truncated_value_is_too_short(b.subrange(start, end), 0, k);
    if let Step::Done(BValue::Dict(_), _) = parse_value(b, 0) {
        lemma_found_is_read(b, 1, seq![]);
    }
}

} // verus!
