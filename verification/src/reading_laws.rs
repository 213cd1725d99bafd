//! What holds of reading bencoded values that were not written in the shortest form
//! or in order, and of bytes that are no value.
use vstd::prelude::*;
use vstd::string::*;
use vstd::utf8::{decode_utf8, valid_utf8};
use crate::bencode::{
    decode_failure_text, description, encoding, entries_description, entries_encoding, info_place, info_place_from,
    items_description, items_encoding, lookup, parse_entries, parse_items, parse_key, parse_value, put,
    put_keeps_well_formed, sorted_by_key, string_encoding, well_formed, BValue, DecodeFailure, InfoPlace, Step,
};
use crate::bencode_laws::{
    decoded_is_well_formed, info_key_encoding, lemma_entry_reads_back, lemma_index_from, lemma_value_reads_back,
    lookup_after_put,
};
use crate::decode_laws::lemma_no_index;
use crate::meta::{meta_failure_text, MetaFailure};
use crate::numeral::{decimal, signed_decimal, signed_numeral, unsigned_numeral};
use crate::text::{ascii_text, decimal_text, quoted_text, shown_text, utf8_fault_text};

verus! {

/// What a value looks like when it is written.
pub proof fn what_a_value_is_written_as(
    i: i64,
    b: Seq<u8>,
    items: Seq<BValue>,
    item: BValue,
    entries: Seq<(Seq<u8>, BValue)>,
    key: Seq<u8>,
)
    ensures
        encoding(BValue::Int(i)) == seq!['i' as u8] + signed_decimal(i as int) + seq!['e' as u8],
        encoding(BValue::Bytes(b)) == decimal(b.len()) + seq![':' as u8] + b,
        encoding(BValue::List(seq![])) == seq!['l' as u8, 'e' as u8],
        encoding(BValue::List(items.push(item))) == encoding(BValue::List(items)).drop_last() + encoding(item) + seq![
            'e' as u8,
        ],
        encoding(BValue::Dict(seq![])) == seq!['d' as u8, 'e' as u8],
        encoding(BValue::Dict(entries.push((key, item)))) == encoding(BValue::Dict(entries)).drop_last() + encoding(
            BValue::Bytes(key),
        ) + encoding(item) + seq!['e' as u8],
{
    assert(items.push(item).drop_last() =~= items);
    assert(entries.push((key, item)).drop_last() =~= entries);
    assert(encoding(BValue::List(items)).drop_last() =~= seq!['l' as u8] + items_encoding(items));
    assert(encoding(BValue::Dict(entries)).drop_last() =~= seq!['d' as u8] + entries_encoding(entries));
    assert(encoding(BValue::List(items.push(item))) =~= encoding(BValue::List(items)).drop_last() + encoding(item) + seq![
        'e' as u8,
    ]);
    assert(encoding(BValue::Dict(entries.push((key, item)))) =~= encoding(BValue::Dict(entries)).drop_last() + encoding(
        BValue::Bytes(key),
    ) + encoding(item) + seq!['e' as u8]);
    let none = Seq::<BValue>::empty();
    assert(items_encoding(none) =~= Seq::<u8>::empty());
    assert(encoding(BValue::List(none)) =~= seq!['l' as u8, 'e' as u8]);
    let nothing = Seq::<(Seq<u8>, BValue)>::empty();
    assert(entries_encoding(nothing) =~= Seq::<u8>::empty());
    assert(encoding(BValue::Dict(nothing)) =~= seq!['d' as u8, 'e' as u8]);
}

/// An integer is read from any numeral between `i` and the first `e`: digits with at
/// most one sign, however many zeros come first. What is no numeral, or too large for
/// 64 bits, is an invalid integer.
pub proof fn how_an_integer_is_read(numeral: Seq<u8>, rest: Seq<u8>)
    requires
        forall|k: int| 0 <= k < numeral.len() ==> #[trigger] numeral[k] != 'e' as u8,
    ensures
        ({
            let b = seq!['i' as u8] + numeral + seq!['e' as u8] + rest;
            &&& !valid_utf8(numeral) ==> parse_value(b, 0) == Step::<BValue>::Failed(
                DecodeFailure::Utf8Error(utf8_fault_text(numeral)),
            )
            &&& valid_utf8(numeral) ==> match signed_numeral(numeral) {
                Some(i) => if i64::MIN <= i <= i64::MAX {
                    parse_value(b, 0) == Step::<BValue>::Done(BValue::Int(i as i64), numeral.len() as int + 2)
                } else {
                    parse_value(b, 0) == Step::<BValue>::Failed(DecodeFailure::InvalidInteger)
                },
                None => parse_value(b, 0) == Step::<BValue>::Failed(DecodeFailure::InvalidInteger),
            }
        }),
        parse_value(seq!['i' as u8] + numeral, 0) == Step::<BValue>::Failed(DecodeFailure::UnexpectedEOF),
{
    let b = seq!['i' as u8] + numeral + seq!['e' as u8] + rest;
    let end = 1 + numeral.len() as int;
    assert forall|k: int| 1 <= k < end implies #[trigger] b[k] != 'e' as u8 by {
        assert(b[k] == numeral[k - 1]);
    }
    assert(b[end] == 'e' as u8);
    lemma_index_from(b, 1, end, 'e' as u8);
    assert(b.subrange(1, end) =~= numeral);
    assert(b[0] == 'i' as u8);
    let open = seq!['i' as u8] + numeral;
    assert forall|k: int| 1 <= k < open.len() implies #[trigger] open[k] != 'e' as u8 by {
        assert(open[k] == numeral[k - 1]);
    }
    lemma_no_index(open, 1, 'e' as u8);
    assert(open[0] == 'i' as u8);
}

/// A byte string is read from any numeral, a colon, and as many bytes; fewer bytes are
/// too short, and what is no numeral is an invalid length.
pub proof fn how_a_byte_string_is_read(numeral: Seq<u8>, rest: Seq<u8>)
    requires
        numeral.len() > 0,
        48 <= numeral[0] <= 57,
        forall|k: int| 0 <= k < numeral.len() ==> #[trigger] numeral[k] != ':' as u8,
        numeral.len() + 1 + rest.len() <= usize::MAX,
    ensures
        ({
            let b = numeral + seq![':' as u8] + rest;
            &&& !valid_utf8(numeral) ==> parse_value(b, 0) == Step::<BValue>::Failed(
                DecodeFailure::Utf8Error(utf8_fault_text(numeral)),
            )
            &&& valid_utf8(numeral) ==> match unsigned_numeral(numeral) {
                Some(n) => {
                    &&& n <= rest.len() ==> parse_value(b, 0) == Step::<BValue>::Done(
                        BValue::Bytes(rest.take(n as int)),
                        numeral.len() as int + 1 + n,
                    )
                    &&& rest.len() < n && numeral.len() + 1 + n <= usize::MAX ==> parse_value(b, 0) == Step::<
                        BValue,
                    >::Failed(DecodeFailure::UnexpectedEOF)
                    &&& n > usize::MAX ==> parse_value(b, 0) == Step::<BValue>::Failed(DecodeFailure::InvalidLength)
                },
                None => parse_value(b, 0) == Step::<BValue>::Failed(DecodeFailure::InvalidLength),
            }
        }),
        parse_value(numeral, 0) == Step::<BValue>::Failed(DecodeFailure::UnexpectedEOF),
{
    let b = numeral + seq![':' as u8] + rest;
    let colon = numeral.len() as int;
    assert forall|k: int| 0 <= k < colon implies #[trigger] b[k] != ':' as u8 by {
        assert(b[k] == numeral[k]);
    }
    assert(b[colon] == ':' as u8);
    lemma_index_from(b, 0, colon, ':' as u8);
    assert(b.subrange(0, colon) =~= numeral);
    assert(b[0] == numeral[0]);
    lemma_no_index(numeral, 0, ':' as u8);
    if let Some(n) = unsigned_numeral(numeral) {
        if n <= rest.len() {
            assert(b.subrange(colon + 1, colon + 1 + n) =~= rest.take(n as int));
        }
    }
}

/// What a value can begin with: nothing is too short, and any other byte is named as
/// the one that is amiss.
pub proof fn what_no_value_begins_with(b: Seq<u8>)
    ensures
        b.len() == 0 ==> parse_value(b, 0) == Step::<BValue>::Failed(DecodeFailure::UnexpectedEOF),
        b.len() > 0 && b[0] != 'i' as u8 && b[0] != 'l' as u8 && b[0] != 'd' as u8 && !(48 <= b[0] <= 57)
            ==> parse_value(b, 0) == Step::<BValue>::Failed(DecodeFailure::InvalidChar(b[0] as char)),
{
}

/// A list is read item by item up to the `e` that ends it; whatever stops an item stops
/// the list.
pub proof fn a_list_is_read_item_by_item(b: Seq<u8>, o: int, items: Seq<BValue>)
    requires
        0 <= o,
    ensures
        b.len() > 0 && b[0] == 'l' as u8 ==> match parse_items(b, 1, seq![]) {
            Step::Done(read, next) => parse_value(b, 0) == Step::<BValue>::Done(BValue::List(read), next),
            Step::Failed(failure) => parse_value(b, 0) == Step::<BValue>::Failed(failure),
            Step::Fault => parse_value(b, 0) is Fault,
        },
        o >= b.len() ==> parse_items(b, o, items) == Step::<Seq<BValue>>::Failed(DecodeFailure::UnexpectedEOF),
        o < b.len() && b[o] == 'e' as u8 ==> parse_items(b, o, items) == Step::<Seq<BValue>>::Done(items, o + 1),
        o < b.len() && b[o] != 'e' as u8 ==> match parse_value(b, o) {
            Step::Done(v, next) => parse_items(b, o, items) == parse_items(b, next, items.push(v)),
            Step::Failed(failure) => parse_items(b, o, items) == Step::<Seq<BValue>>::Failed(failure),
            Step::Fault => parse_items(b, o, items) is Fault,
        },
{
    decoded_is_well_formed(b, o);
    if b.len() > 0 && b[0] == 'l' as u8 {
        assert(parse_value(b, 0) == match parse_items(b, 1, seq![]) {
            Step::Done(read, next) => Step::<BValue>::Done(BValue::List(read), next),
            Step::Failed(failure) => Step::<BValue>::Failed(failure),
            Step::Fault => Step::<BValue>::Fault,
        });
    }
}

/// A dictionary is read key by key and value by value up to the `e` that ends it; a key
/// must be a byte string, and whatever stops a key or a value stops the dictionary.
pub proof fn a_dictionary_is_read_entry_by_entry(b: Seq<u8>, o: int, entries: Seq<(Seq<u8>, BValue)>)
    requires
        0 <= o,
    ensures
        o >= b.len() ==> parse_entries(b, o, entries) == Step::<Seq<(Seq<u8>, BValue)>>::Failed(
            DecodeFailure::UnexpectedEOF,
        ),
        o < b.len() && b[o] == 'e' as u8 ==> parse_entries(b, o, entries) == Step::<Seq<(Seq<u8>, BValue)>>::Done(
            entries,
            o + 1,
        ),
        o < b.len() && b[o] != 'e' as u8 ==> match parse_value(b, o) {
            Step::Done(BValue::Bytes(key), middle) => match parse_value(b, middle) {
                Step::Done(v, next) => parse_entries(b, o, entries) == parse_entries(b, next, put(entries, key, v)),
                Step::Failed(failure) => parse_entries(b, o, entries) == Step::<Seq<(Seq<u8>, BValue)>>::Failed(
                    failure,
                ),
                Step::Fault => parse_entries(b, o, entries) is Fault,
            },
            Step::Done(_, middle) => middle < b.len() ==> parse_entries(b, o, entries) == Step::<
                Seq<(Seq<u8>, BValue)>,
            >::Failed(DecodeFailure::InvalidChar(b[middle] as char)),
            Step::Failed(failure) => parse_entries(b, o, entries) == Step::<Seq<(Seq<u8>, BValue)>>::Failed(failure),
            Step::Fault => parse_entries(b, o, entries) is Fault,
        },
{
    decoded_is_well_formed(b, o);
    if o < b.len() && b[o] != 'e' as u8 {
        if let Step::Done(BValue::Bytes(key), middle) = parse_value(b, o) {
            assert(parse_key(b, o) == Step::<Seq<u8>>::Done(key, middle));
            decoded_is_well_formed(b, middle);
        }
    }
}

/// `entries` put into a dictionary one after the other, from entry `i` on.
pub open spec fn put_all(dict: Seq<(Seq<u8>, BValue)>, entries: Seq<(Seq<u8>, BValue)>, i: int) -> Seq<
    (Seq<u8>, BValue),
>
    decreases entries.len() - i,
{
    if 0 <= i < entries.len() {
        put_all(put(dict, entries[i].0, entries[i].1), entries, i + 1)
    } else {
        dict
    }
}

proof fn lemma_entries_are_put(
    b: Seq<u8>,
    entries: Seq<(Seq<u8>, BValue)>,
    i: int,
    dict: Seq<(Seq<u8>, BValue)>,
)
    requires
        0 <= i <= entries.len(),
        1 + entries_encoding(entries).len() < b.len() <= usize::MAX,
        b.subrange(1, 1int + entries_encoding(entries).len()) == entries_encoding(entries),
        b[1int + entries_encoding(entries).len()] == 'e' as u8,
        forall|k: int| 0 <= k < entries.len() ==> well_formed((#[trigger] entries[k]).1),
    ensures
        parse_entries(b, 1int + entries_encoding(entries.take(i)).len(), dict) == Step::<Seq<(Seq<u8>, BValue)>>::Done(
            put_all(dict, entries, i),
            2int + entries_encoding(entries).len(),
        ),
    decreases entries.len() - i,
{
    let at = 1int + entries_encoding(entries.take(i)).len();
    if i < entries.len() {
        lemma_entry_reads_back(b, 1, entries, i);
        let middle = at + string_encoding(entries[i].0).len();
        let next = middle + encoding(entries[i].1).len();
        assert(well_formed(entries[i].1));
        lemma_value_reads_back(b, middle, entries[i].1);
        crate::bencode_laws::lemma_entries_layout(entries, i);
        assert(next == 1int + entries_encoding(entries.take(i + 1)).len());
        assert(parse_key(b, at) == Step::<Seq<u8>>::Done(entries[i].0, middle));
        lemma_entries_are_put(b, entries, i + 1, put(dict, entries[i].0, entries[i].1));
        assert(parse_entries(b, at, dict) == parse_entries(b, next, put(dict, entries[i].0, entries[i].1)));
    } else {
        assert(entries.take(i) =~= entries);
    }
}

proof fn lemma_put_all(dict: Seq<(Seq<u8>, BValue)>, entries: Seq<(Seq<u8>, BValue)>, i: int, key: Seq<u8>)
    requires
        0 <= i <= entries.len(),
        well_formed(BValue::Dict(dict)),
        forall|k: int| 0 <= k < entries.len() ==> well_formed((#[trigger] entries[k]).1),
        lookup(dict, key) == lookup(entries.take(i), key),
    ensures
        well_formed(BValue::Dict(put_all(dict, entries, i))),
        lookup(put_all(dict, entries, i), key) == lookup(entries, key),
    decreases entries.len() - i,
{
    if i < entries.len() {
        let more = put(dict, entries[i].0, entries[i].1);
        assert(well_formed(entries[i].1));
        put_keeps_well_formed(dict, entries[i].0, entries[i].1);
        lookup_after_put(dict, entries[i].0, entries[i].1, key);
        assert(entries.take(i + 1).drop_last() =~= entries.take(i));
        lemma_put_all(more, entries, i + 1, key);
    } else {
        assert(entries.take(i) =~= entries);
    }
}

/// The keys of a dictionary may come in any order and more than once: they are put in
/// order, and what came last under a key counts.
pub proof fn keys_may_come_in_any_order(entries: Seq<(Seq<u8>, BValue)>, rest: Seq<u8>, key: Seq<u8>)
    requires
        forall|k: int| 0 <= k < entries.len() ==> well_formed((#[trigger] entries[k]).1),
        encoding(BValue::Dict(entries)).len() + rest.len() <= usize::MAX,
    ensures
        parse_value(encoding(BValue::Dict(entries)) + rest, 0) matches Step::Done(BValue::Dict(read), next) && {
            &&& next == encoding(BValue::Dict(entries)).len()
            &&& sorted_by_key(read)
            &&& lookup(read, key) == lookup(entries, key)
        },
{
    let all = encoding(BValue::Dict(entries));
    let b = all + rest;
    let body = entries_encoding(entries);
    let none = Seq::<(Seq<u8>, BValue)>::empty();
    assert(b.subrange(1, 1int + body.len()) =~= body);
    assert(b[1int + body.len()] == 'e' as u8);
    assert(b[0] == 'd' as u8);
    assert(entries.take(0) =~= none);
    assert(entries_encoding(entries.take(0)).len() == 0);
    lemma_entries_are_put(b, entries, 0, none);
    lemma_put_all(none, entries, 0, key);
}

/// The value under a key is that of the last entry with the key.
pub proof fn the_last_entry_with_a_key_counts(entries: Seq<(Seq<u8>, BValue)>, key: Seq<u8>)
    ensures
        match lookup(entries, key) {
            Some(v) => exists|i: int|
                0 <= i < entries.len() && #[trigger] entries[i] == (key, v) && forall|k: int|
                    i < k < entries.len() ==> (#[trigger] entries[k]).0 != key,
            None => forall|k: int| 0 <= k < entries.len() ==> (#[trigger] entries[k]).0 != key,
        },
    decreases entries.len(),
{
    if entries.len() > 0 {
        let last = entries.len() - 1;
        let fewer = entries.drop_last();
        if entries[last].0 == key {
            assert(entries[last] == (key, entries[last].1));
        } else {
            the_last_entry_with_a_key_counts(fewer, key);
            if let Some(v) = lookup(entries, key) {
                let i = choose|i: int|
                    0 <= i < fewer.len() && #[trigger] fewer[i] == (key, v) && forall|k: int|
                        i < k < fewer.len() ==> (#[trigger] fewer[k]).0 != key;
                assert(entries[i] == (key, v));
                assert forall|k: int| i < k < entries.len() implies (#[trigger] entries[k]).0 != key by {
                    if k < last {
                        assert(fewer[k].0 != key);
                    }
                }
            } else {
                assert forall|k: int| 0 <= k < entries.len() implies (#[trigger] entries[k]).0 != key by {
                    if k < last {
                        assert(fewer[k].0 != key);
                    }
                }
            }
        }
    }
}

proof fn lemma_first_info(b: Seq<u8>, entries: Seq<(Seq<u8>, BValue)>, i: int, at: int)
    requires
        0 <= i <= at < entries.len(),
        entries[at].0 == "info".spec_bytes(),
        forall|k: int| 0 <= k < at ==> (#[trigger] entries[k]).0 != "info".spec_bytes(),
        1 + entries_encoding(entries).len() < b.len() <= usize::MAX,
        b.subrange(1, 1int + entries_encoding(entries).len()) == entries_encoding(entries),
        forall|k: int| 0 <= k < entries.len() ==> well_formed((#[trigger] entries[k]).1),
    ensures
        info_place_from(b, 1int + entries_encoding(entries.take(i)).len()) matches InfoPlace::Found(start, end) && start
            <= end <= b.len() && 0 <= start && b.subrange(start, end) == encoding(entries[at].1),
    decreases at - i,
{
    let o = 1int + entries_encoding(entries.take(i)).len();
    lemma_entry_reads_back(b, 1, entries, i);
    let middle = o + string_encoding(entries[i].0).len();
    assert(well_formed(entries[i].1));
    lemma_value_reads_back(b, middle, entries[i].1);
    crate::bencode_laws::lemma_entries_layout(entries, i);
    info_key_encoding();
    if i < at {
        assert(entries[i].0 != "info".spec_bytes());
        if b.subrange(o, middle) == "4:info".spec_bytes() {
            crate::bencode_laws::encoding_is_injective(
                BValue::Bytes(entries[i].0),
                BValue::Bytes("info".spec_bytes()),
            );
        }
        lemma_first_info(b, entries, i + 1, at);
    }
}

/// Where several values stand under the key `info`, the first is the one whose bytes
/// are found.
pub proof fn the_first_info_is_found(entries: Seq<(Seq<u8>, BValue)>, at: int, rest: Seq<u8>)
    requires
        0 <= at < entries.len(),
        entries[at].0 == "info".spec_bytes(),
        forall|k: int| 0 <= k < at ==> (#[trigger] entries[k]).0 != "info".spec_bytes(),
        forall|k: int| 0 <= k < entries.len() ==> well_formed((#[trigger] entries[k]).1),
        encoding(BValue::Dict(entries)).len() + rest.len() <= usize::MAX,
    ensures
        ({
            let b = encoding(BValue::Dict(entries)) + rest;
            info_place(b) matches InfoPlace::Found(start, end) && 0 <= start <= end <= b.len() && b.subrange(start, end)
                == encoding(entries[at].1)
        }),
{
    let b = encoding(BValue::Dict(entries)) + rest;
    let body = entries_encoding(entries);
    assert(b.subrange(1, 1int + body.len()) =~= body);
    assert(b[0] == 'd' as u8);
    assert(entries.take(0) =~= Seq::<(Seq<u8>, BValue)>::empty());
    assert(entries_encoding(entries.take(0)).len() == 0);
    lemma_first_info(b, entries, 0, at);
}

/// The info value is found behind the first key that is written `4:info`, letter for
/// letter; an entry whose key is written in any other way is passed over.
pub proof fn only_the_key_in_its_shortest_form_is_found(b: Seq<u8>, o: int, middle: int, end: int)
    requires
        0 <= o < b.len(),
        b[o] != 'e' as u8,
        parse_value(b, o) matches Step::Done(_, next) && next == middle,
        parse_value(b, middle) matches Step::Done(_, next) && next == end,
    ensures
        info_place_from(b, o) == if b.subrange(o, middle) == seq![
            '4' as u8,
            ':' as u8,
            'i' as u8,
            'n' as u8,
            'f' as u8,
            'o' as u8,
        ] {
            InfoPlace::Found(middle, end)
        } else {
            info_place_from(b, end)
        },
        b[0] == 'd' as u8 ==> info_place(b) == info_place_from(b, 1),
{
    assert(o < middle <= b.len() && middle < end <= b.len()) by {
        decoded_is_well_formed(b, o);
        decoded_is_well_formed(b, middle);
    }
    lemma_info_key();
}

proof fn lemma_info_key()
    ensures
        "4:info".spec_bytes() == seq!['4' as u8, ':' as u8, 'i' as u8, 'n' as u8, 'f' as u8, 'o' as u8],
{
    reveal_strlit("4:info");
    is_ascii_spec_bytes("4:info");
    assert("4:info".spec_bytes() =~= seq!['4' as u8, ':' as u8, 'i' as u8, 'n' as u8, 'f' as u8, 'o' as u8]);
}

/// What is no dictionary holds no info value.
pub proof fn only_a_dictionary_holds_info(b: Seq<u8>)
    requires
        b.len() == 0 || b[0] != 'd' as u8,
    ensures
        info_place(b) == InfoPlace::Missing,
{
}

/// How a value is shown: what is in it stands between brackets, with commas between,
/// and a key before its value.
pub proof fn how_a_value_is_shown(
    i: i64,
    b: Seq<u8>,
    items: Seq<BValue>,
    item: BValue,
    entries: Seq<(Seq<u8>, BValue)>,
    key: Seq<u8>,
)
    ensures
        description(BValue::Int(i)) == "Int("@ + ascii_text(signed_decimal(i as int)) + ")"@,
        valid_utf8(b) ==> description(BValue::Bytes(b)) == "Str("@ + quoted_text(decode_utf8(b)) + ")"@,
        !valid_utf8(b) ==> description(BValue::Bytes(b)) == "Bytes("@ + ascii_text(decimal(b.len())) + " bytes)"@,
        description(BValue::List(seq![])) == seq!['[', ']'],
        description(BValue::List(items.push(item))) == description(BValue::List(items)).drop_last() + (if items.len()
            > 0 {
            seq![',', ' ']
        } else {
            seq![]
        }) + description(item) + seq![']'],
        description(BValue::Dict(seq![])) == seq!['{', '}'],
        description(BValue::Dict(entries.push((key, item)))) == description(BValue::Dict(entries)).drop_last() + (
        if entries.len() > 0 {
            seq![',', ' ']
        } else {
            seq![]
        }) + quoted_text(shown_text(key)) + seq![':', ' '] + description(item) + seq!['}'],
{
    reveal_strlit("[");
    reveal_strlit("]");
    reveal_strlit("{");
    reveal_strlit("}");
    reveal_strlit(", ");
    reveal_strlit(": ");
    reveal_strlit("");
    assert("["@ =~= seq!['[']);
    assert("]"@ =~= seq![']']);
    assert("{"@ =~= seq!['{']);
    assert("}"@ =~= seq!['}']);
    assert(", "@ =~= seq![',', ' ']);
    assert(": "@ =~= seq![':', ' ']);
    assert(""@ =~= Seq::<char>::empty());
    assert(items.push(item).drop_last() =~= items);
    assert(entries.push((key, item)).drop_last() =~= entries);
    let none = Seq::<BValue>::empty();
    let nothing = Seq::<(Seq<u8>, BValue)>::empty();
    assert(items_description(none) =~= Seq::<char>::empty());
    assert(entries_description(nothing) =~= Seq::<char>::empty());
    assert(description(BValue::List(none)) =~= seq!['[', ']']);
    assert(description(BValue::Dict(nothing)) =~= seq!['{', '}']);
    assert(description(BValue::List(items)).drop_last() =~= "["@ + items_description(items));
    assert(description(BValue::Dict(entries)).drop_last() =~= "{"@ + entries_description(entries));
    assert(description(BValue::List(items.push(item))) =~= description(BValue::List(items)).drop_last() + (if items.len()
        > 0 {
        seq![',', ' ']
    } else {
        seq![]
    }) + description(item) + seq![']']);
    assert(description(BValue::Dict(entries.push((key, item)))) =~= description(BValue::Dict(entries)).drop_last() + (
    if entries.len() > 0 {
        seq![',', ' ']
    } else {
        seq![]
    }) + quoted_text(shown_text(key)) + seq![':', ' '] + description(item) + seq!['}']);
}

/// A failure to read says what is amiss: the character, the fault, the field or the
/// number of bytes.
pub proof fn what_a_failure_says(c: char, text: Seq<char>, n: nat)
    ensures
        decode_failure_text(DecodeFailure::UnexpectedEOF) == "Unexpected end of input"@,
        decode_failure_text(DecodeFailure::InvalidChar(c)) == "Invalid character: "@ + seq![c],
        decode_failure_text(DecodeFailure::InvalidInteger) == "Invalid integer format"@,
        decode_failure_text(DecodeFailure::InvalidLength) == "Invalid byte string length"@,
        decode_failure_text(DecodeFailure::Utf8Error(text)) == "UTF-8 error: "@ + text,
        meta_failure_text(MetaFailure::MissingField(text)) == "Missing dictionary field: '"@ + text + "'"@,
        meta_failure_text(MetaFailure::InvalidType(text)) == "Invalid field type for '"@ + text + "'"@,
        meta_failure_text(MetaFailure::MissingInfoSlice) == "Missing info dictionary slice in bencode"@,
        meta_failure_text(MetaFailure::InvalidPiecesLength(n as int))
            == "Invalid pieces field length: expected multiple of 20, got "@ + ascii_text(decimal(n)),
        meta_failure_text(MetaFailure::BencodeError(DecodeFailure::Utf8Error(text))) == "Bencode decoding error: "@ + (
        "UTF-8 error: "@ + text),
{
    assert("Invalid character: "@.push(c) =~= "Invalid character: "@ + seq![c]);
}

/// A number is shown with its digits, each by the character of its byte.
pub proof fn how_a_number_is_shown(n: nat, i: int)
    requires
        0 <= i < decimal(n).len(),
    ensures
        decimal_text(n).len() == decimal(n).len(),
        decimal_text(n)[i] as u32 == decimal(n)[i] as u32,
{
}

} // verus!
