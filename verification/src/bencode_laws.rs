//! What holds of bencoding as a whole.
use vstd::prelude::*;
use vstd::string::*;
use crate::bencode::{
    encoding, entries_encoding, index_from, info_place, info_place_from, items_encoding, lookup, parse_entries,
    parse_int, parse_items, parse_key, parse_value, put, rank_from, sorted_by_key, string_encoding,
    well_formed, BValue, InfoPlace, Step,
};
use crate::numeral::{decimal, decimal_reads_back, is_digit, signed_decimal, signed_decimal_reads_back};
use crate::order::{bytes_before, bytes_before_asymmetric};
use crate::text::ascii_is_utf8;

verus! {

pub(crate) proof fn lemma_index_from(b: Seq<u8>, o: int, end: int, c: u8)
    requires
        0 <= o <= end < b.len(),
        forall|k: int| o <= k < end ==> #[trigger] b[k] != c,
        b[end] == c,
    ensures
        index_from(b, o, c) == end,
    decreases end - o,
{
    if o < end {
        lemma_index_from(b, o + 1, end, c);
    }
}

/// Every bencoding starts with something else than an `e`.
proof fn lemma_encoding_start(v: BValue)
    ensures
        encoding(v).len() > 0,
        encoding(v)[0] != 'e' as u8,
{
    if let BValue::Bytes(b) = v {
        decimal_reads_back(b.len());
        assert(encoding(v)[0] == decimal(b.len())[0]);
        assert(is_digit(decimal(b.len())[0]));
    }
}

/// The encoding of the item at `i` stands behind those of the items before it.
proof fn lemma_items_layout(items: Seq<BValue>, i: int)
    requires
        0 <= i < items.len(),
    ensures
        ({
            let before = items_encoding(items.take(i)).len() as int;
            let one = encoding(items[i]);
            let all = items_encoding(items);
            &&& before + one.len() <= all.len()
            &&& all.subrange(before, before + one.len()) == one
            &&& items_encoding(items.take(i + 1)).len() == before + one.len()
        }),
    decreases items.len() - i,
{
    assert(items.take(i + 1).drop_last() =~= items.take(i));
    if i + 1 == items.len() {
        assert(items.take(i + 1) =~= items);
        assert(items_encoding(items).subrange(
            items_encoding(items.take(i)).len() as int,
            items_encoding(items).len() as int,
        ) =~= encoding(items[i]));
    } else {
        lemma_items_prefix(items, i + 1);
        let before = items_encoding(items.take(i)).len() as int;
        let one = encoding(items[i]);
        assert(items_encoding(items).subrange(before, before + one.len()) =~= one) by {
            assert(items_encoding(items.take(i + 1)).subrange(before, before + one.len()) =~= one);
        }
    }
}

/// The encodings of the first items are the beginning of those of all.
proof fn lemma_items_prefix(items: Seq<BValue>, n: int)
    requires
        0 <= n <= items.len(),
    ensures
        items_encoding(items.take(n)).len() <= items_encoding(items).len(),
        items_encoding(items).take(items_encoding(items.take(n)).len() as int) == items_encoding(items.take(n)),
        forall|k: int|
            0 <= k < items_encoding(items.take(n)).len() ==> #[trigger] items_encoding(items)[k]
                == items_encoding(items.take(n))[k],
    decreases items.len(),
{
    if n == items.len() {
        assert(items.take(n) =~= items);
        assert(items_encoding(items).take(items_encoding(items).len() as int) =~= items_encoding(items));
    } else {
        lemma_items_prefix(items.drop_last(), n);
        assert(items.drop_last().take(n) =~= items.take(n));
        assert(items_encoding(items).take(items_encoding(items.take(n)).len() as int)
            =~= items_encoding(items.take(n)));
    }
}

/// The encoding of the entry at `i` stands behind those of the entries before it.
pub(crate) proof fn lemma_entries_layout(entries: Seq<(Seq<u8>, BValue)>, i: int)
    requires
        0 <= i < entries.len(),
    ensures
        ({
            let before = entries_encoding(entries.take(i)).len() as int;
            let key = string_encoding(entries[i].0);
            let one = encoding(entries[i].1);
            let all = entries_encoding(entries);
            &&& before + key.len() + one.len() <= all.len()
            &&& all.subrange(before, before + key.len()) == key
            &&& all.subrange(before + key.len(), before + key.len() + one.len()) == one
            &&& entries_encoding(entries.take(i + 1)).len() == before + key.len() + one.len()
        }),
{
    let before = entries_encoding(entries.take(i)).len() as int;
    let key = string_encoding(entries[i].0);
    let one = encoding(entries[i].1);
    assert(entries.take(i + 1).drop_last() =~= entries.take(i));
    lemma_entries_prefix(entries, i + 1);
    let some = entries_encoding(entries.take(i + 1));
    assert(some.subrange(before, before + key.len()) =~= key);
    assert(some.subrange(before + key.len(), before + key.len() + one.len()) =~= one);
    assert(entries_encoding(entries).subrange(before, before + key.len()) =~= key);
    assert(entries_encoding(entries).subrange(before + key.len(), before + key.len() + one.len()) =~= one);
}

/// The encodings of the first entries are the beginning of those of all.
proof fn lemma_entries_prefix(entries: Seq<(Seq<u8>, BValue)>, n: int)
    requires
        0 <= n <= entries.len(),
    ensures
        entries_encoding(entries.take(n)).len() <= entries_encoding(entries).len(),
        forall|k: int|
            0 <= k < entries_encoding(entries.take(n)).len() ==> #[trigger] entries_encoding(entries)[k]
                == entries_encoding(entries.take(n))[k],
    decreases entries.len(),
{
    if n == entries.len() {
        assert(entries.take(n) =~= entries);
    } else {
        lemma_entries_prefix(entries.drop_last(), n);
        assert(entries.drop_last().take(n) =~= entries.take(n));
    }
}

/// An entry whose key comes after all others is put at the end.
pub(crate) proof fn lemma_put_last(entries: Seq<(Seq<u8>, BValue)>, key: Seq<u8>, value: BValue, i: int)
    requires
        0 <= i <= entries.len(),
        forall|k: int| 0 <= k < entries.len() ==> bytes_before((#[trigger] entries[k]).0, key),
    ensures
        rank_from(entries, key, i) == entries.len(),
        i == 0 ==> put(entries, key, value) == entries.push((key, value)),
    decreases entries.len() - i,
{
    if i < entries.len() {
        lemma_put_last(entries, key, value, i + 1);
    }
    if i == 0 {
        assert(entries.insert(entries.len() as int, (key, value)) =~= entries.push((key, value)));
    }
}

/// A byte string reads back from its encoding, wherever it stands.
pub(crate) proof fn lemma_string_reads_back(b: Seq<u8>, o: int, s: Seq<u8>)
    requires
        0 <= o,
        o + string_encoding(s).len() <= b.len(),
        b.len() <= usize::MAX,
        b.subrange(o, o + string_encoding(s).len()) == string_encoding(s),
    ensures
        parse_value(b, o) == Step::<BValue>::Done(BValue::Bytes(s), o + string_encoding(s).len()),
{
    let enc = string_encoding(s);
    let numeral = decimal(s.len());
    decimal_reads_back(s.len());
    let colon = o + numeral.len();
    let here = b.subrange(o, o + enc.len());
    assert(forall|k: int| 0 <= k < enc.len() ==> b[o + k] == #[trigger] here[k]);
    assert(here[numeral.len() as int] == ':' as u8);
    assert forall|k: int| o <= k < colon implies #[trigger] b[k] != ':' as u8 by {
        assert(b[k] == here[k - o]);
        assert(is_digit(numeral[k - o]));
    }
    assert(b[colon] == here[colon - o]);
    lemma_index_from(b, o, colon, ':' as u8);
    assert(b.subrange(o, colon) =~= numeral) by {
        assert forall|k: int| 0 <= k < numeral.len() implies b.subrange(o, colon)[k] == numeral[k] by {
            assert(b[o + k] == here[k]);
        }
    }
    assert forall|i: int| 0 <= i < numeral.len() implies #[trigger] numeral[i] < 128 by {
        assert(is_digit(numeral[i]));
    }
    ascii_is_utf8(numeral);
    assert(b[o] == here[0]);
    assert(is_digit(numeral[0]));
    assert(b.subrange(colon + 1, colon + 1 + s.len()) =~= s) by {
        assert forall|k: int| 0 <= k < s.len() implies b.subrange(colon + 1, colon + 1 + s.len())[k] == s[k] by {
            assert(b[colon + 1 + k] == here[colon + 1 + k - o]);
        }
    }
}

/// A value reads back from its encoding, wherever it stands.
pub(crate) proof fn lemma_value_reads_back(b: Seq<u8>, o: int, v: BValue)
    requires
        0 <= o,
        o + encoding(v).len() <= b.len(),
        b.len() <= usize::MAX,
        b.subrange(o, o + encoding(v).len()) == encoding(v),
        well_formed(v),
    ensures
        parse_value(b, o) == Step::<BValue>::Done(v, o + encoding(v).len()),
    decreases v, 0int,
{
    let enc = encoding(v);
    let here = b.subrange(o, o + enc.len());
    assert(forall|k: int| 0 <= k < enc.len() ==> b[o + k] == #[trigger] here[k]);
    match v {
        BValue::Int(i) => {
            let numeral = signed_decimal(i as int);
            signed_decimal_reads_back(i as int);
            decimal_reads_back(if i < 0 { (-i) as nat } else { i as nat });
            let end = o + 1 + numeral.len();
            assert(here[0] == 'i' as u8);
            assert(here[1 + numeral.len() as int] == 'e' as u8);
            assert(b[end] == here[end - o]);
            assert forall|k: int| 0 <= k < numeral.len() implies (is_digit(#[trigger] numeral[k]) || numeral[k] == '-' as u8) by {
                if i < 0 {
                    if k > 0 {
                        assert(is_digit(decimal((-i) as nat)[k - 1]));
                    }
                } else {
                    assert(is_digit(decimal(i as nat)[k]));
                }
            }
            assert forall|k: int| o + 1 <= k < end implies #[trigger] b[k] != 'e' as u8 by {
                assert(b[k] == here[k - o]);
                assert(here[k - o] == numeral[k - o - 1]);
            }
            lemma_index_from(b, o + 1, end, 'e' as u8);
            assert(b.subrange(o + 1, end) =~= numeral) by {
                assert forall|k: int| 0 <= k < numeral.len() implies b.subrange(o + 1, end)[k] == numeral[k] by {
                    assert(b[o + 1 + k] == here[1 + k]);
                }
            }
            ascii_is_utf8(numeral);
            assert(parse_int(b, o + 1) == Step::<BValue>::Done(v, end + 1));
        },
        BValue::Bytes(s) => {
            lemma_string_reads_back(b, o, s);
        },
        BValue::List(items) => {
            let inner = items_encoding(items);
            assert(here[0] == 'l' as u8);
            assert(here[1 + inner.len() as int] == 'e' as u8);
            assert(b.subrange(o + 1, o + 1 + inner.len()) =~= inner) by {
                assert forall|k: int| 0 <= k < inner.len() implies b.subrange(o + 1, o + 1 + inner.len())[k] == inner[k] by {
                    assert(b[o + 1 + k] == here[1 + k]);
                }
            }
            assert(b[o + 1 + inner.len()] == here[1 + inner.len() as int]);
            lemma_items_read_back(b, o + 1, items, 0);
            assert(items.take(0) =~= Seq::<BValue>::empty());
        },
        BValue::Dict(entries) => {
            let inner = entries_encoding(entries);
            assert(here[0] == 'd' as u8);
            assert(here[1 + inner.len() as int] == 'e' as u8);
            assert(b.subrange(o + 1, o + 1 + inner.len()) =~= inner) by {
                assert forall|k: int| 0 <= k < inner.len() implies b.subrange(o + 1, o + 1 + inner.len())[k] == inner[k] by {
                    assert(b[o + 1 + k] == here[1 + k]);
                }
            }
            assert(b[o + 1 + inner.len()] == here[1 + inner.len() as int]);
            lemma_entries_read_back(b, o + 1, entries, 0);
            assert(entries.take(0) =~= Seq::<(Seq<u8>, BValue)>::empty());
        },
    }
}

proof fn lemma_items_read_back(b: Seq<u8>, o: int, items: Seq<BValue>, i: int)
    requires
        0 <= o,
        0 <= i <= items.len(),
        o + items_encoding(items).len() < b.len(),
        b.len() <= usize::MAX,
        b.subrange(o, o + items_encoding(items).len()) == items_encoding(items),
        b[o + items_encoding(items).len()] == 'e' as u8,
        well_formed(BValue::List(items)),
    ensures
        parse_items(b, o + items_encoding(items.take(i)).len(), items.take(i)) == Step::<
            Seq<BValue>,
        >::Done(items, o + items_encoding(items).len() + 1),
    decreases items, items.len() - i,
{
    let all = items_encoding(items);
    let at = o + items_encoding(items.take(i)).len();
    if i == items.len() {
        assert(items.take(i) =~= items);
    } else {
        lemma_items_layout(items, i);
        lemma_encoding_start(items[i]);
        let one = encoding(items[i]);
        assert(b.subrange(at, at + one.len()) =~= one) by {
            assert(b.subrange(at, at + one.len()) =~= all.subrange(at - o, at - o + one.len())) by {
                assert forall|k: int| at <= k < at + one.len() implies b[k] == all[k - o] by {
                    assert(b.subrange(o, o + all.len())[k - o] == b[k]);
                }
            }
        }
        assert(b[at] == b.subrange(at, at + one.len())[0]);
        assert(well_formed(items[i])) by {
            let whole = BValue::List(items);
            assert(well_formed(whole));
            assert(whole->List_0[i] == items[i]);
        }
        lemma_value_reads_back(b, at, items[i]);
        assert(items.take(i + 1) =~= items.take(i).push(items[i]));
        lemma_items_read_back(b, o, items, i + 1);
    }
}

proof fn lemma_entries_read_back(b: Seq<u8>, o: int, entries: Seq<(Seq<u8>, BValue)>, i: int)
    requires
        0 <= o,
        0 <= i <= entries.len(),
        o + entries_encoding(entries).len() < b.len(),
        b.len() <= usize::MAX,
        b.subrange(o, o + entries_encoding(entries).len()) == entries_encoding(entries),
        b[o + entries_encoding(entries).len()] == 'e' as u8,
        well_formed(BValue::Dict(entries)),
    ensures
        parse_entries(b, o + entries_encoding(entries.take(i)).len(), entries.take(i)) == Step::<
            Seq<(Seq<u8>, BValue)>,
        >::Done(entries, o + entries_encoding(entries).len() + 1),
    decreases entries, entries.len() - i,
{
    let all = entries_encoding(entries);
    let at = o + entries_encoding(entries.take(i)).len();
    if i == entries.len() {
        assert(entries.take(i) =~= entries);
    } else {
        let key = entries[i].0;
        let value = entries[i].1;
        let key_enc = string_encoding(key);
        let one = encoding(value);
        lemma_entry_reads_back(b, o, entries, i);
        assert(decreases_to!(entries => entries[i]));
        assert(decreases_to!(entries[i] => entries[i].1));
        lemma_value_reads_back(b, at + key_enc.len(), value);
        lemma_put_last(entries.take(i), key, value, 0);
        assert(entries.take(i + 1) =~= entries.take(i).push((key, value)));
        lemma_entries_layout(entries, i);
        assert(parse_key(b, at) == Step::<Seq<u8>>::Done(key, at + key_enc.len()));
        lemma_entries_read_back(b, o, entries, i + 1);
    }
}

/// The key at `i` reads back, and behind it stands the encoding of its value.
pub(crate) proof fn lemma_entry_reads_back(b: Seq<u8>, o: int, entries: Seq<(Seq<u8>, BValue)>, i: int)
    requires
        0 <= o,
        0 <= i < entries.len(),
        o + entries_encoding(entries).len() < b.len(),
        b.len() <= usize::MAX,
        b.subrange(o, o + entries_encoding(entries).len()) == entries_encoding(entries),
    ensures
        ({
            let at = o + entries_encoding(entries.take(i)).len();
            let key = string_encoding(entries[i].0);
            let one = encoding(entries[i].1);
            &&& at + key.len() + one.len() <= o + entries_encoding(entries).len()
            &&& key.len() > 0
            &&& one.len() > 0
            &&& b[at] != 'e' as u8
            &&& b.subrange(at, at + key.len()) == key
            &&& b.subrange(at + key.len(), at + key.len() + one.len()) == one
            &&& parse_value(b, at) == Step::<BValue>::Done(
                BValue::Bytes(entries[i].0),
                at + key.len(),
            )
        }),
{
    let all = entries_encoding(entries);
    let at = o + entries_encoding(entries.take(i)).len();
    let key = string_encoding(entries[i].0);
    let one = encoding(entries[i].1);
    lemma_entries_layout(entries, i);
    lemma_encoding_start(BValue::Bytes(entries[i].0));
    lemma_encoding_start(entries[i].1);
    assert forall|k: int| o <= k < o + all.len() implies b[k] == all[k - o] by {
        assert(b.subrange(o, o + all.len())[k - o] == b[k]);
    }
    assert(b.subrange(at, at + key.len()) =~= all.subrange(at - o, at - o + key.len()));
    assert(b.subrange(at + key.len(), at + key.len() + one.len()) =~= all.subrange(
        at - o + key.len(),
        at - o + key.len() + one.len(),
    ));
    assert(b[at] == b.subrange(at, at + key.len())[0]);
    lemma_string_reads_back(b, at, entries[i].0);
}

/// Decoding undoes encoding: a well-formed value is read back from its
/// encoding, whatever follows it.
pub proof fn decode_undoes_encode(v: BValue, rest: Seq<u8>)
    requires
        well_formed(v),
        encoding(v).len() + rest.len() <= usize::MAX,
    ensures
        parse_value(encoding(v) + rest, 0) == Step::<BValue>::Done(v, encoding(v).len() as int),
{
    let b = encoding(v) + rest;
    assert(b.subrange(0, encoding(v).len() as int) =~= encoding(v));
    lemma_value_reads_back(b, 0, v);
}

/// Different values have different encodings.
pub proof fn encoding_is_injective(v: BValue, w: BValue)
    requires
        well_formed(v),
        well_formed(w),
        encoding(v).len() <= usize::MAX,
        encoding(v) == encoding(w),
    ensures
        v == w,
{
    decode_undoes_encode(v, seq![]);
    decode_undoes_encode(w, seq![]);
}

/// A dictionary holds under a key what was last put there, and putting
/// something under one key leaves the others alone.
pub proof fn lookup_after_put(
    entries: Seq<(Seq<u8>, BValue)>,
    key: Seq<u8>,
    value: BValue,
    other: Seq<u8>,
)
    requires
        sorted_by_key(entries),
    ensures
        lookup(put(entries, key, value), other) == if other == key {
            Some(value)
        } else {
            lookup(entries, other)
        },
{
    let after = put(entries, key, value);
    crate::bencode::lemma_rank(entries, key, 0);
    let at = rank_from(entries, key, 0);
    let replaced = at < entries.len() && entries[at].0 == key;
    // Where the key stands after `put`, no other entry has it.
    assert(after[at] == (key, value));
    assert forall|i: int| 0 <= i < after.len() && i != at implies (#[trigger] after[i]).0 != key by {
        if replaced {
            assert(after[i] == entries[i]);
            if i < at {
                bytes_before_asymmetric(entries[i].0, entries[at].0);
            } else {
                bytes_before_asymmetric(entries[at].0, entries[i].0);
            }
        } else if i < at {
            assert(after[i] == entries[i]);
            bytes_before_asymmetric(entries[i].0, key);
        } else {
            assert(after[i] == entries[i - 1]);
            if entries[i - 1].0 == key {
                if at < i - 1 {
                    assert(bytes_before(entries[at].0, entries[i - 1].0));
                }
                assert(false);
            }
        }
    }
    if other == key {
        lemma_lookup_at(after, key, at);
    } else if exists|j: int| 0 <= j < entries.len() && (#[trigger] entries[j]).0 == other {
        let j = choose|j: int| 0 <= j < entries.len() && (#[trigger] entries[j]).0 == other;
        let j2 = if replaced || j < at { j } else { j + 1 };
        assert(after[j2] == entries[j]);
        assert forall|i: int| 0 <= i < entries.len() && i != j implies (#[trigger] entries[i]).0 != other by {
            if i < j {
                bytes_before_asymmetric(entries[i].0, entries[j].0);
            } else {
                bytes_before_asymmetric(entries[j].0, entries[i].0);
            }
        }
        assert forall|i: int| 0 <= i < after.len() && i != j2 implies (#[trigger] after[i]).0 != other by {
            if i != at {
                let i0 = if replaced || i < at { i } else { i - 1 };
                assert(after[i] == entries[i0]);
            }
        }
        lemma_lookup_at(entries, other, j);
        lemma_lookup_at(after, other, j2);
    } else {
        assert forall|i: int| 0 <= i < after.len() implies (#[trigger] after[i]).0 != other by {
            if i != at {
                let i0 = if replaced || i < at { i } else { i - 1 };
                assert(after[i] == entries[i0]);
            }
        }
        lemma_lookup_none(entries, other);
        lemma_lookup_none(after, other);
    }
}

/// What is read is well formed, and takes up at least one byte.
pub proof fn decoded_is_well_formed(b: Seq<u8>, o: int)
    requires
        0 <= o,
    ensures
        parse_value(b, o) matches Step::Done(v, next) ==> well_formed(v) && o < next <= b.len(),
    decreases b.len() - o, 1int,
{
    if o < b.len() {
        if b[o] == 'i' as u8 {
            lemma_index_from_range(b, o + 1, 'e' as u8);
        } else if b[o] == 'l' as u8 {
            lemma_items_progress(b, o + 1, seq![]);
        } else if b[o] == 'd' as u8 {
            lemma_entries_progress(b, o + 1, seq![]);
        } else if is_digit(b[o]) {
            lemma_index_from_range(b, o, ':' as u8);
        }
    }
}

pub(crate) proof fn lemma_index_from_range(b: Seq<u8>, o: int, c: u8)
    requires
        0 <= o <= b.len(),
    ensures
        o <= index_from(b, o, c) <= b.len(),
        index_from(b, o, c) < b.len() ==> b[index_from(b, o, c)] == c,
        forall|k: int| o <= k < index_from(b, o, c) ==> #[trigger] b[k] != c,
    decreases b.len() - o,
{
    if o < b.len() && b[o] != c {
        lemma_index_from_range(b, o + 1, c);
    }
}

proof fn lemma_items_progress(b: Seq<u8>, o: int, items: Seq<BValue>)
    requires
        0 <= o,
        well_formed(BValue::List(items)),
    ensures
        parse_items(b, o, items) matches Step::Done(all, next) ==> well_formed(BValue::List(all)) && o < next <= b.len(),
    decreases b.len() - o, 2int,
{
    if o < b.len() && b[o] != 'e' as u8 {
        decoded_is_well_formed(b, o);
        if let Step::Done(v, next) = parse_value(b, o) {
            let longer = items.push(v);
            assert(well_formed(BValue::List(longer))) by {
                let whole = BValue::List(items);
                assert forall|i: int| 0 <= i < longer.len() implies well_formed(#[trigger] longer[i]) by {
                    if i < items.len() {
                        assert(longer[i] == whole->List_0[i]);
                    }
                }
            }
            lemma_items_progress(b, next, longer);
        }
    }
}

proof fn lemma_entries_progress(b: Seq<u8>, o: int, entries: Seq<(Seq<u8>, BValue)>)
    requires
        0 <= o,
        well_formed(BValue::Dict(entries)),
    ensures
        parse_entries(b, o, entries) matches Step::Done(all, next) ==> well_formed(BValue::Dict(all)) && o < next
            <= b.len(),
    decreases b.len() - o, 3int,
{
    if o < b.len() && b[o] != 'e' as u8 {
        decoded_is_well_formed(b, o);
        if let Step::Done(key, middle) = parse_key(b, o) {
            decoded_is_well_formed(b, middle);
            if let Step::Done(v, next) = parse_value(b, middle) {
                crate::bencode::put_keeps_well_formed(entries, key, v);
                lemma_entries_progress(b, next, put(entries, key, v));
            }
        }
    }
}

/// Whether two byte strings have the same first `n` bytes.
pub open spec fn agree(b: Seq<u8>, c: Seq<u8>, n: int) -> bool {
    &&& 0 <= n <= b.len()
    &&& n <= c.len()
    &&& forall|k: int| 0 <= k < n ==> #[trigger] b[k] == c[k]
}

/// Decoding looks no further than the end of the value: bytes that agree up to
/// there decode to the same.
pub proof fn decode_ignores_what_follows(b: Seq<u8>, c: Seq<u8>, o: int)
    requires
        0 <= o,
        parse_value(b, o) matches Step::Done(_, next) && agree(b, c, next),
    ensures
        parse_value(c, o) == parse_value(b, o),
    decreases b.len() - o, 1int,
{
    decoded_is_well_formed(b, o);
    let next = parse_value(b, o)->Done_1;
    assert(b[o] == c[o]);
    if b[o] == 'i' as u8 {
        lemma_index_from_range(b, o + 1, 'e' as u8);
        assert forall|k: int| o + 1 <= k < next - 1 implies #[trigger] c[k] != 'e' as u8 by {
            assert(b[k] == c[k]);
        }
        assert(b[next - 1] == c[next - 1]);
        lemma_index_from(c, o + 1, next - 1, 'e' as u8);
        assert(b.subrange(o + 1, next - 1) =~= c.subrange(o + 1, next - 1));
    } else if b[o] == 'l' as u8 {
        lemma_items_local(b, c, o + 1, seq![]);
    } else if b[o] == 'd' as u8 {
        lemma_entries_local(b, c, o + 1, seq![]);
    } else {
        let colon = index_from(b, o, ':' as u8);
        lemma_index_from_range(b, o, ':' as u8);
        assert forall|k: int| o <= k < colon implies #[trigger] c[k] != ':' as u8 by {
            assert(b[k] == c[k]);
        }
        assert(b[colon] == c[colon]);
        lemma_index_from(c, o, colon, ':' as u8);
        assert(b.subrange(o, colon) =~= c.subrange(o, colon));
        assert(b.subrange(colon + 1, next) =~= c.subrange(colon + 1, next));
    }
}

proof fn lemma_items_local(b: Seq<u8>, c: Seq<u8>, o: int, items: Seq<BValue>)
    requires
        0 <= o,
        parse_items(b, o, items) matches Step::Done(_, next) && agree(b, c, next),
    ensures
        parse_items(c, o, items) == parse_items(b, o, items),
    decreases b.len() - o, 2int,
{
    let end = parse_items(b, o, items)->Done_1;
    if b[o] == 'e' as u8 {
        assert(b[o] == c[o]);
    } else {
        decoded_is_well_formed(b, o);
        let next = parse_value(b, o)->Done_1;
        let longer = items.push(parse_value(b, o)->Done_0);
        assert(parse_items(b, o, items) == parse_items(b, next, longer));
        lemma_items_end(b, next, longer);
        assert(b[o] == c[o]);
        assert(agree(b, c, next));
        decode_ignores_what_follows(b, c, o);
        lemma_items_local(b, c, next, longer);
    }
}

proof fn lemma_items_end(b: Seq<u8>, o: int, items: Seq<BValue>)
    requires
        0 <= o,
    ensures
        parse_items(b, o, items) matches Step::Done(_, next) ==> o < next <= b.len(),
    decreases b.len() - o,
{
    if o < b.len() && b[o] != 'e' as u8 {
        if let Step::Done(v, next) = parse_value(b, o) {
            if o < next <= b.len() {
                lemma_items_end(b, next, items.push(v));
            }
        }
    }
}

proof fn lemma_entries_local(b: Seq<u8>, c: Seq<u8>, o: int, entries: Seq<(Seq<u8>, BValue)>)
    requires
        0 <= o,
        parse_entries(b, o, entries) matches Step::Done(_, next) && agree(b, c, next),
    ensures
        parse_entries(c, o, entries) == parse_entries(b, o, entries),
    decreases b.len() - o, 3int,
{
    if b[o] == 'e' as u8 {
        assert(b[o] == c[o]);
    } else {
        let key = parse_key(b, o)->Done_0;
        let middle = parse_key(b, o)->Done_1;
        let v = parse_value(b, middle)->Done_0;
        let next = parse_value(b, middle)->Done_1;
        let longer = put(entries, key, v);
        assert(parse_entries(b, o, entries) == parse_entries(b, next, longer));
        lemma_entries_end(b, next, longer);
        assert(b[o] == c[o]);
        assert(agree(b, c, middle));
        decode_ignores_what_follows(b, c, o);
        assert(parse_key(c, o) == parse_key(b, o));
        decode_ignores_what_follows(b, c, middle);
        lemma_entries_local(b, c, next, longer);
    }
}

proof fn lemma_entries_end(b: Seq<u8>, o: int, entries: Seq<(Seq<u8>, BValue)>)
    requires
        0 <= o,
    ensures
        parse_entries(b, o, entries) matches Step::Done(_, next) ==> o < next <= b.len(),
    decreases b.len() - o,
{
    if o < b.len() && b[o] != 'e' as u8 {
        if let Step::Done(key, middle) = parse_key(b, o) {
            if let Step::Done(v, next) = parse_value(b, middle) {
                if o < middle < next <= b.len() {
                    lemma_entries_end(b, next, put(entries, key, v));
                }
            }
        }
    }
}

/// In bytes that decode to a dictionary, looking for `info` never runs past the end.
pub proof fn info_place_is_defined(b: Seq<u8>)
    requires
        parse_value(b, 0) matches Step::Done(BValue::Dict(_), _),
    ensures
        !(info_place(b) is Fault),
{
    assert(b[0] == 'd' as u8);
    lemma_info_place_from(b, 1, seq![]);
}

proof fn lemma_info_place_from(b: Seq<u8>, o: int, entries: Seq<(Seq<u8>, BValue)>)
    requires
        0 <= o,
        parse_entries(b, o, entries) is Done,
    ensures
        !(info_place_from(b, o) is Fault),
    decreases b.len() - o,
{
    if o < b.len() && b[o] != 'e' as u8 {
        let key = parse_key(b, o)->Done_0;
        let middle = parse_key(b, o)->Done_1;
        let v = parse_value(b, middle)->Done_0;
        let next = parse_value(b, middle)->Done_1;
        assert(parse_value(b, o) matches Step::Done(_, m) && m == middle);
        lemma_info_place_from(b, next, put(entries, key, v));
    }
}

/// The key `info` is written `4:info`.
pub proof fn info_key_encoding()
    ensures
        string_encoding("info".spec_bytes()) == "4:info".spec_bytes(),
{
    reveal_strlit("info");
    reveal_strlit("4:info");
    is_ascii_spec_bytes("info");
    is_ascii_spec_bytes("4:info");
    assert(decimal(4) =~= seq!['4' as u8]);
    assert("info"@.len() == 4);
    assert(string_encoding("info".spec_bytes()) =~= "4:info".spec_bytes());
}

/// The slice that is found under `info` is the encoding of the value that the
/// dictionary holds there, whatever follows the dictionary.
pub proof fn info_slice_is_info_encoding(
    entries: Seq<(Seq<u8>, BValue)>,
    at: int,
    rest: Seq<u8>,
)
    requires
        well_formed(BValue::Dict(entries)),
        0 <= at < entries.len(),
        entries[at].0 == "info".spec_bytes(),
        encoding(BValue::Dict(entries)).len() + rest.len() <= usize::MAX,
    ensures
        ({
            let b = encoding(BValue::Dict(entries)) + rest;
            info_place(b) matches InfoPlace::Found(start, end) && 0 <= start <= end <= b.len() && b.subrange(
                start,
                end,
            ) == encoding(entries[at].1)
        }),
{
    let v = BValue::Dict(entries);
    let b = encoding(v) + rest;
    let inner = entries_encoding(entries);
    assert(b[0] == 'd' as u8);
    assert(b.subrange(1, 1int + inner.len()) =~= inner);
    assert(b[1 + inner.len() as int] == 'e' as u8);
    assert(entries.take(0) =~= Seq::<(Seq<u8>, BValue)>::empty());
    lemma_info_found(b, entries, at, 0);
}

proof fn lemma_info_found(b: Seq<u8>, entries: Seq<(Seq<u8>, BValue)>, at: int, i: int)
    requires
        well_formed(BValue::Dict(entries)),
        0 <= i <= at < entries.len(),
        entries[at].0 == "info".spec_bytes(),
        1 + entries_encoding(entries).len() < b.len() <= usize::MAX,
        b.subrange(1, 1int + entries_encoding(entries).len()) == entries_encoding(entries),
    ensures
        info_place_from(b, 1int + entries_encoding(entries.take(i)).len()) matches InfoPlace::Found(start, end)
            && 0 <= start <= end <= b.len() && b.subrange(start, end) == encoding(entries[at].1),
    decreases at - i,
{
    let o = 1int + entries_encoding(entries.take(i)).len();
    let key = string_encoding(entries[i].0);
    let one = encoding(entries[i].1);
    lemma_entry_reads_back(b, 1, entries, i);
    lemma_value_reads_back(b, o + key.len(), entries[i].1);
    lemma_entries_layout(entries, i);
    info_key_encoding();
    if i < at {
        if key == "4:info".spec_bytes() {
            encoding_is_injective(BValue::Bytes(entries[i].0), BValue::Bytes(entries[at].0));
            bytes_before_asymmetric(entries[i].0, entries[at].0);
        }
        lemma_info_found(b, entries, at, i + 1);
    }
}

pub(crate) proof fn lemma_lookup_none(entries: Seq<(Seq<u8>, BValue)>, key: Seq<u8>)
    requires
        forall|i: int| 0 <= i < entries.len() ==> (#[trigger] entries[i]).0 != key,
    ensures
        lookup(entries, key) is None,
    decreases entries.len(),
{
    if entries.len() > 0 {
        assert(entries.last() == entries[entries.len() - 1]);
        lemma_lookup_none(entries.drop_last(), key);
    }
}

/// A key that occurs once is looked up where it stands.
pub(crate) proof fn lemma_lookup_at(entries: Seq<(Seq<u8>, BValue)>, key: Seq<u8>, at: int)
    requires
        0 <= at < entries.len(),
        entries[at].0 == key,
        forall|i: int| 0 <= i < entries.len() && i != at ==> (#[trigger] entries[i]).0 != key,
    ensures
        lookup(entries, key) == Some(entries[at].1),
    decreases entries.len(),
{
    if at < entries.len() - 1 {
        assert(entries.last() == entries[entries.len() - 1]);
        lemma_lookup_at(entries.drop_last(), key, at);
    }
}

} // verus!
