//! Bencoding: values, how they are written, and how they are read.
use vstd::prelude::*;
use vstd::slice::{slice_subrange, slice_to_vec};
use vstd::string::*;
use vstd::utf8::{decode_utf8, valid_utf8};
use crate::decode_laws::reading_at_a_place_is_reading_the_rest;
use crate::numeral::{
    decimal, is_digit, parse_i64, parse_usize, push_decimal, push_signed_decimal, signed_decimal,
    signed_numeral, unsigned_numeral,
};
use crate::order::{
    bytes_before, bytes_before_asymmetric, bytes_before_irreflexive, bytes_before_total,
    bytes_before_transitive, standing, Standing,
};
use crate::text::{
    append_ascii, append_decimal, ascii_text, decimal_text, quoted, quoted_text, shown_text, string_from_utf8_lossy,
    utf8_fault, utf8_fault_text,
};

verus! {

/// What a bencoded value stands for.
pub enum BValue {
    Int(i64),
    Bytes(Seq<u8>),
    List(Seq<BValue>),
    /// The entries of a dictionary, in the order of their keys.
    Dict(Seq<(Seq<u8>, BValue)>),
}

/// A dictionary: byte strings with a value each, kept in ascending order.
#[derive(Debug, PartialEq, Eq, PartialOrd, Ord)]
pub struct Dict {
    entries: Vec<(Vec<u8>, Bencode)>,
}

/// A bencoded value.
#[derive(Debug, PartialEq, Eq, PartialOrd, Ord)]
pub enum Bencode {
    Int(i64),
    ByteString(Vec<u8>),
    List(Vec<Bencode>),
    Dict(Dict),
}

/// Why bytes are not a bencoded value.
#[derive(Debug, Clone, PartialEq, Eq)]
pub enum BencodeError {
    UnexpectedEOF,
    InvalidChar(char),
    InvalidInteger,
    InvalidLength,
    /// A numeral is not UTF-8; the text describes where.
    Utf8Error(String),
}

/// What a `BencodeError` says.
pub enum DecodeFailure {
    UnexpectedEOF,
    InvalidChar(char),
    InvalidInteger,
    InvalidLength,
    Utf8Error(Seq<char>),
}

impl BencodeError {
    pub open spec fn view(&self) -> DecodeFailure {
        match self {
            BencodeError::UnexpectedEOF => DecodeFailure::UnexpectedEOF,
            BencodeError::InvalidChar(c) => DecodeFailure::InvalidChar(*c),
            BencodeError::InvalidInteger => DecodeFailure::InvalidInteger,
            BencodeError::InvalidLength => DecodeFailure::InvalidLength,
            BencodeError::Utf8Error(text) => DecodeFailure::Utf8Error(text@),
        }
    }

    /// The error in words.
    pub fn message(&self) -> (r: String)
        ensures
            r@ == decode_failure_text(self@),
    {
        match self {
            BencodeError::UnexpectedEOF => String::from_str("Unexpected end of input"),
            BencodeError::InvalidChar(c) => {
                let mut text = String::from_str("Invalid character: ");
                text.push(*c);
                text
            },
            BencodeError::InvalidInteger => String::from_str("Invalid integer format"),
            BencodeError::InvalidLength => String::from_str("Invalid byte string length"),
            BencodeError::Utf8Error(fault) => {
                let mut text = String::from_str("UTF-8 error: ");
                text.append(fault.as_str());
                text
            },
        }
    }
}

/// A decoding failure in words.
pub open spec fn decode_failure_text(failure: DecodeFailure) -> Seq<char> {
    match failure {
        DecodeFailure::UnexpectedEOF => "Unexpected end of input"@,
        DecodeFailure::InvalidChar(c) => "Invalid character: "@.push(c),
        DecodeFailure::InvalidInteger => "Invalid integer format"@,
        DecodeFailure::InvalidLength => "Invalid byte string length"@,
        DecodeFailure::Utf8Error(text) => "UTF-8 error: "@ + text,
    }
}

/// Whether the keys of a dictionary are in strictly ascending order.
pub open spec fn sorted_by_key(entries: Seq<(Seq<u8>, BValue)>) -> bool {
    forall|i: int, j: int| 0 <= i < j < entries.len() ==> bytes_before(
        (#[trigger] entries[i]).0,
        (#[trigger] entries[j]).0,
    )
}

/// Whether every dictionary in a value has its keys in strictly ascending order.
pub open spec fn well_formed(v: BValue) -> bool
    decreases v,
{
    match v {
        BValue::Int(_) => true,
        BValue::Bytes(_) => true,
        BValue::List(items) => forall|i: int| 0 <= i < items.len() ==> well_formed(#[trigger] items[i]),
        BValue::Dict(entries) => {
            &&& sorted_by_key(entries)
            &&& forall|i: int| 0 <= i < entries.len() ==> well_formed((#[trigger] entries[i]).1)
        },
    }
}

/// The value that a dictionary holds under a key.
pub open spec fn lookup(entries: Seq<(Seq<u8>, BValue)>, key: Seq<u8>) -> Option<BValue>
    decreases entries.len(),
{
    if entries.len() == 0 {
        None
    } else if entries.last().0 == key {
        Some(entries.last().1)
    } else {
        lookup(entries.drop_last(), key)
    }
}

/// How many entries from `i` on, and all before, precede `key`.
pub open spec fn rank_from(entries: Seq<(Seq<u8>, BValue)>, key: Seq<u8>, i: int) -> int
    decreases entries.len() - i,
{
    if 0 <= i < entries.len() && bytes_before(entries[i].0, key) {
        rank_from(entries, key, i + 1)
    } else {
        i
    }
}

/// A dictionary in which `key` holds `value`, whatever it held before.
pub open spec fn put(entries: Seq<(Seq<u8>, BValue)>, key: Seq<u8>, value: BValue) -> Seq<
    (Seq<u8>, BValue),
> {
    let at = rank_from(entries, key, 0);
    if at < entries.len() && entries[at].0 == key {
        entries.update(at, (key, value))
    } else {
        entries.insert(at, (key, value))
    }
}

/// The bencoding of a byte string: its length, a colon, its bytes.
pub open spec fn string_encoding(b: Seq<u8>) -> Seq<u8> {
    decimal(b.len()) + seq![':' as u8] + b
}

/// The bencoding of a value.
pub open spec fn encoding(v: BValue) -> Seq<u8>
    decreases v,
{
    match v {
        BValue::Int(i) => seq!['i' as u8] + signed_decimal(i as int) + seq!['e' as u8],
        BValue::Bytes(b) => string_encoding(b),
        BValue::List(items) => seq!['l' as u8] + items_encoding(items) + seq!['e' as u8],
        BValue::Dict(entries) => seq!['d' as u8] + entries_encoding(entries) + seq!['e' as u8],
    }
}

/// The bencodings of the items of a list, one after the other.
pub open spec fn items_encoding(items: Seq<BValue>) -> Seq<u8>
    decreases items,
{
    if items.len() == 0 {
        seq![]
    } else {
        items_encoding(items.drop_last()) + encoding(items.last())
    }
}

/// The bencodings of the keys and values of a dictionary, one after the other.
pub open spec fn entries_encoding(entries: Seq<(Seq<u8>, BValue)>) -> Seq<u8>
    decreases entries,
{
    if entries.len() == 0 {
        seq![]
    } else {
        entries_encoding(entries.drop_last()) + string_encoding(entries.last().0) + encoding(
            entries.last().1,
        )
    }
}

/// What reading at some place in a byte string comes to.
pub enum Step<T> {
    /// A value was read; the number is where it ends.
    Done(T, int),
    /// The bytes there are no value.
    Failed(DecodeFailure),
    /// Reading on needs a byte past the end, or a place past the largest `usize`.
    Fault,
}

/// Where `c` first occurs in `b` at or after `o`; the length of `b` if nowhere.
pub open spec fn index_from(b: Seq<u8>, o: int, c: u8) -> int
    decreases b.len() - o,
{
    if 0 <= o < b.len() && b[o] != c {
        index_from(b, o + 1, c)
    } else {
        o
    }
}

/// Reads the integer whose numeral starts at `o`.
pub open spec fn parse_int(b: Seq<u8>, o: int) -> Step<BValue> {
    let end = index_from(b, o, 'e' as u8);
    if end >= b.len() {
        Step::Failed(DecodeFailure::UnexpectedEOF)
    } else {
        let numeral = b.subrange(o, end);
        if !valid_utf8(numeral) {
            Step::Failed(DecodeFailure::Utf8Error(utf8_fault_text(numeral)))
        } else {
            match signed_numeral(numeral) {
                Some(i) => if i64::MIN <= i <= i64::MAX {
                    Step::Done(BValue::Int(i as i64), end + 1)
                } else {
                    Step::Failed(DecodeFailure::InvalidInteger)
                },
                None => Step::Failed(DecodeFailure::InvalidInteger),
            }
        }
    }
}

/// Reads the byte string whose length starts at `o`.
pub open spec fn parse_bytes(b: Seq<u8>, o: int) -> Step<BValue> {
    let colon = index_from(b, o, ':' as u8);
    if colon >= b.len() {
        Step::Failed(DecodeFailure::UnexpectedEOF)
    } else {
        let numeral = b.subrange(o, colon);
        if !valid_utf8(numeral) {
            Step::Failed(DecodeFailure::Utf8Error(utf8_fault_text(numeral)))
        } else {
            match unsigned_numeral(numeral) {
                Some(n) => if n > usize::MAX {
                    Step::Failed(DecodeFailure::InvalidLength)
                } else if colon + 1 + n > usize::MAX {
                    Step::Fault
                } else if colon + 1 + n > b.len() {
                    Step::Failed(DecodeFailure::UnexpectedEOF)
                } else {
                    Step::Done(
                        BValue::Bytes(b.subrange(colon + 1, colon + 1 + n)),
                        colon + 1 + n,
                    )
                },
                None => Step::Failed(DecodeFailure::InvalidLength),
            }
        }
    }
}

/// Reads the value that starts at `o`.
pub open spec fn parse_value(b: Seq<u8>, o: int) -> Step<BValue>
    decreases b.len() - o, 1int,
{
    if !(0 <= o < b.len()) {
        Step::Failed(DecodeFailure::UnexpectedEOF)
    } else if b[o] == 'i' as u8 {
        parse_int(b, o + 1)
    } else if b[o] == 'l' as u8 {
        match parse_items(b, o + 1, seq![]) {
            Step::Done(items, next) => Step::Done(BValue::List(items), next),
            Step::Failed(failure) => Step::Failed(failure),
            Step::Fault => Step::Fault,
        }
    } else if b[o] == 'd' as u8 {
        match parse_entries(b, o + 1, seq![]) {
            Step::Done(entries, next) => Step::Done(BValue::Dict(entries), next),
            Step::Failed(failure) => Step::Failed(failure),
            Step::Fault => Step::Fault,
        }
    } else if is_digit(b[o]) {
        parse_bytes(b, o)
    } else {
        Step::Failed(DecodeFailure::InvalidChar(b[o] as char))
    }
}

/// Reads the items of a list from `o` on, with `items` already read.
pub open spec fn parse_items(b: Seq<u8>, o: int, items: Seq<BValue>) -> Step<Seq<BValue>>
    decreases b.len() - o, 2int,
{
    if !(0 <= o < b.len()) {
        Step::Failed(DecodeFailure::UnexpectedEOF)
    } else if b[o] == 'e' as u8 {
        Step::Done(items, o + 1)
    } else {
        match parse_value(b, o) {
            Step::Done(v, next) => if o < next <= b.len() {
                parse_items(b, next, items.push(v))
            } else {
                Step::Fault
            },
            Step::Failed(failure) => Step::Failed(failure),
            Step::Fault => Step::Fault,
        }
    }
}

/// Reads the key that starts at `o`: a value that must be a byte string.
pub open spec fn parse_key(b: Seq<u8>, o: int) -> Step<Seq<u8>>
    decreases b.len() - o, 2int,
{
    match parse_value(b, o) {
        Step::Done(BValue::Bytes(key), next) => Step::Done(key, next),
        Step::Done(_, next) => if 0 <= next < b.len() {
            Step::Failed(DecodeFailure::InvalidChar(b[next] as char))
        } else {
            Step::Fault
        },
        Step::Failed(failure) => Step::Failed(failure),
        Step::Fault => Step::Fault,
    }
}

/// Reads the entries of a dictionary from `o` on, with `entries` already read.
pub open spec fn parse_entries(b: Seq<u8>, o: int, entries: Seq<(Seq<u8>, BValue)>) -> Step<
    Seq<(Seq<u8>, BValue)>,
>
    decreases b.len() - o, 3int,
{
    if !(0 <= o < b.len()) {
        Step::Failed(DecodeFailure::UnexpectedEOF)
    } else if b[o] == 'e' as u8 {
        Step::Done(entries, o + 1)
    } else {
        match parse_key(b, o) {
            Step::Done(key, middle) => if o < middle <= b.len() {
                match parse_value(b, middle) {
                    Step::Done(v, next) => if middle < next <= b.len() {
                        parse_entries(b, next, put(entries, key, v))
                    } else {
                        Step::Fault
                    },
                    Step::Failed(failure) => Step::Failed(failure),
                    Step::Fault => Step::Fault,
                }
            } else {
                Step::Fault
            },
            Step::Failed(failure) => Step::Failed(failure),
            Step::Fault => Step::Fault,
        }
    }
}

/// Whether reading a value from the start of `bytes` runs past what can be addressed.
pub open spec fn decode_faults(bytes: Seq<u8>) -> bool {
    parse_value(bytes, 0) is Fault
}

/// Whether a result of decoding is what reading comes to.
pub open spec fn is_decoding(r: Result<Bencode, BencodeError>, step: Step<BValue>) -> bool {
    match step {
        Step::Done(v, _) => r matches Ok(b) && b@ == v,
        Step::Failed(failure) => r matches Err(e) && e@ == failure,
        Step::Fault => false,
    }
}

/// Why reading stopped before it came to a value.
enum Halt {
    Error(BencodeError),
    Fault,
}

spec fn reads(r: Result<Bencode, Halt>, next: int, step: Step<BValue>) -> bool {
    match step {
        Step::Done(v, n) => r matches Ok(b) && b@ == v && next == n,
        Step::Failed(failure) => r matches Err(Halt::Error(e)) && e@ == failure,
        Step::Fault => r matches Err(Halt::Fault),
    }
}

impl Dict {
    /// The entries, in the order of their keys.
    pub closed spec fn view(&self) -> Seq<(Seq<u8>, BValue)>
        decreases self,
    {
        Seq::new(
            self.entries@.len(),
            |i: int|
                if 0 <= i < self.entries@.len() {
                    (self.entries@[i].0@, self.entries@[i].1.view())
                } else {
                    arbitrary()
                },
        )
    }

    /// A dictionary without entries.
    pub fn new() -> (r: Dict)
        ensures
            r@ == Seq::<(Seq<u8>, BValue)>::empty(),
    {
        let r = Dict { entries: Vec::new() };
        assert(r@ =~= Seq::<(Seq<u8>, BValue)>::empty());
        r
    }

    /// The number of entries.
    pub fn len(&self) -> (r: usize)
        ensures
            r == self@.len(),
    {
        self.entries.len()
    }

    /// Whether there are no entries.
    pub fn is_empty(&self) -> (r: bool)
        ensures
            r == (self@.len() == 0),
    {
        self.entries.len() == 0
    }

    /// The value under `key`.
    pub fn get(&self, key: &[u8]) -> (r: Option<&Bencode>)
        ensures
            match lookup(self@, key@) {
                Some(v) => r matches Some(b) && b@ == v,
                None => r is None,
            },
    {
        let mut i: usize = self.entries.len();
        assert(self@.take(i as int) =~= self@);
        while i > 0
            invariant
                i <= self.entries@.len(),
                self@.len() == self.entries@.len(),
                lookup(self@, key@) == lookup(self@.take(i as int), key@),
            decreases i,
        {
            let ghost shorter = self@.take(i as int);
            assert(shorter.last() == (self.entries@[i - 1].0@, self.entries@[i - 1].1.view()));
            assert(shorter.drop_last() =~= self@.take(i - 1));
            i -= 1;
            if let Standing::Same = standing(self.entries[i].0.as_slice(), key) {
                return Some(&self.entries[i].1);
            }
            proof {
                bytes_before_irreflexive(key@);
            }
        }
        None
    }

    /// Whether there is a value under `key`.
    pub fn contains_key(&self, key: &[u8]) -> (r: bool)
        ensures
            r == (lookup(self@, key@) is Some),
    {
        self.get(key).is_some()
    }

    /// The entry at position `i` in the order of the keys.
    pub fn entry(&self, i: usize) -> (r: (&Vec<u8>, &Bencode))
        requires
            i < self@.len(),
        ensures
            r.0@ == self@[i as int].0,
            r.1@ == self@[i as int].1,
    {
        (&self.entries[i].0, &self.entries[i].1)
    }

    /// Puts `value` under `key`, in place of what was there.
    pub fn insert(&mut self, key: Vec<u8>, value: Bencode)
        ensures
            final(self)@ == put(old(self)@, key@, value@),
    {
        let ghost before = self@;
        let mut i: usize = 0;
        while i < self.entries.len()
            invariant_except_break
                rank_from(before, key@, 0) == rank_from(before, key@, i as int),
            invariant
                i <= self.entries@.len(),
                before == self@,
                before == old(self)@,
                before.len() == self.entries@.len(),
            ensures
                rank_from(before, key@, 0) == i,
                i < self.entries@.len() ==> !bytes_before(before[i as int].0, key@),
            decreases self.entries.len() - i,
        {
            assert(before[i as int].0 == self.entries@[i as int].0@);
            match standing(self.entries[i].0.as_slice(), key.as_slice()) {
                Standing::Before => {
                    i += 1;
                },
                Standing::Same => {
                    proof {
                        bytes_before_irreflexive(key@);
                    }
                    break;
                },
                Standing::After => {
                    proof {
                        bytes_before_asymmetric(key@, before[i as int].0);
                    }
                    break;
                },
            }
        }
        if i < self.entries.len() {
            assert(before[i as int].0 == self.entries@[i as int].0@);
            if let Standing::Same = standing(self.entries[i].0.as_slice(), key.as_slice()) {
                let ghost k = key@;
                let ghost v = value@;
                self.entries[i] = (key, value);
                assert(self@ =~= before.update(i as int, (k, v)));
                return;
            }
            proof {
                bytes_before_irreflexive(key@);
            }
        }
        let ghost k = key@;
        let ghost v = value@;
        self.entries.insert(i, (key, value));
        assert(self@ =~= before.insert(i as int, (k, v)));
    }
}

impl Bencode {
    /// What the value stands for.
    pub open spec fn view(&self) -> BValue
        decreases self,
    {
        match self {
            Bencode::Int(i) => BValue::Int(*i),
            Bencode::ByteString(b) => BValue::Bytes(b@),
            Bencode::List(items) => BValue::List(
                Seq::new(
                    items@.len(),
                    |i: int|
                        if 0 <= i < items@.len() {
                            items@[i].view()
                        } else {
                            arbitrary()
                        },
                ),
            ),
            Bencode::Dict(dict) => BValue::Dict(dict.view()),
        }
    }

    /// Reads a value from the start of `bytes`; what follows it is ignored.
    pub fn decode(bytes: &[u8]) -> (r: Result<Self, BencodeError>)
        requires
            !decode_faults(bytes@),
        ensures
            is_decoding(r, parse_value(bytes@, 0)),
            r matches Ok(b) ==> well_formed(b@),
    {
        let mut offset: usize = 0;
        Self::decode_inner(bytes, &mut offset)
    }

    /// Whether `decode` would have to read past the end of `bytes`, or past
    /// the largest `usize`: it is not defined on such bytes.
    pub fn runs_past_end(bytes: &[u8]) -> (r: bool)
        ensures
            r == decode_faults(bytes@),
    {
        let mut offset: usize = 0;
        match Self::read_value(bytes, &mut offset) {
            Err(Halt::Fault) => true,
            _ => false,
        }
    }

    /// Reads the value that starts at `offset`, and moves `offset` behind it. What
    /// is read is what the rest of `bytes` decodes to; where that is an error,
    /// `offset` is left somewhere between its place and the end.
    pub fn decode_inner(bytes: &[u8], offset: &mut usize) -> (r: Result<Self, BencodeError>)
        requires
            !(parse_value(bytes@, *old(offset) as int) is Fault),
        ensures
            is_decoding(r, parse_value(bytes@, *old(offset) as int)),
            *old(offset) <= *final(offset),
            *old(offset) <= bytes@.len() ==> *final(offset) <= bytes@.len() && is_decoding(
                r,
                parse_value(bytes@.skip(*old(offset) as int), 0),
            ),
            r matches Ok(b) ==> {
                &&& well_formed(b@)
                &&& *old(offset) < *final(offset) <= bytes@.len()
                &&& parse_value(bytes@, *old(offset) as int) == Step::<BValue>::Done(b@, *final(offset) as int)
                &&& parse_value(bytes@.subrange(*old(offset) as int, *final(offset) as int), 0) == Step::<
                    BValue,
                >::Done(b@, *final(offset) - *old(offset))
            },
    {
        proof {
            if *offset <= bytes@.len() {
                reading_at_a_place_is_reading_the_rest(bytes@, *offset as int);
            }
        }
        match Self::read_value(bytes, offset) {
            Ok(b) => Ok(b),
            Err(Halt::Error(e)) => Err(e),
            Err(Halt::Fault) => Err(BencodeError::UnexpectedEOF),
        }
    }

    fn read_value(bytes: &[u8], offset: &mut usize) -> (r: Result<Self, Halt>)
        ensures
            reads(r, *final(offset) as int, parse_value(bytes@, *old(offset) as int)),
            r matches Ok(b) ==> well_formed(b@) && *old(offset) < *final(offset) <= bytes@.len(),
            *old(offset) <= *final(offset),
            *old(offset) <= bytes@.len() ==> *final(offset) <= bytes@.len(),
        decreases bytes@.len() - *old(offset),
    {
        if *offset >= bytes.len() {
            return Err(Halt::Error(BencodeError::UnexpectedEOF));
        }
        let first: u8 = bytes[*offset];
        if first == 'i' as u8 {
            Self::decode_int(bytes, offset)
        } else if first == 'l' as u8 {
            *offset += 1;
            let ghost start = *offset as int;
            let mut list: Vec<Bencode> = Vec::new();
            assert(items_view(list@) =~= Seq::<BValue>::empty());
            while *offset < bytes.len() && bytes[*offset] != 'e' as u8
                invariant
                    start == *old(offset) + 1,
                    start <= *offset <= bytes@.len(),
                    bytes@[*old(offset) as int] == 'l' as u8,
                    parse_items(bytes@, start, seq![]) == parse_items(
                        bytes@,
                        *offset as int,
                        items_view(list@),
                    ),
                    forall|i: int| 0 <= i < list@.len() ==> well_formed((#[trigger] list@[i])@),
                decreases bytes@.len() - *offset,
            {
                match Self::read_value(bytes, offset) {
                    Ok(item) => {
                        let ghost before = items_view(list@);
                        list.push(item);
                        assert(items_view(list@) =~= before.push(item@));
                    },
                    Err(halt) => return Err(halt),
                }
            }
            if *offset >= bytes.len() {
                return Err(Halt::Error(BencodeError::UnexpectedEOF));
            }
            *offset += 1;
            let r = Bencode::List(list);
            assert(r@ == BValue::List(items_view(list@))) by {
                assert(r@->List_0 =~= items_view(list@));
            }
            assert(well_formed(r@));
            Ok(r)
        } else if first == 'd' as u8 {
            *offset += 1;
            let ghost start = *offset as int;
            let mut dict = Dict::new();
            while *offset < bytes.len() && bytes[*offset] != 'e' as u8
                invariant
                    start == *old(offset) + 1,
                    start <= *offset <= bytes@.len(),
                    bytes@[*old(offset) as int] == 'd' as u8,
                    parse_entries(bytes@, start, seq![]) == parse_entries(
                        bytes@,
                        *offset as int,
                        dict@,
                    ),
                    well_formed(BValue::Dict(dict@)),
                decreases bytes@.len() - *offset,
            {
                let ghost key_step = parse_key(bytes@, *offset as int);
                let key = match Self::read_value(bytes, offset) {
                    Ok(Bencode::ByteString(key)) => key,
                    Ok(_) => {
                        if *offset < bytes.len() {
                            return Err(Halt::Error(BencodeError::InvalidChar(bytes[*offset] as char)));
                        }
                        return Err(Halt::Fault);
                    },
                    Err(halt) => return Err(halt),
                };
                let value = match Self::read_value(bytes, offset) {
                    Ok(value) => value,
                    Err(halt) => return Err(halt),
                };
                proof {
                    put_keeps_well_formed(dict@, key@, value@);
                }
                dict.insert(key, value);
            }
            if *offset >= bytes.len() {
                return Err(Halt::Error(BencodeError::UnexpectedEOF));
            }
            *offset += 1;
            Ok(Bencode::Dict(dict))
        } else if '0' as u8 <= first && first <= '9' as u8 {
            Self::decode_bytes(bytes, offset)
        } else {
            Err(Halt::Error(BencodeError::InvalidChar(first as char)))
        }
    }

    fn decode_int(bytes: &[u8], offset: &mut usize) -> (r: Result<Self, Halt>)
        requires
            *old(offset) < bytes@.len(),
        ensures
            reads(r, *final(offset) as int, parse_int(bytes@, *old(offset) + 1)),
            r matches Ok(b) ==> well_formed(b@) && *old(offset) < *final(offset),
            *old(offset) <= *final(offset) <= bytes@.len(),
    {
        let total: usize = bytes.len();
        let start: usize = *offset + 1;
        let end: usize = find_byte(bytes, start, 'e' as u8);
        *offset = end;
        if end >= total {
            return Err(Halt::Error(BencodeError::UnexpectedEOF));
        }
        let numeral = slice_subrange(bytes, start, end);
        if let Some(fault) = utf8_fault(numeral) {
            return Err(Halt::Error(BencodeError::Utf8Error(fault)));
        }
        match parse_i64(numeral) {
            Some(i) => {
                *offset += 1;
                Ok(Bencode::Int(i))
            },
            None => Err(Halt::Error(BencodeError::InvalidInteger)),
        }
    }

    fn decode_bytes(bytes: &[u8], offset: &mut usize) -> (r: Result<Self, Halt>)
        requires
            *old(offset) < bytes@.len(),
        ensures
            reads(r, *final(offset) as int, parse_bytes(bytes@, *old(offset) as int)),
            r matches Ok(b) ==> well_formed(b@) && *old(offset) < *final(offset),
            *old(offset) <= *final(offset) <= bytes@.len(),
    {
        let start: usize = *offset;
        let colon: usize = find_byte(bytes, start, ':' as u8);
        *offset = colon;
        if colon >= bytes.len() {
            return Err(Halt::Error(BencodeError::UnexpectedEOF));
        }
        let numeral = slice_subrange(bytes, start, colon);
        if let Some(fault) = utf8_fault(numeral) {
            return Err(Halt::Error(BencodeError::Utf8Error(fault)));
        }
        let len: usize = match parse_usize(numeral) {
            Some(len) => len,
            None => return Err(Halt::Error(BencodeError::InvalidLength)),
        };
        *offset += 1;
        match (*offset).checked_add(len) {
            None => Err(Halt::Fault),
            Some(end) => {
                if end > bytes.len() {
                    return Err(Halt::Error(BencodeError::UnexpectedEOF));
                }
                let value = slice_to_vec(slice_subrange(bytes, *offset, end));
                *offset = end;
                Ok(Bencode::ByteString(value))
            },
        }
    }

    /// Writes the value.
    pub fn encode(&self) -> (r: Vec<u8>)
        ensures
            r@ == encoding(self@),
    {
        let mut buf: Vec<u8> = Vec::new();
        self.encode_inner(&mut buf);
        assert(buf@ =~= encoding(self@));
        buf
    }

    /// Writes the value behind what `buf` holds.
    pub fn encode_inner(&self, buf: &mut Vec<u8>)
        ensures
            final(buf)@ == old(buf)@ + encoding(self@),
        decreases self,
    {
        match self {
            Bencode::Int(val) => {
                buf.push('i' as u8);
                push_signed_decimal(buf, *val);
                buf.push('e' as u8);
                assert(buf@ =~= old(buf)@ + encoding(self@));
            },
            Bencode::ByteString(val) => {
                push_string(buf, val);
            },
            Bencode::List(list) => {
                buf.push('l' as u8);
                let ghost items = items_view(list@);
                assert(self@->List_0 =~= items);
                let ghost opened = old(buf)@.push('l' as u8);
                let mut i: usize = 0;
                assert(opened + items_encoding(items.take(0)) =~= opened);
                while i < list.len()
                    invariant
                        i <= list@.len(),
                        items == items_view(list@),
                        decreases_to!(self => list),
                        buf@ == opened + items_encoding(items.take(i as int)),
                    decreases list@.len() - i,
                {
                    assert(decreases_to!(list => list@));
                    list[i].encode_inner(buf);
                    assert(items.take(i + 1).drop_last() =~= items.take(i as int));
                    assert(buf@ =~= opened + items_encoding(items.take(i + 1)));
                    i += 1;
                }
                assert(items.take(i as int) =~= items);
                buf.push('e' as u8);
                assert(buf@ =~= old(buf)@ + encoding(self@));
            },
            Bencode::Dict(dict) => {
                buf.push('d' as u8);
                let ghost opened = old(buf)@.push('d' as u8);
                let mut i: usize = 0;
                assert(opened + entries_encoding(dict@.take(0)) =~= opened);
                while i < dict.entries.len()
                    invariant
                        i <= dict.entries@.len(),
                        dict@.len() == dict.entries@.len(),
                        decreases_to!(self => dict),
                        buf@ == opened + entries_encoding(dict@.take(i as int)),
                    decreases dict.entries@.len() - i,
                {
                    assert(decreases_to!(dict => dict.entries));
                    assert(decreases_to!(dict.entries => dict.entries@));
                    assert(decreases_to!(dict.entries@ => dict.entries@[i as int]));
                    push_string(buf, &dict.entries[i].0);
                    dict.entries[i].1.encode_inner(buf);
                    assert(dict@.take(i + 1).drop_last() =~= dict@.take(i as int));
                    assert(dict@.take(i + 1).last() == dict@[i as int]);
                    assert(buf@ =~= opened + entries_encoding(dict@.take(i + 1)));
                    i += 1;
                }
                assert(dict@.take(i as int) =~= dict@);
                buf.push('e' as u8);
                assert(buf@ =~= old(buf)@ + encoding(self@));
            },
        }
    }
}

/// A value as it is shown to people.
pub open spec fn description(v: BValue) -> Seq<char>
    decreases v,
{
    match v {
        BValue::Int(i) => "Int("@ + ascii_text(signed_decimal(i as int)) + ")"@,
        BValue::Bytes(b) => if valid_utf8(b) {
            "Str("@ + quoted_text(decode_utf8(b)) + ")"@
        } else {
            "Bytes("@ + decimal_text(b.len()) + " bytes)"@
        },
        BValue::List(items) => "["@ + items_description(items) + "]"@,
        BValue::Dict(entries) => "{"@ + entries_description(entries) + "}"@,
    }
}

/// The items of a list as they are shown, with commas between them.
pub open spec fn items_description(items: Seq<BValue>) -> Seq<char>
    decreases items,
{
    if items.len() == 0 {
        seq![]
    } else {
        items_description(items.drop_last()) + comma(items.len() > 1) + description(items.last())
    }
}

/// The entries of a dictionary as they are shown, with commas between them.
pub open spec fn entries_description(entries: Seq<(Seq<u8>, BValue)>) -> Seq<char>
    decreases entries,
{
    if entries.len() == 0 {
        seq![]
    } else {
        entries_description(entries.drop_last()) + comma(entries.len() > 1) + quoted_text(
            shown_text(entries.last().0),
        ) + ": "@ + description(entries.last().1)
    }
}

/// A comma, where there is something before it.
pub open spec fn comma(behind: bool) -> Seq<char> {
    if behind {
        ", "@
    } else {
        ""@
    }
}

impl Bencode {
    /// The value as it is shown to people.
    pub fn describe(&self) -> (r: String)
        ensures
            r@ == description(self@),
    {
        let mut out = String::new();
        self.describe_into(&mut out);
        assert(out@ =~= description(self@));
        out
    }

    fn describe_into(&self, out: &mut String)
        ensures
            final(out)@ == old(out)@ + description(self@),
        decreases self,
    {
        let ghost before = out@;
        match self {
            Bencode::Int(val) => {
                let mut digits: Vec<u8> = Vec::new();
                push_signed_decimal(&mut digits, *val);
                assert(digits@ =~= signed_decimal(*val as int));
                out.append("Int(");
                append_ascii(out, &digits);
                out.append(")");
                assert(out@ =~= before + description(self@));
            },
            Bencode::ByteString(val) => {
                if utf8_fault(val.as_slice()).is_none() {
                    let text = string_from_utf8_lossy(val.as_slice());
                    out.append("Str(");
                    out.append(quoted(text.as_str()).as_str());
                    out.append(")");
                } else {
                    out.append("Bytes(");
                    append_decimal(out, val.len() as u64);
                    out.append(" bytes)");
                }
                assert(out@ =~= before + description(self@));
            },
            Bencode::List(list) => {
                out.append("[");
                let ghost items = items_view(list@);
                assert(self@->List_0 =~= items);
                let ghost opened = out@;
                let mut i: usize = 0;
                assert(opened + items_description(items.take(0)) =~= opened);
                proof {
                    reveal_strlit("");
                }
                while i < list.len()
                    invariant
                        i <= list@.len(),
                        items == items_view(list@),
                        ""@.len() == 0,
                        decreases_to!(self => list),
                        out@ == opened + items_description(items.take(i as int)),
                    decreases list@.len() - i,
                {
                    assert(decreases_to!(list => list@));
                    if i > 0 {
                        out.append(", ");
                    }
                    list[i].describe_into(out);
                    assert(items.take(i + 1).drop_last() =~= items.take(i as int));
                    assert(out@ =~= opened + items_description(items.take(i + 1)));
                    i += 1;
                }
                assert(items.take(i as int) =~= items);
                out.append("]");
                assert(out@ =~= before + description(self@));
            },
            Bencode::Dict(dict) => {
                out.append("{");
                let ghost opened = out@;
                let mut i: usize = 0;
                assert(opened + entries_description(dict@.take(0)) =~= opened);
                proof {
                    reveal_strlit("");
                }
                while i < dict.entries.len()
                    invariant
                        i <= dict.entries@.len(),
                        dict@.len() == dict.entries@.len(),
                        ""@.len() == 0,
                        decreases_to!(self => dict),
                        out@ == opened + entries_description(dict@.take(i as int)),
                    decreases dict.entries@.len() - i,
                {
                    assert(decreases_to!(dict => dict.entries));
                    assert(decreases_to!(dict.entries => dict.entries@));
                    assert(decreases_to!(dict.entries@ => dict.entries@[i as int]));
                    if i > 0 {
                        out.append(", ");
                    }
                    let key = string_from_utf8_lossy(dict.entries[i].0.as_slice());
                    out.append(quoted(key.as_str()).as_str());
                    out.append(": ");
                    dict.entries[i].1.describe_into(out);
                    assert(dict@.take(i + 1).drop_last() =~= dict@.take(i as int));
                    assert(dict@.take(i + 1).last() == dict@[i as int]);
                    assert(out@ =~= opened + entries_description(dict@.take(i + 1)));
                    i += 1;
                }
                assert(dict@.take(i as int) =~= dict@);
                out.append("}");
                assert(out@ =~= before + description(self@));
            },
        }
    }
}

/// Appends the bencoding of a byte string.
fn push_string(buf: &mut Vec<u8>, val: &Vec<u8>)
    ensures
        final(buf)@ == old(buf)@ + string_encoding(val@),
{
    push_decimal(buf, val.len() as u64);
    buf.push(':' as u8);
    buf.extend_from_slice(val.as_slice());
    assert(buf@ =~= old(buf)@ + string_encoding(val@));
}

/// Finds the first `c` at or after `from`.
fn find_byte(bytes: &[u8], from: usize, c: u8) -> (r: usize)
    requires
        from <= bytes@.len(),
    ensures
        r == index_from(bytes@, from as int, c),
        from <= r <= bytes@.len(),
        r < bytes@.len() ==> bytes@[r as int] == c,
{
    let mut i: usize = from;
    while i < bytes.len() && bytes[i] != c
        invariant
            from <= i <= bytes@.len(),
            index_from(bytes@, from as int, c) == index_from(bytes@, i as int, c),
        decreases bytes@.len() - i,
    {
        i += 1;
    }
    i
}

/// A dictionary stays well formed when a well-formed value is put into it.
pub proof fn put_keeps_well_formed(entries: Seq<(Seq<u8>, BValue)>, key: Seq<u8>, value: BValue)
    requires
        well_formed(BValue::Dict(entries)),
        well_formed(value),
    ensures
        well_formed(BValue::Dict(put(entries, key, value))),
{
    let at = rank_from(entries, key, 0);
    lemma_rank(entries, key, 0);
    let longer = put(entries, key, value);
    if at < entries.len() && entries[at].0 == key {
        assert forall|i: int, j: int| 0 <= i < j < longer.len() implies bytes_before(
            (#[trigger] longer[i]).0,
            (#[trigger] longer[j]).0,
        ) by {
            assert(longer[i].0 == entries[i].0);
            assert(longer[j].0 == entries[j].0);
        }
    } else {
        if at < entries.len() {
            bytes_before_total(entries[at].0, key);
        }
        assert forall|i: int, j: int| 0 <= i < j < longer.len() implies bytes_before(
            (#[trigger] longer[i]).0,
            (#[trigger] longer[j]).0,
        ) by {
            let from_i = if i < at { entries[i] } else { entries[i - 1] };
            let from_j = if j < at { entries[j] } else { entries[j - 1] };
            if i == at {
                assert(longer[j] == entries[j - 1]);
                if j - 1 > at {
                    bytes_before_transitive(key, entries[at].0, entries[j - 1].0);
                }
            } else if j == at {
                assert(longer[i] == entries[i]);
            } else {
                assert(longer[i] == from_i);
                assert(longer[j] == from_j);
            }
        }
        assert forall|i: int| 0 <= i < longer.len() implies well_formed((#[trigger] longer[i]).1) by {
            if i < at {
                assert(longer[i] == entries[i]);
            } else if i > at {
                assert(longer[i] == entries[i - 1]);
            }
        }
    }
}

pub(crate) proof fn lemma_rank(entries: Seq<(Seq<u8>, BValue)>, key: Seq<u8>, i: int)
    requires
        0 <= i <= entries.len(),
        forall|k: int| 0 <= k < i ==> bytes_before((#[trigger] entries[k]).0, key),
    ensures
        i <= rank_from(entries, key, i) <= entries.len(),
        forall|k: int|
            0 <= k < rank_from(entries, key, i) ==> bytes_before((#[trigger] entries[k]).0, key),
        rank_from(entries, key, i) < entries.len() ==> !bytes_before(
            entries[rank_from(entries, key, i)].0,
            key,
        ),
    decreases entries.len() - i,
{
    if i < entries.len() && bytes_before(entries[i].0, key) {
        lemma_rank(entries, key, i + 1);
    }
}

/// Where the value of the key `info` was found.
pub enum InfoPlace {
    /// The value takes up the bytes from the first place up to the second.
    Found(int, int),
    Missing,
    /// Reading on needs a byte past the end, or a place past the largest `usize`.
    Fault,
}

/// Looks for the value of `info` among the entries from `o` on.
pub open spec fn info_place_from(b: Seq<u8>, o: int) -> InfoPlace
    decreases b.len() - o,
{
    if !(0 <= o < b.len()) || b[o] == 'e' as u8 {
        InfoPlace::Missing
    } else {
        match parse_value(b, o) {
            Step::Done(_, middle) => if o < middle <= b.len() {
                match parse_value(b, middle) {
                    Step::Done(_, end) => if middle < end <= b.len() {
                        if b.subrange(o, middle) == "4:info".spec_bytes() {
                            InfoPlace::Found(middle, end)
                        } else {
                            info_place_from(b, end)
                        }
                    } else {
                        InfoPlace::Fault
                    },
                    Step::Failed(_) => InfoPlace::Missing,
                    Step::Fault => InfoPlace::Fault,
                }
            } else {
                InfoPlace::Fault
            },
            Step::Failed(_) => InfoPlace::Missing,
            Step::Fault => InfoPlace::Fault,
        }
    }
}

/// Looks for the value of the first key written `4:info` in a dictionary.
pub open spec fn info_place(b: Seq<u8>) -> InfoPlace {
    if b.len() == 0 || b[0] != 'd' as u8 {
        InfoPlace::Missing
    } else {
        info_place_from(b, 1)
    }
}

/// Helper function to locate the exact byte slice of the "info" dictionary in the raw torrent file.
pub fn find_info_dict_slice(bytes: &[u8]) -> (r: Option<&[u8]>)
    requires
        !(info_place(bytes@) is Fault),
    ensures
        match info_place(bytes@) {
            InfoPlace::Found(start, end) => r matches Some(slice) && 0 <= start <= end <= bytes@.len()
                && slice@ == bytes@.subrange(start, end),
            _ => r is None,
        },
{
    if bytes.len() == 0 || bytes[0] != 'd' as u8 {
        return None;
    }
    let mut offset: usize = 1;
    while offset < bytes.len() && bytes[offset] != 'e' as u8
        invariant
            1 <= offset <= bytes@.len(),
            info_place(bytes@) == info_place_from(bytes@, offset as int),
            !(info_place(bytes@) is Fault),
        decreases bytes@.len() - offset,
    {
        let key_start: usize = offset;
        if Bencode::read_value(bytes, &mut offset).is_err() {
            return None;
        }
        let key_bytes = slice_subrange(bytes, key_start, offset);
        let is_info = same_bytes(key_bytes, "4:info".as_bytes());
        let val_start: usize = offset;
        if Bencode::read_value(bytes, &mut offset).is_err() {
            return None;
        }
        if is_info {
            return Some(slice_subrange(bytes, val_start, offset));
        }
    }
    None
}

/// Whether two byte strings are equal.
pub(crate) fn same_bytes(a: &[u8], b: &[u8]) -> (r: bool)
    ensures
        r == (a@ == b@),
{
    match standing(a, b) {
        Standing::Same => true,
        Standing::Before => {
            proof {
                bytes_before_asymmetric(a@, b@);
            }
            false
        },
        Standing::After => {
            proof {
                bytes_before_asymmetric(b@, a@);
            }
            false
        },
    }
}

impl Clone for Bencode {
    fn clone(&self) -> (r: Self)
        ensures
            r@ == self@,
        decreases self,
    {
        match self {
            Bencode::Int(i) => Bencode::Int(*i),
            Bencode::ByteString(b) => Bencode::ByteString(slice_to_vec(b.as_slice())),
            Bencode::List(list) => {
                let mut items: Vec<Bencode> = Vec::new();
                let mut i: usize = 0;
                while i < list.len()
                    invariant
                        i <= list@.len(),
                        i == items@.len(),
                        decreases_to!(self => list),
                        forall|k: int| 0 <= k < i ==> (#[trigger] items@[k])@ == list@[k]@,
                    decreases list@.len() - i,
                {
                    assert(decreases_to!(list => list@));
                    items.push(list[i].clone());
                    i += 1;
                }
                let r = Bencode::List(items);
                assert(r@->List_0 =~= self@->List_0);
                r
            },
            Bencode::Dict(dict) => Bencode::Dict(dict.clone()),
        }
    }
}

impl Clone for Dict {
    fn clone(&self) -> (r: Self)
        ensures
            r@ == self@,
        decreases self,
    {
        let mut entries: Vec<(Vec<u8>, Bencode)> = Vec::new();
        let mut i: usize = 0;
        assert(decreases_to!(self => self.entries));
        assert(decreases_to!(self.entries => self.entries@));
        while i < self.entries.len()
            invariant
                decreases_to!(self => self.entries@),
                i <= self.entries@.len(),
                i == entries@.len(),
                forall|k: int|
                    0 <= k < i ==> (#[trigger] entries@[k]).0@ == self.entries@[k].0@
                        && entries@[k].1@ == self.entries@[k].1@,
            decreases self.entries@.len() - i,
        {
            assert(decreases_to!(self.entries@ => self.entries@[i as int]));
            entries.push((slice_to_vec(self.entries[i].0.as_slice()), self.entries[i].1.clone()));
            i += 1;
        }
        let copy = Dict { entries };
        assert(copy@ =~= self@);
        copy
    }
}

/// What the items of a list stand for.
pub open spec fn items_view(items: Seq<Bencode>) -> Seq<BValue> {
    Seq::new(items.len(), |i: int| items[i].view())
}

} // verus!
