//! Magnet links.
use vstd::prelude::*;
use vstd::slice::slice_subrange;
use vstd::string::*;
use vstd::utf8::{decode_utf8, encode_utf8, valid_utf8};
use crate::bencode::same_bytes;
use crate::config::texts;
use crate::ids::InfoHash;
use crate::text::{ascii_text, string_from_utf8};

verus! {

/// Why a text is not a magnet link.
#[derive(Debug, Clone, Copy, PartialEq, Eq, Structural)]
pub enum MagnetError {
    InvalidPrefix,
    MissingXt,
    InvalidInfoHash,
    InvalidUrlEncoding,
}

impl MagnetError {
    pub open spec fn text(&self) -> Seq<char> {
        match self {
            MagnetError::InvalidPrefix => "Invalid magnet link prefix"@,
            MagnetError::MissingXt => "Missing exact topic (xt)"@,
            MagnetError::InvalidInfoHash => "Invalid info hash format"@,
            MagnetError::InvalidUrlEncoding => "Invalid URL encoding"@,
        }
    }

    /// The error in words.
    pub fn message(&self) -> (r: String)
        ensures
            r@ == self.text(),
    {
        match self {
            MagnetError::InvalidPrefix => String::from_str("Invalid magnet link prefix"),
            MagnetError::MissingXt => String::from_str("Missing exact topic (xt)"),
            MagnetError::InvalidInfoHash => String::from_str("Invalid info hash format"),
            MagnetError::InvalidUrlEncoding => String::from_str("Invalid URL encoding"),
        }
    }
}

/// What a magnet link says.
#[derive(Debug, Clone, PartialEq, Eq)]
pub struct MagnetLink {
    pub info_hash: InfoHash,
    pub trackers: Vec<String>,
    pub name: Option<String>,
}

/// What a `MagnetLink` says.
pub struct MagnetView {
    pub info_hash: Seq<u8>,
    pub trackers: Seq<Seq<char>>,
    pub name: Option<Seq<char>>,
}

/// The text of a string that may be absent.
pub open spec fn optional_text(s: Option<String>) -> Option<Seq<char>> {
    match s {
        Some(text) => Some(text@),
        None => None,
    }
}

impl MagnetLink {
    pub open spec fn view(&self) -> MagnetView {
        MagnetView {
            info_hash: self.info_hash.0@,
            trackers: texts(self.trackers@),
            name: optional_text(self.name),
        }
    }
}

/// Whether `s` starts with `prefix`.
pub open spec fn starts_with(s: Seq<u8>, prefix: Seq<u8>) -> bool {
    s.len() >= prefix.len() && s.take(prefix.len() as int) == prefix
}

/// The number that a hexadecimal digit denotes.
pub open spec fn hex_value(c: u8) -> Option<u8> {
    if '0' as u8 <= c <= '9' as u8 {
        Some((c - '0' as u8) as u8)
    } else if 'a' as u8 <= c <= 'f' as u8 {
        Some((c - 'a' as u8 + 10) as u8)
    } else if 'A' as u8 <= c <= 'F' as u8 {
        Some((c - 'A' as u8 + 10) as u8)
    } else {
        None
    }
}

/// The byte that two hexadecimal digits denote.
pub open spec fn hex_byte(high: u8, low: u8) -> Option<u8> {
    match (hex_value(high), hex_value(low)) {
        (Some(h), Some(l)) => Some((h * 16 + l) as u8),
        _ => None,
    }
}

/// The bytes that an even number of hexadecimal digits denote.
pub open spec fn hex_decoded(s: Seq<u8>) -> Option<Seq<u8>> {
    if s.len() % 2 == 0 && (forall|i: int| 0 <= i < s.len() ==> hex_value(#[trigger] s[i]) is Some) {
        Some(Seq::new(s.len() / 2, |i: int| hex_byte(s[2 * i], s[2 * i + 1])->0))
    } else {
        None
    }
}

/// The bytes in which every `%` and two hexadecimal digits stand for one byte;
/// a `%` without two digits is an error.
pub open spec fn percent_decoded(s: Seq<u8>) -> Option<Seq<u8>>
    decreases s.len(),
{
    if s.len() == 0 {
        Some(seq![])
    } else if s[0] == '%' as u8 {
        if s.len() >= 3 && hex_byte(s[1], s[2]) is Some {
            put_before(seq![hex_byte(s[1], s[2])->0], percent_decoded(s.skip(3)))
        } else {
            None
        }
    } else {
        put_before(seq![s[0]], percent_decoded(s.skip(1)))
    }
}

/// `rest` with `front` before it, where there is a `rest`.
pub open spec fn put_before(front: Seq<u8>, rest: Option<Seq<u8>>) -> Option<Seq<u8>> {
    match rest {
        Some(r) => Some(front + r),
        None => None,
    }
}

/// The text that a part of a query denotes.
pub open spec fn query_text(s: Seq<u8>) -> Option<Seq<char>> {
    match percent_decoded(s) {
        Some(bytes) => if valid_utf8(bytes) {
            Some(decode_utf8(bytes))
        } else {
            None
        },
        None => None,
    }
}

/// Where the part of a query that starts at `o` ends.
pub open spec fn part_end(q: Seq<u8>, o: int) -> int
    decreases q.len() - o,
{
    if 0 <= o < q.len() && q[o] != '&' as u8 {
        part_end(q, o + 1)
    } else {
        o
    }
}

/// The parts of a query from `o` on, which ampersands separate.
pub open spec fn query_parts(q: Seq<u8>, o: int) -> Seq<Seq<u8>>
    decreases q.len() - o,
{
    let end = part_end(q, o);
    if o <= end < q.len() {
        seq![q.subrange(o, end)] + query_parts(q, end + 1)
    } else {
        seq![q.subrange(o, end)]
    }
}

/// What the parts of a query say so far.
pub struct Parts {
    pub info_hash: Option<Seq<u8>>,
    pub trackers: Seq<Seq<char>>,
    pub name: Option<Seq<char>>,
}

/// What one more part adds: the last hash and the last name count, every
/// tracker does, and a part that cannot be read is passed over.
pub open spec fn with_part(parts: Parts, part: Seq<u8>) -> Parts {
    if starts_with(part, "xt=".spec_bytes()) {
        let topic = part.skip(3);
        if starts_with(topic, "urn:btih:".spec_bytes()) && topic.skip(9).len() == 40 && hex_decoded(
            topic.skip(9),
        ) is Some {
            Parts { info_hash: hex_decoded(topic.skip(9)), ..parts }
        } else {
            parts
        }
    } else if starts_with(part, "tr=".spec_bytes()) {
        match query_text(part.skip(3)) {
            Some(text) => Parts { trackers: parts.trackers.push(text), ..parts },
            None => parts,
        }
    } else if starts_with(part, "dn=".spec_bytes()) {
        match query_text(part.skip(3)) {
            Some(text) => Parts { name: Some(text), ..parts },
            None => parts,
        }
    } else {
        parts
    }
}

/// What the parts of a query say.
pub open spec fn all_parts(parts: Seq<Seq<u8>>) -> Parts
    decreases parts.len(),
{
    if parts.len() == 0 {
        Parts { info_hash: None, trackers: seq![], name: None }
    } else {
        with_part(all_parts(parts.drop_last()), parts.last())
    }
}

/// What a magnet link says.
pub open spec fn magnet_of(url: Seq<u8>) -> Result<MagnetView, MagnetError> {
    if !starts_with(url, "magnet:?".spec_bytes()) {
        Err(MagnetError::InvalidPrefix)
    } else {
        let parts = all_parts(query_parts(url.skip(8), 0));
        match parts.info_hash {
            Some(info_hash) => Ok(
                MagnetView { info_hash, trackers: parts.trackers, name: parts.name },
            ),
            None => Err(MagnetError::MissingXt),
        }
    }
}

/// The lengths of the prefixes that are looked for.
pub(crate) proof fn lemma_prefix_lengths()
    ensures
        "magnet:?".spec_bytes().len() == 8,
        "xt=".spec_bytes().len() == 3,
        "tr=".spec_bytes().len() == 3,
        "dn=".spec_bytes().len() == 3,
        "urn:btih:".spec_bytes().len() == 9,
{
    reveal_strlit("magnet:?");
    reveal_strlit("xt=");
    reveal_strlit("tr=");
    reveal_strlit("dn=");
    reveal_strlit("urn:btih:");
    is_ascii_spec_bytes("magnet:?");
    is_ascii_spec_bytes("xt=");
    is_ascii_spec_bytes("tr=");
    is_ascii_spec_bytes("dn=");
    is_ascii_spec_bytes("urn:btih:");
}

/// What follows `prefix` in `s`.
pub(crate) fn strip_prefix<'a>(s: &'a [u8], prefix: &str) -> (r: Option<&'a [u8]>)
    ensures
        match r {
            Some(rest) => starts_with(s@, prefix.spec_bytes()) && rest@ == s@.skip(
                prefix.spec_bytes().len() as int,
            ),
            None => !starts_with(s@, prefix.spec_bytes()),
        },
{
    let p = prefix.as_bytes();
    if s.len() >= p.len() {
        let front = slice_subrange(s, 0, p.len());
        assert(front@ =~= s@.take(p@.len() as int));
        if same_bytes(front, p) {
            let rest = slice_subrange(s, p.len(), s.len());
            assert(rest@ =~= s@.skip(p@.len() as int));
            return Some(rest);
        }
    }
    None
}

/// The number that a hexadecimal digit denotes, and 255 for any other byte.
fn parse_hex_digit(c: u8) -> (r: u8)
    ensures
        match hex_value(c) {
            Some(n) => r == n && n < 16,
            None => r == 255,
        },
{
    if '0' as u8 <= c && c <= '9' as u8 {
        c - '0' as u8
    } else if 'a' as u8 <= c && c <= 'f' as u8 {
        c - 'a' as u8 + 10
    } else if 'A' as u8 <= c && c <= 'F' as u8 {
        c - 'A' as u8 + 10
    } else {
        255
    }
}

/// How many pairs of hexadecimal digits stand at the start of `s`, from pair `i`
/// on.
pub open spec fn pairs_from(s: Seq<u8>, i: int) -> int
    decreases s.len() - 2 * i,
{
    if 0 <= i && 2 * i + 1 < s.len() && hex_byte(s[2 * i], s[2 * i + 1]) is Some {
        pairs_from(s, i + 1)
    } else {
        i
    }
}

/// `out` after the digits of `s` were read into it: every pair before the first
/// that is none stands for a byte. Digits for more or fewer bytes are not read.
pub open spec fn hex_read_into(s: Seq<u8>, out: Seq<u8>) -> Seq<u8> {
    if s.len() != 2 * out.len() {
        out
    } else {
        Seq::new(
            out.len(),
            |i: int|
                if i < pairs_from(s, 0) {
                    hex_byte(s[2 * i], s[2 * i + 1])->0
                } else {
                    out[i]
                },
        )
    }
}

/// Reads hexadecimal digits, two for each byte of `out`. Where they are not as
/// many, `out` stays as it is; where a pair is none, the bytes before it are read.
pub fn decode_hex(s: &[u8], out: &mut [u8]) -> (r: bool)
    ensures
        r == (s@.len() == 2 * old(out)@.len() && hex_decoded(s@) is Some),
        final(out)@ == hex_read_into(s@, old(out)@),
        r ==> final(out)@ == hex_decoded(s@)->0,
{
    let digits: usize = s.len();
    let total: usize = out.len();
    if digits % 2 != 0 || digits / 2 != total {
        return false;
    }
    let ghost before = out@;
    let mut i: usize = 0;
    while i < total
        invariant
            i <= total,
            total == out@.len() == before.len(),
            before == old(out)@,
            2 * total == digits == s@.len(),
            pairs_from(s@, 0) == pairs_from(s@, i as int),
            forall|k: int| 0 <= k < 2 * i ==> hex_value(#[trigger] s@[k]) is Some,
            forall|k: int| 0 <= k < i ==> #[trigger] out@[k] == hex_byte(s@[2 * k], s@[2 * k + 1])->0,
            forall|k: int| i <= k < total ==> #[trigger] out@[k] == before[k],
        decreases total - i,
    {
        let high: u8 = parse_hex_digit(s[2 * i]);
        let low: u8 = parse_hex_digit(s[2 * i + 1]);
        if high == 255 || low == 255 {
            assert(hex_value(s@[2 * i as int]) is None || hex_value(s@[2 * i + 1]) is None);
            assert(out@ =~= hex_read_into(s@, before));
            return false;
        }
        out[i] = high * 16 + low;
        i += 1;
    }
    assert(out@ =~= hex_read_into(s@, before));
    assert(out@ =~= hex_decoded(s@)->0);
    true
}

/// Reads a part of a query.
fn url_decode(s: &[u8]) -> (r: Result<String, MagnetError>)
    ensures
        match query_text(s@) {
            Some(text) => r matches Ok(got) && got@ == text,
            None => r == Err::<String, MagnetError>(MagnetError::InvalidUrlEncoding),
        },
{
    let mut out: Vec<u8> = Vec::with_capacity(s.len());
    let mut i: usize = 0;
    assert(s@.skip(0) =~= s@);
    assert(percent_decoded(s@) == put_before(out@, percent_decoded(s@))) by {
        if let Some(all) = percent_decoded(s@) {
            assert(out@ + all =~= all);
        }
    }
    while i < s.len()
        invariant
            i <= s@.len(),
            percent_decoded(s@) == put_before(out@, percent_decoded(s@.skip(i as int))),
        decreases s@.len() - i,
    {
        let ghost rest = s@.skip(i as int);
        let ghost before = out@;
        assert(rest[0] == s@[i as int]);
        if s[i] == '%' as u8 {
            if s.len() - i > 2 {
                assert(rest[1] == s@[i + 1] && rest[2] == s@[i + 2]);
                let high: u8 = parse_hex_digit(s[i + 1]);
                let low: u8 = parse_hex_digit(s[i + 2]);
                if high != 255 && low != 255 {
                    out.push(high * 16 + low);
                    i += 3;
                    proof {
                        assert(rest.skip(3) =~= s@.skip(i as int));
                        if let Some(all) = percent_decoded(s@.skip(i as int)) {
                            assert(before + (seq![out@.last()] + all) =~= out@ + all);
                        }
                    }
                    continue ;
                }
            }
            return Err(MagnetError::InvalidUrlEncoding);
        } else {
            out.push(s[i]);
            i += 1;
            proof {
                assert(rest.skip(1) =~= s@.skip(i as int));
                if let Some(all) = percent_decoded(s@.skip(i as int)) {
                    assert(before + (seq![out@.last()] + all) =~= out@ + all);
                }
            }
        }
    }
    assert(s@.skip(i as int) =~= Seq::<u8>::empty());
    assert(out@ + Seq::<u8>::empty() =~= out@);
    match string_from_utf8(out) {
        Some(text) => Ok(text),
        None => Err(MagnetError::InvalidUrlEncoding),
    }
}

impl MagnetLink {
    /// Reads a magnet link.
    pub fn parse(url: &str) -> (r: Result<Self, MagnetError>)
        ensures
            match magnet_of(url.spec_bytes()) {
                Ok(link) => r matches Ok(got) && got@ == link,
                Err(e) => r == Err::<MagnetLink, MagnetError>(e),
            },
    {
        let bytes = url.as_bytes();
        proof {
            lemma_prefix_lengths();
        }
        let query = match strip_prefix(bytes, "magnet:?") {
            Some(query) => query,
            None => return Err(MagnetError::InvalidPrefix),
        };
        let mut info_hash: Option<InfoHash> = None;
        let mut trackers: Vec<String> = Vec::new();
        let mut name: Option<String> = None;
        let ghost mut done = Seq::<Seq<u8>>::empty();
        let mut start: usize = 0;
        let mut more = true;
        assert(texts(trackers@) =~= Seq::<Seq<char>>::empty());
        assert(done + query_parts(query@, 0) =~= query_parts(query@, 0));
        while more
            invariant
                start <= query@.len(),
                more ==> query_parts(query@, 0) == done + query_parts(query@, start as int),
                !more ==> query_parts(query@, 0) == done,
                all_parts(done) == (Parts {
                    info_hash: match info_hash {
                        Some(hash) => Some(hash.0@),
                        None => None,
                    },
                    trackers: texts(trackers@),
                    name: optional_text(name),
                }),
            decreases query@.len() - start, if more { 1int } else { 0int },
        {
            let mut end: usize = start;
            while end < query.len() && query[end] != '&' as u8
                invariant
                    start <= end <= query@.len(),
                    part_end(query@, start as int) == part_end(query@, end as int),
                decreases query@.len() - end,
            {
                end += 1;
            }
            let part = slice_subrange(query, start, end);
            let ghost before = texts(trackers@);
            proof {
                lemma_prefix_lengths();
            }
            if let Some(topic) = strip_prefix(part, "xt=") {
                if let Some(hash) = strip_prefix(topic, "urn:btih:") {
                    let mut bytes: [u8; 20] = [0; 20];
                    if decode_hex(hash, &mut bytes) {
                        info_hash = Some(InfoHash(bytes));
                    }
                }
            } else if let Some(tracker) = strip_prefix(part, "tr=") {
                if let Ok(text) = url_decode(tracker) {
                    trackers.push(text);
                    assert(texts(trackers@) =~= before.push(text@));
                }
            } else if let Some(shown) = strip_prefix(part, "dn=") {
                if let Ok(text) = url_decode(shown) {
                    name = Some(text);
                }
            }
            proof {
                let longer = done.push(part@);
                assert(longer.drop_last() =~= done);
                if end < query@.len() {
                    assert(done + (seq![part@] + query_parts(query@, end + 1)) =~= longer + query_parts(
                        query@,
                        end + 1,
                    ));
                } else {
                    assert(done + seq![part@] =~= longer);
                }
                done = longer;
            }
            if end < query.len() {
                start = end + 1;
            } else {
                start = end;
                more = false;
            }
        }
        match info_hash {
            Some(info_hash) => Ok(MagnetLink { info_hash, trackers, name }),
            None => Err(MagnetError::MissingXt),
        }
    }
}

/// The digit for a number below sixteen, in upper case.
pub open spec fn upper_hex_digit(n: int) -> u8 {
    if n < 10 {
        ('0' as u8 + n) as u8
    } else {
        ('A' as u8 + n - 10) as u8
    }
}

/// Whether a byte stands for itself in a form.
pub open spec fn form_unchanged(b: u8) -> bool {
    ||| '0' as u8 <= b <= '9' as u8
    ||| 'A' as u8 <= b <= 'Z' as u8
    ||| 'a' as u8 <= b <= 'z' as u8
    ||| b == '*' as u8
    ||| b == '-' as u8
    ||| b == '.' as u8
    ||| b == '_' as u8
}

/// A byte as it is written in a form.
pub open spec fn form_byte(b: u8) -> Seq<u8> {
    if form_unchanged(b) {
        seq![b]
    } else if b == ' ' as u8 {
        seq!['+' as u8]
    } else {
        seq!['%' as u8, upper_hex_digit(b as int / 16), upper_hex_digit(b as int % 16)]
    }
}

/// Bytes as they are written in a form.
pub open spec fn form_encoded(bytes: Seq<u8>) -> Seq<u8>
    decreases bytes.len(),
{
    if bytes.len() == 0 {
        seq![]
    } else {
        form_byte(bytes[0]) + form_encoded(bytes.skip(1))
    }
}

/// `url::form_urlencoded::byte_serialize`, with its parts put together:
/// letters, digits and `*-._` stay as they are, a space becomes a plus sign,
/// and any other byte becomes a percent sign and two digits in upper case.
#[verifier::external_body]
fn form_encode(bytes: &[u8]) -> (r: String)
    ensures
        r@ == ascii_text(form_encoded(bytes@)),
{
    url::form_urlencoded::byte_serialize(bytes).collect::<String>()
}

/// Trackers as the parameters of a link.
pub open spec fn tracker_params(trackers: Seq<Seq<char>>) -> Seq<char>
    decreases trackers.len(),
{
    if trackers.len() == 0 {
        seq![]
    } else {
        tracker_params(trackers.drop_last()) + "&tr="@ + ascii_text(
            form_encoded(encode_utf8(trackers.last())),
        )
    }
}

/// The link for a hash, which names the given trackers.
pub open spec fn link_for_hash(hash: Seq<char>, trackers: Seq<Seq<char>>) -> Seq<char> {
    "magnet:?xt=urn:btih:"@ + hash + tracker_params(trackers)
}

/// Makes the link for a bare hash.
pub fn magnet_link_for_hash(hash: &str, trackers: &Vec<String>) -> (r: String)
    ensures
        r@ == link_for_hash(hash@, texts(trackers@)),
{
    let mut link = String::from_str("magnet:?xt=urn:btih:");
    link.append(hash);
    let ghost front = link@;
    let ghost all = texts(trackers@);
    let mut i: usize = 0;
    assert(link@ =~= front + tracker_params(all.take(0)));
    while i < trackers.len()
        invariant
            i <= trackers@.len(),
            all == texts(trackers@),
            link@ == front + tracker_params(all.take(i as int)),
        decreases trackers@.len() - i,
    {
        assert(all.take(i + 1).drop_last() =~= all.take(i as int));
        assert(all.take(i + 1).last() == trackers@[i as int]@);
        let encoded = form_encode(trackers[i].as_str().as_bytes());
        link.append("&tr=");
        link.append(encoded.as_str());
        i += 1;
        assert(link@ =~= front + tracker_params(all.take(i as int)));
    }
    assert(all.take(i as int) =~= all);
    link
}

} // verus!
