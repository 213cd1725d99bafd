//! Torrent metainfo as a bencoded value: how a `.torrent` file is written.
use vstd::prelude::*;
use vstd::slice::slice_to_vec;
use vstd::string::*;
use vstd::utf8::{encode_utf8, encode_utf8_decode_utf8, encode_utf8_valid_utf8};
use crate::bencode::{encoding, lookup, parse_value, sorted_by_key, well_formed, BValue, Bencode, Dict};
use crate::bencode_laws::{
    decode_undoes_encode, info_slice_is_info_encoding, lemma_lookup_at, lemma_lookup_none, lemma_put_last,
};
use crate::config::texts;
use crate::digest::sha1_digest;
use crate::meta::{
    announce_list_of, digests_of, file_of, files_of, info_of, length_of, meta_of, path_of, piece_views, strings_of,
    text_field, tier_views, tiers_of, FileMode, FileView, InfoDict, InfoView, MetaFailure, MetaView, ModeView,
    TorrentFile, TorrentMeta,
};
use crate::order::{
    beginning_comes_first, bytes_before, bytes_before_asymmetric, bytes_before_transitive,
    first_difference_decides,
};
use crate::text::shown_text;

verus! {

/// A text as a value.
pub open spec fn text_value(text: Seq<char>) -> BValue {
    BValue::Bytes(encode_utf8(text))
}

/// The integer that stands for a length: one that is too large for a signed
/// number counts down from zero.
pub open spec fn integer_for(n: u64) -> i64 {
    if n <= i64::MAX {
        n as i64
    } else {
        (n - 0x1_0000_0000_0000_0000) as i64
    }
}

/// A length as a value; what is past the largest `i64` becomes negative.
pub open spec fn length_value(n: u64) -> BValue {
    BValue::Int(integer_for(n))
}

/// Some texts as a value.
pub open spec fn texts_value(items: Seq<Seq<char>>) -> BValue {
    BValue::List(items.map_values(|t: Seq<char>| text_value(t)))
}

/// A file as a value.
pub open spec fn file_value(file: FileView) -> BValue {
    BValue::Dict(
        seq![
            ("length".spec_bytes(), length_value(file.length)),
            ("path".spec_bytes(), texts_value(file.path)),
        ],
    )
}

/// Some byte strings, one after the other.
pub open spec fn joined(parts: Seq<Seq<u8>>) -> Seq<u8>
    decreases parts.len(),
{
    if parts.len() == 0 {
        seq![]
    } else {
        joined(parts.drop_last()) + parts.last()
    }
}

/// The entry that says what the files are.
pub open spec fn mode_entry(mode: ModeView) -> (Seq<u8>, BValue) {
    match mode {
        ModeView::Single { length } => ("length".spec_bytes(), length_value(length)),
        ModeView::Multi { files } => (
            "files".spec_bytes(),
            BValue::List(files.map_values(|f: FileView| file_value(f))),
        ),
    }
}

/// The entries of an info dictionary.
pub open spec fn info_entries(info: InfoView) -> Seq<(Seq<u8>, BValue)> {
    seq![
        mode_entry(info.mode),
        ("name".spec_bytes(), text_value(info.name)),
        ("piece length".spec_bytes(), length_value(info.piece_length)),
        ("pieces".spec_bytes(), BValue::Bytes(joined(info.pieces))),
    ]
}

/// An info dictionary as a value.
pub open spec fn info_value(info: InfoView) -> BValue {
    BValue::Dict(info_entries(info))
}

/// Tiers of trackers as a value.
pub open spec fn tiers_value(tiers: Seq<Seq<Seq<char>>>) -> BValue {
    BValue::List(tiers.map_values(|tier: Seq<Seq<char>>| texts_value(tier)))
}

/// The entries of the metainfo.
pub open spec fn meta_entries(meta: MetaView) -> Seq<(Seq<u8>, BValue)> {
    match meta.announce_list {
        Some(tiers) => seq![
            ("announce".spec_bytes(), text_value(meta.announce)),
            ("announce-list".spec_bytes(), tiers_value(tiers)),
            ("info".spec_bytes(), info_value(meta.info)),
        ],
        None => seq![
            ("announce".spec_bytes(), text_value(meta.announce)),
            ("info".spec_bytes(), info_value(meta.info)),
        ],
    }
}

/// Metainfo as a value.
pub open spec fn meta_value(meta: MetaView) -> BValue {
    BValue::Dict(meta_entries(meta))
}

/// The keys of the metainfo in their order.
proof fn lemma_key_order()
    ensures
        bytes_before("length".spec_bytes(), "path".spec_bytes()),
        bytes_before("length".spec_bytes(), "name".spec_bytes()),
        bytes_before("files".spec_bytes(), "name".spec_bytes()),
        bytes_before("files".spec_bytes(), "length".spec_bytes()),
        bytes_before("name".spec_bytes(), "piece length".spec_bytes()),
        bytes_before("piece length".spec_bytes(), "pieces".spec_bytes()),
        bytes_before("announce".spec_bytes(), "announce-list".spec_bytes()),
        bytes_before("announce-list".spec_bytes(), "info".spec_bytes()),
        bytes_before("announce".spec_bytes(), "info".spec_bytes()),
{
    reveal_strlit("length");
    reveal_strlit("path");
    reveal_strlit("name");
    reveal_strlit("files");
    reveal_strlit("piece length");
    reveal_strlit("pieces");
    reveal_strlit("announce");
    reveal_strlit("announce-list");
    reveal_strlit("info");
    is_ascii_spec_bytes("length");
    is_ascii_spec_bytes("path");
    is_ascii_spec_bytes("name");
    is_ascii_spec_bytes("files");
    is_ascii_spec_bytes("piece length");
    is_ascii_spec_bytes("pieces");
    is_ascii_spec_bytes("announce");
    is_ascii_spec_bytes("announce-list");
    is_ascii_spec_bytes("info");
    first_difference_decides("length".spec_bytes(), "path".spec_bytes(), 0);
    first_difference_decides("length".spec_bytes(), "name".spec_bytes(), 0);
    first_difference_decides("files".spec_bytes(), "name".spec_bytes(), 0);
    first_difference_decides("files".spec_bytes(), "length".spec_bytes(), 0);
    first_difference_decides("name".spec_bytes(), "piece length".spec_bytes(), 0);
    first_difference_decides("piece length".spec_bytes(), "pieces".spec_bytes(), 5);
    beginning_comes_first("announce".spec_bytes(), "announce-list".spec_bytes());
    first_difference_decides("announce-list".spec_bytes(), "info".spec_bytes(), 0);
    first_difference_decides("announce".spec_bytes(), "info".spec_bytes(), 0);
}

fn text_bencode(text: &str) -> (r: Bencode)
    ensures
        r@ == text_value(text@),
{
    Bencode::ByteString(slice_to_vec(text.as_bytes()))
}

fn texts_bencode(items: &Vec<String>) -> (r: Bencode)
    ensures
        r@ == texts_value(texts(items@)),
{
    let mut list: Vec<Bencode> = Vec::new();
    let mut i: usize = 0;
    while i < items.len()
        invariant
            i <= items@.len(),
            list@.len() == i,
            forall|k: int| 0 <= k < i ==> (#[trigger] list@[k])@ == text_value(items@[k]@),
        decreases items@.len() - i,
    {
        list.push(text_bencode(items[i].as_str()));
        i += 1;
    }
    let r = Bencode::List(list);
    assert(r@->List_0 =~= texts_value(texts(items@))->List_0);
    r
}

impl TorrentFile {
    /// The file as a bencoded value.
    pub fn to_bencode(&self) -> (r: Bencode)
        ensures
            r@ == file_value(self@),
    {
        let mut dict = Dict::new();
        dict.insert(slice_to_vec("length".as_bytes()), Bencode::Int(signed_length(self.length)));
        let path = texts_bencode(&self.path);
        proof {
            lemma_key_order();
            lemma_put_last(seq![], "length".spec_bytes(), length_value(self.length), 0);
            lemma_put_last(dict@, "path".spec_bytes(), path@, 0);
        }
        dict.insert(slice_to_vec("path".as_bytes()), path);
        assert(dict@ =~= file_value(self@)->Dict_0);
        Bencode::Dict(dict)
    }
}

/// Lays the digests of the pieces one after the other.
fn join_pieces(pieces: &Vec<[u8; 20]>) -> (r: Vec<u8>)
    ensures
        r@ == joined(piece_views(pieces@)),
{
    let mut out: Vec<u8> = Vec::new();
    let ghost all = piece_views(pieces@);
    let mut i: usize = 0;
    assert(out@ =~= joined(all.take(0)));
    while i < pieces.len()
        invariant
            i <= pieces@.len(),
            all == piece_views(pieces@),
            out@ == joined(all.take(i as int)),
        decreases pieces@.len() - i,
    {
        assert(all.take(i + 1).drop_last() =~= all.take(i as int));
        out.extend_from_slice(pieces[i].as_slice());
        assert(out@ =~= joined(all.take(i + 1)));
        i += 1;
    }
    assert(all.take(i as int) =~= all);
    out
}

impl InfoDict {
    /// The info dictionary as a bencoded value.
    pub fn to_bencode(&self) -> (r: Bencode)
        ensures
            r@ == info_value(self@),
    {
        let mut dict = Dict::new();
        proof {
            lemma_key_order();
        }
        let ghost none = Seq::<(Seq<u8>, BValue)>::empty();
        match &self.mode {
            FileMode::Single { length } => {
                proof {
                    lemma_put_last(none, "length".spec_bytes(), length_value(*length), 0);
                }
                dict.insert(slice_to_vec("length".as_bytes()), Bencode::Int(signed_length(*length)));
            },
            FileMode::Multi { files } => {
                let mut list: Vec<Bencode> = Vec::new();
                let mut i: usize = 0;
                while i < files.len()
                    invariant
                        i <= files@.len(),
                        list@.len() == i,
                        forall|k: int| 0 <= k < i ==> (#[trigger] list@[k])@ == file_value(files@[k]@),
                    decreases files@.len() - i,
                {
                    list.push(files[i].to_bencode());
                    i += 1;
                }
                let value = Bencode::List(list);
                assert(value@->List_0 =~= mode_entry(self.mode@).1->List_0);
                proof {
                    lemma_put_last(none, "files".spec_bytes(), value@, 0);
                }
                dict.insert(slice_to_vec("files".as_bytes()), value);
            },
        }
        assert(dict@ =~= seq![mode_entry(self.mode@)]);
        let name = text_bencode(self.name.as_str());
        proof {
            lemma_put_last(dict@, "name".spec_bytes(), name@, 0);
        }
        dict.insert(slice_to_vec("name".as_bytes()), name);
        proof {
            bytes_before_transitive(dict@[0].0, "name".spec_bytes(), "piece length".spec_bytes());
            lemma_put_last(dict@, "piece length".spec_bytes(), length_value(self.piece_length), 0);
        }
        dict.insert(slice_to_vec("piece length".as_bytes()), Bencode::Int(signed_length(self.piece_length)));
        let pieces = Bencode::ByteString(join_pieces(&self.pieces));
        proof {
            bytes_before_transitive(dict@[0].0, "piece length".spec_bytes(), "pieces".spec_bytes());
            bytes_before_transitive("name".spec_bytes(), "piece length".spec_bytes(), "pieces".spec_bytes());
            lemma_put_last(dict@, "pieces".spec_bytes(), pieces@, 0);
        }
        dict.insert(slice_to_vec("pieces".as_bytes()), pieces);
        assert(dict@ =~= info_entries(self@));
        Bencode::Dict(dict)
    }
}

impl TorrentMeta {
    /// Writes the metainfo as a `.torrent` file.
    pub fn into_bytes(self) -> (r: Vec<u8>)
        ensures
            r@ == encoding(meta_value(self@)),
    {
        let ghost none = Seq::<(Seq<u8>, BValue)>::empty();
        let mut dict = Dict::new();
        proof {
            lemma_key_order();
        }
        let announce = text_bencode(self.announce.as_str());
        proof {
            lemma_put_last(none, "announce".spec_bytes(), announce@, 0);
        }
        dict.insert(slice_to_vec("announce".as_bytes()), announce);
        if let Some(tiers) = &self.announce_list {
            let mut list: Vec<Bencode> = Vec::new();
            let mut i: usize = 0;
            while i < tiers.len()
                invariant
                    i <= tiers@.len(),
                    list@.len() == i,
                    forall|k: int| 0 <= k < i ==> (#[trigger] list@[k])@ == texts_value(texts(tiers@[k]@)),
                decreases tiers@.len() - i,
            {
                list.push(texts_bencode(&tiers[i]));
                i += 1;
            }
            let value = Bencode::List(list);
            assert(value@->List_0 =~= tiers_value(tier_views(tiers@))->List_0);
            proof {
                lemma_put_last(dict@, "announce-list".spec_bytes(), value@, 0);
            }
            dict.insert(slice_to_vec("announce-list".as_bytes()), value);
        }
        let info = self.info.to_bencode();
        proof {
            lemma_put_last(dict@, "info".spec_bytes(), info@, 0);
        }
        dict.insert(slice_to_vec("info".as_bytes()), info);
        assert(dict@ =~= meta_entries(self@));
        let value = Bencode::Dict(dict);
        value.encode()
    }
}

/// A text comes back from its UTF-8 encoding.
proof fn lemma_shown(text: Seq<char>)
    ensures
        shown_text(encode_utf8(text)) == text,
{
    encode_utf8_valid_utf8(text);
    encode_utf8_decode_utf8(text);
}

proof fn lemma_length(n: u64)
    ensures
        length_of(integer_for(n)) == n,
{
}

/// A length as a signed number.
fn signed_length(n: u64) -> (r: i64)
    ensures
        r == integer_for(n),
{
    assert(n <= 0x7fff_ffff_ffff_ffff || n as i64 == n - 0x1_0000_0000_0000_0000) by (bit_vector);
    n as i64
}

proof fn lemma_texts(items: Seq<Seq<char>>)
    ensures
        well_formed(texts_value(items)),
        strings_of(texts_value(items)->List_0) == items,
        path_of(texts_value(items)->List_0) == Ok::<Seq<Seq<char>>, MetaFailure>(items),
    decreases items.len(),
{
    let values = texts_value(items)->List_0;
    assert(values =~= items.map_values(|t: Seq<char>| text_value(t)));
    assert forall|i: int| 0 <= i < values.len() implies well_formed(#[trigger] values[i]) by {
        assert(values[i] == text_value(items[i]));
    }
    if items.len() == 0 {
        assert(items =~= Seq::<Seq<char>>::empty());
    } else {
        lemma_texts(items.drop_last());
        assert(values.drop_last() =~= texts_value(items.drop_last())->List_0);
        assert(values.last() == text_value(items.last()));
        lemma_shown(items.last());
        assert(items.drop_last().push(items.last()) =~= items);
    }
}

proof fn lemma_tiers(tiers: Seq<Seq<Seq<char>>>)
    requires
        forall|i: int| 0 <= i < tiers.len() ==> (#[trigger] tiers[i]).len() > 0,
    ensures
        well_formed(tiers_value(tiers)),
        tiers_of(tiers_value(tiers)->List_0) == tiers,
    decreases tiers.len(),
{
    let values = tiers_value(tiers)->List_0;
    assert(values =~= tiers.map_values(|tier: Seq<Seq<char>>| texts_value(tier)));
    assert forall|i: int| 0 <= i < values.len() implies well_formed(#[trigger] values[i]) by {
        lemma_texts(tiers[i]);
    }
    if tiers.len() == 0 {
        assert(tiers =~= Seq::<Seq<Seq<char>>>::empty());
    } else {
        lemma_tiers(tiers.drop_last());
        assert(values.drop_last() =~= tiers_value(tiers.drop_last())->List_0);
        assert(values.last() == texts_value(tiers.last()));
        lemma_texts(tiers.last());
        assert(tiers.last() == tiers[tiers.len() - 1]);
        assert(tiers.drop_last().push(tiers.last()) =~= tiers);
    }
}

proof fn lemma_file(file: FileView)
    ensures
        well_formed(file_value(file)),
        file_of(file_value(file)) == Ok::<FileView, MetaFailure>(file),
{
    lemma_key_order();
    let dict = file_value(file)->Dict_0;
    let length = "length".spec_bytes();
    let path = "path".spec_bytes();
    bytes_before_asymmetric(length, path);
    lemma_lookup_at(dict, length, 0);
    lemma_lookup_at(dict, path, 1);
    lemma_length(file.length);
    lemma_texts(file.path);
    assert forall|i: int| 0 <= i < dict.len() implies well_formed((#[trigger] dict[i]).1) by {
        assert(well_formed(dict[0].1) && well_formed(dict[1].1));
    }
}

proof fn lemma_files(files: Seq<FileView>)
    ensures
        ({
            let values = files.map_values(|f: FileView| file_value(f));
            &&& well_formed(BValue::List(values))
            &&& files_of(values) == Ok::<Seq<FileView>, MetaFailure>(files)
        }),
    decreases files.len(),
{
    let values = files.map_values(|f: FileView| file_value(f));
    assert forall|i: int| 0 <= i < values.len() implies well_formed(#[trigger] values[i]) by {
        lemma_file(files[i]);
    }
    if files.len() == 0 {
        assert(files =~= Seq::<FileView>::empty());
    } else {
        lemma_files(files.drop_last());
        assert(values.drop_last() =~= files.drop_last().map_values(|f: FileView| file_value(f)));
        assert(values.last() == file_value(files.last()));
        lemma_file(files.last());
        assert(files.drop_last().push(files.last()) =~= files);
    }
}

/// Digests that were joined come apart again.
proof fn lemma_joined(parts: Seq<Seq<u8>>)
    requires
        forall|i: int| 0 <= i < parts.len() ==> (#[trigger] parts[i]).len() == 20,
    ensures
        joined(parts).len() == 20 * parts.len(),
        digests_of(joined(parts)) == parts,
    decreases parts.len(),
{
    if parts.len() == 0 {
        assert(digests_of(joined(parts)) =~= parts);
    } else {
        let front = parts.drop_last();
        lemma_joined(front);
        assert(parts.last() == parts[parts.len() - 1]);
        let all = joined(parts);
        assert forall|i: int| 0 <= i < parts.len() implies digests_of(all)[i] == parts[i] by {
            if i < front.len() {
                assert(digests_of(joined(front))[i] == front[i]);
                assert(all.subrange(20 * i, 20 * i + 20) =~= joined(front).subrange(20 * i, 20 * i + 20));
            } else {
                assert(all.subrange(20 * i, 20 * i + 20) =~= parts.last());
            }
        }
        assert(digests_of(all) =~= parts);
    }
}

/// What an info dictionary says is read back from the value that it is written as.
pub proof fn info_reads_back(info: InfoView)
    requires
        forall|i: int| 0 <= i < info.pieces.len() ==> (#[trigger] info.pieces[i]).len() == 20,
    ensures
        well_formed(info_value(info)),
        info_of(info_entries(info)) == Ok::<InfoView, MetaFailure>(info),
{
    lemma_key_order();
    let e = info_entries(info);
    let mode = mode_entry(info.mode).0;
    let name = "name".spec_bytes();
    let piece_length = "piece length".spec_bytes();
    let pieces = "pieces".spec_bytes();
    let length = "length".spec_bytes();
    let files = "files".spec_bytes();
    bytes_before_transitive(mode, name, piece_length);
    bytes_before_transitive(mode, piece_length, pieces);
    bytes_before_transitive(name, piece_length, pieces);
    bytes_before_transitive(length, name, piece_length);
    bytes_before_transitive(length, piece_length, pieces);
    bytes_before_asymmetric(mode, name);
    bytes_before_asymmetric(mode, piece_length);
    bytes_before_asymmetric(mode, pieces);
    bytes_before_asymmetric(name, piece_length);
    bytes_before_asymmetric(name, pieces);
    bytes_before_asymmetric(piece_length, pieces);
    bytes_before_asymmetric(files, length);
    bytes_before_asymmetric(length, name);
    bytes_before_asymmetric(length, piece_length);
    bytes_before_asymmetric(length, pieces);
    lemma_lookup_at(e, mode, 0);
    lemma_lookup_at(e, name, 1);
    lemma_lookup_at(e, piece_length, 2);
    lemma_lookup_at(e, pieces, 3);
    lemma_shown(info.name);
    lemma_length(info.piece_length);
    lemma_joined(info.pieces);
    match info.mode {
        ModeView::Single { length: n } => {
            lemma_length(n);
        },
        ModeView::Multi { files: list } => {
            lemma_files(list);
            lemma_lookup_none(e, length);
        },
    }
    assert(sorted_by_key(e));
    assert forall|i: int| 0 <= i < e.len() implies well_formed((#[trigger] e[i]).1) by {
        assert(well_formed(e[0].1) && well_formed(e[1].1) && well_formed(e[2].1) && well_formed(e[3].1));
    }
}

/// Whether metainfo is what can be written to a file and read back: digests of
/// twenty bytes, a hash that is that of the info dictionary, and no empty tier
/// or empty list of tiers.
pub open spec fn coherent(meta: MetaView) -> bool {
    &&& forall|i: int| 0 <= i < meta.info.pieces.len() ==> (#[trigger] meta.info.pieces[i]).len() == 20
    &&& meta.info_hash == sha1_digest(encoding(info_value(meta.info)))
    &&& meta.announce_list matches Some(tiers) ==> {
        &&& tiers.len() > 0
        &&& forall|i: int| 0 <= i < tiers.len() ==> (#[trigger] tiers[i]).len() > 0
    }
}

/// Where the info dictionary stands among the entries of the metainfo.
spec fn info_index(meta: MetaView) -> int {
    if meta.announce_list is Some {
        2
    } else {
        1
    }
}

/// What the entries of the metainfo say.
proof fn lemma_meta_entries(meta: MetaView)
    requires
        coherent(meta),
    ensures
        ({
            let e = meta_entries(meta);
            &&& sorted_by_key(e)
            &&& well_formed(meta_value(meta))
            &&& text_field(e, "announce") == Ok::<Seq<char>, MetaFailure>(meta.announce)
            &&& lookup(e, "info".spec_bytes()) == Some(info_value(meta.info))
            &&& announce_list_of(e) == meta.announce_list
        }),
{
    lemma_key_order();
    let e = meta_entries(meta);
    let at = info_index(meta);
    let announce = "announce".spec_bytes();
    let announce_list = "announce-list".spec_bytes();
    let info = "info".spec_bytes();
    bytes_before_asymmetric(announce, announce_list);
    bytes_before_asymmetric(announce, info);
    bytes_before_asymmetric(announce_list, info);
    info_reads_back(meta.info);
    lemma_shown(meta.announce);
    lemma_lookup_at(e, announce, 0);
    match meta.announce_list {
        Some(tiers) => {
            lemma_tiers(tiers);
            lemma_lookup_at(e, announce_list, 1);
        },
        None => {
            lemma_lookup_none(e, announce_list);
        },
    }
    lemma_lookup_at(e, info, at);
    assert(sorted_by_key(e));
    assert forall|i: int| 0 <= i < e.len() implies well_formed((#[trigger] e[i]).1) by {
        assert(well_formed(e[0].1) && well_formed(e[1].1) && well_formed(e[at].1));
    }
    assert(well_formed(meta_value(meta)));
}

/// Metainfo is read back from the file that it was written to.
pub proof fn metainfo_reads_back(meta: MetaView)
    requires
        coherent(meta),
        encoding(meta_value(meta)).len() <= usize::MAX,
    ensures
        parse_value(encoding(meta_value(meta)), 0) is Done,
        meta_of(encoding(meta_value(meta))) == Ok::<MetaView, MetaFailure>(meta),
{
    let none = Seq::<u8>::empty();
    let bytes = encoding(meta_value(meta));
    assert(bytes + none =~= bytes);
    lemma_meta_entries(meta);
    info_reads_back(meta.info);
    decode_undoes_encode(meta_value(meta), none);
    info_slice_is_info_encoding(meta_entries(meta), info_index(meta), none);
}

/// The info dictionary that is written holds four entries and nothing else: the length
/// or the files, the name, the length of the pieces, and their digests one behind the
/// other.
pub proof fn what_an_info_dictionary_is_written_with(info: InfoView)
    ensures
        info_value(info) matches BValue::Dict(e) && {
            &&& e.len() == 4
            &&& e[1] == ("name".spec_bytes(), BValue::Bytes(encode_utf8(info.name)))
            &&& e[2].0 == "piece length".spec_bytes()
            &&& info.piece_length <= i64::MAX ==> e[2].1 == BValue::Int(info.piece_length as i64)
            &&& e[3] == ("pieces".spec_bytes(), BValue::Bytes(joined(info.pieces)))
            &&& info.mode matches ModeView::Single { length } ==> e[0].0 == "length".spec_bytes() && (length <= i64::MAX
                ==> e[0].1 == BValue::Int(length as i64))
            &&& info.mode matches ModeView::Multi { files } ==> e[0].0 == "files".spec_bytes() && (
            e[0].1 matches BValue::List(items) && items.len() == files.len() && forall|i: int|
                0 <= i < items.len() ==> #[trigger] items[i] == file_value(files[i]))
        },
{
}

/// The digests stand one behind the other.
pub proof fn joined_parts_stand_one_behind_the_other(parts: Seq<Seq<u8>>, part: Seq<u8>)
    ensures
        joined(seq![]) == Seq::<u8>::empty(),
        joined(parts.push(part)) == joined(parts) + part,
{
    assert(parts.push(part).drop_last() =~= parts);
}

/// A file that is written holds its length and every part of its path.
pub proof fn what_a_file_is_written_with(file: FileView)
    ensures
        file_value(file) matches BValue::Dict(e) && {
            &&& e.len() == 2
            &&& e[0].0 == "length".spec_bytes()
            &&& file.length <= i64::MAX ==> e[0].1 == BValue::Int(file.length as i64)
            &&& e[1].0 == "path".spec_bytes()
            &&& e[1].1 matches BValue::List(parts) && parts.len() == file.path.len() && forall|k: int|
                0 <= k < parts.len() ==> #[trigger] parts[k] == BValue::Bytes(encode_utf8(file.path[k]))
        },
{
}

/// The metainfo that is written holds the main tracker, the tiers where there are any,
/// and the info dictionary, in this order and nothing else.
pub proof fn what_metainfo_is_written_with(meta: MetaView)
    ensures
        meta_value(meta) matches BValue::Dict(e) && {
            &&& e[0] == ("announce".spec_bytes(), BValue::Bytes(encode_utf8(meta.announce)))
            &&& e.last() == ("info".spec_bytes(), info_value(meta.info))
            &&& meta.announce_list is None ==> e.len() == 2
            &&& meta.announce_list matches Some(tiers) ==> e.len() == 3 && e[1].0 == "announce-list".spec_bytes() && (
            e[1].1 matches BValue::List(items) && items.len() == tiers.len() && forall|i: int|
                0 <= i < items.len() ==> (#[trigger] items[i] matches BValue::List(urls) && urls.len() == tiers[i].len()
                    && forall|k: int|
                    0 <= k < urls.len() ==> #[trigger] urls[k] == BValue::Bytes(encode_utf8(tiers[i][k]))))
        },
{
}

} // verus!
