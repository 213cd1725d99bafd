//! Torrent metainfo: what a `.torrent` file says.
use vstd::prelude::*;
use vstd::string::*;
use crate::bencode::{
    decode_failure_text, decode_faults, find_info_dict_slice, info_place, lookup, parse_value, items_view,
    BValue, Bencode, BencodeError, DecodeFailure, Dict, InfoPlace, Step,
};
use crate::bencode_laws::info_place_is_defined;
use crate::config::texts;
use crate::digest::{sha1, sha1_digest};
use crate::ids::InfoHash;
use crate::text::{append_decimal, decimal_text, shown_text, string_from_utf8_lossy};
use crate::wire::read_20;

verus! {

/// Why bytes are not the metainfo of a torrent.
#[derive(Debug, Clone, PartialEq, Eq)]
pub enum MetaError {
    BencodeError(BencodeError),
    MissingField(String),
    InvalidType(String),
    MissingInfoSlice,
    InvalidPiecesLength(usize),
}

/// What a `MetaError` says.
pub enum MetaFailure {
    BencodeError(DecodeFailure),
    MissingField(Seq<char>),
    InvalidType(Seq<char>),
    MissingInfoSlice,
    InvalidPiecesLength(int),
}

/// The metainfo of a torrent.
#[derive(Debug, Clone, PartialEq, Eq)]
pub struct TorrentMeta {
    pub announce: String,
    pub announce_list: Option<Vec<Vec<String>>>,
    pub info: InfoDict,
    pub info_hash: InfoHash,
}

/// The part of the metainfo that identifies a torrent.
#[derive(Debug, Clone, PartialEq, Eq)]
pub struct InfoDict {
    pub name: String,
    pub piece_length: u64,
    pub pieces: Vec<[u8; 20]>,
    pub mode: FileMode,
}

/// Whether a torrent is a file or a directory.
#[derive(Debug, Clone, PartialEq, Eq)]
pub enum FileMode {
    Single { length: u64 },
    Multi { files: Vec<TorrentFile> },
}

/// A file of a torrent that is a directory.
#[derive(Debug, Clone, PartialEq, Eq)]
pub struct TorrentFile {
    pub length: u64,
    pub path: Vec<String>,
}

/// What a `TorrentFile` says.
pub struct FileView {
    pub length: u64,
    pub path: Seq<Seq<char>>,
}

/// What a `FileMode` says.
pub enum ModeView {
    Single { length: u64 },
    Multi { files: Seq<FileView> },
}

/// What an `InfoDict` says.
pub struct InfoView {
    pub name: Seq<char>,
    pub piece_length: u64,
    pub pieces: Seq<Seq<u8>>,
    pub mode: ModeView,
}

/// What a `TorrentMeta` says.
pub struct MetaView {
    pub announce: Seq<char>,
    pub announce_list: Option<Seq<Seq<Seq<char>>>>,
    pub info: InfoView,
    pub info_hash: Seq<u8>,
}

impl TorrentFile {
    pub open spec fn view(&self) -> FileView {
        FileView { length: self.length, path: texts(self.path@) }
    }
}

/// What some files say.
pub open spec fn file_views(files: Seq<TorrentFile>) -> Seq<FileView> {
    files.map_values(|f: TorrentFile| f@)
}

/// The digests of some pieces.
pub open spec fn piece_views(pieces: Seq<[u8; 20]>) -> Seq<Seq<u8>> {
    pieces.map_values(|p: [u8; 20]| p@)
}

/// The texts of a list of lists of strings.
pub open spec fn tier_views(tiers: Seq<Vec<String>>) -> Seq<Seq<Seq<char>>> {
    tiers.map_values(|tier: Vec<String>| texts(tier@))
}

impl FileMode {
    pub open spec fn view(&self) -> ModeView {
        match self {
            FileMode::Single { length } => ModeView::Single { length: *length },
            FileMode::Multi { files } => ModeView::Multi { files: file_views(files@) },
        }
    }
}

impl InfoDict {
    pub open spec fn view(&self) -> InfoView {
        InfoView {
            name: self.name@,
            piece_length: self.piece_length,
            pieces: piece_views(self.pieces@),
            mode: self.mode@,
        }
    }
}

impl TorrentMeta {
    pub open spec fn view(&self) -> MetaView {
        MetaView {
            announce: self.announce@,
            announce_list: match self.announce_list {
                Some(tiers) => Some(tier_views(tiers@)),
                None => None,
            },
            info: self.info@,
            info_hash: self.info_hash.0@,
        }
    }
}

impl MetaError {
    pub open spec fn view(&self) -> MetaFailure {
        match self {
            MetaError::BencodeError(e) => MetaFailure::BencodeError(e@),
            MetaError::MissingField(field) => MetaFailure::MissingField(field@),
            MetaError::InvalidType(field) => MetaFailure::InvalidType(field@),
            MetaError::MissingInfoSlice => MetaFailure::MissingInfoSlice,
            MetaError::InvalidPiecesLength(n) => MetaFailure::InvalidPiecesLength(*n as int),
        }
    }

    /// The error in words.
    pub fn message(&self) -> (r: String)
        ensures
            r@ == meta_failure_text(self@),
    {
        match self {
            MetaError::BencodeError(e) => {
                let mut text = String::from_str("Bencode decoding error: ");
                let inner = e.message();
                text.append(inner.as_str());
                text
            },
            MetaError::MissingField(field) => {
                let mut text = String::from_str("Missing dictionary field: '");
                text.append(field.as_str());
                text.append("'");
                text
            },
            MetaError::InvalidType(field) => {
                let mut text = String::from_str("Invalid field type for '");
                text.append(field.as_str());
                text.append("'");
                text
            },
            MetaError::MissingInfoSlice => String::from_str("Missing info dictionary slice in bencode"),
            MetaError::InvalidPiecesLength(n) => {
                let mut text = String::from_str(
                    "Invalid pieces field length: expected multiple of 20, got ",
                );
                append_decimal(&mut text, *n as u64);
                text
            },
        }
    }
}

/// A failure to read metainfo in words.
pub open spec fn meta_failure_text(failure: MetaFailure) -> Seq<char> {
    match failure {
        MetaFailure::BencodeError(e) => "Bencode decoding error: "@ + decode_failure_text(e),
        MetaFailure::MissingField(field) => "Missing dictionary field: '"@ + field + "'"@,
        MetaFailure::InvalidType(field) => "Invalid field type for '"@ + field + "'"@,
        MetaFailure::MissingInfoSlice => "Missing info dictionary slice in bencode"@,
        MetaFailure::InvalidPiecesLength(n) => "Invalid pieces field length: expected multiple of 20, got "@
            + decimal_text(n as nat),
    }
}

/// The byte string under a key.
pub open spec fn bytes_field(dict: Seq<(Seq<u8>, BValue)>, key: &str) -> Result<
    Seq<u8>,
    MetaFailure,
> {
    match lookup(dict, key.spec_bytes()) {
        Some(BValue::Bytes(b)) => Ok(b),
        Some(_) => Err(MetaFailure::InvalidType(key@)),
        None => Err(MetaFailure::MissingField(key@)),
    }
}

/// The text under a key.
pub open spec fn text_field(dict: Seq<(Seq<u8>, BValue)>, key: &str) -> Result<
    Seq<char>,
    MetaFailure,
> {
    match bytes_field(dict, key) {
        Ok(b) => Ok(shown_text(b)),
        Err(e) => Err(e),
    }
}

/// The integer under a key.
pub open spec fn int_field(dict: Seq<(Seq<u8>, BValue)>, key: &str) -> Result<i64, MetaFailure> {
    match lookup(dict, key.spec_bytes()) {
        Some(BValue::Int(i)) => Ok(i),
        Some(_) => Err(MetaFailure::InvalidType(key@)),
        None => Err(MetaFailure::MissingField(key@)),
    }
}

/// The length under a key; a negative number counts down from the largest `u64`.
pub open spec fn length_field(dict: Seq<(Seq<u8>, BValue)>, key: &str) -> Result<u64, MetaFailure> {
    match int_field(dict, key) {
        Ok(i) => Ok(length_of(i)),
        Err(e) => Err(e),
    }
}

/// The length that an integer stands for.
pub open spec fn length_of(i: i64) -> u64 {
    if i >= 0 {
        i as u64
    } else {
        (i + 0x1_0000_0000_0000_0000) as u64
    }
}

/// The texts among some values; the others are passed over.
pub open spec fn strings_of(items: Seq<BValue>) -> Seq<Seq<char>>
    decreases items.len(),
{
    if items.len() == 0 {
        seq![]
    } else {
        match items.last() {
            BValue::Bytes(b) => strings_of(items.drop_last()).push(shown_text(b)),
            _ => strings_of(items.drop_last()),
        }
    }
}

/// The lists of texts among some values; those without a text are passed over.
pub open spec fn tiers_of(items: Seq<BValue>) -> Seq<Seq<Seq<char>>>
    decreases items.len(),
{
    if items.len() == 0 {
        seq![]
    } else {
        match items.last() {
            BValue::List(inner) => if strings_of(inner).len() > 0 {
                tiers_of(items.drop_last()).push(strings_of(inner))
            } else {
                tiers_of(items.drop_last())
            },
            _ => tiers_of(items.drop_last()),
        }
    }
}

/// The tiers of trackers, where there are any.
pub open spec fn announce_list_of(dict: Seq<(Seq<u8>, BValue)>) -> Option<Seq<Seq<Seq<char>>>> {
    match lookup(dict, "announce-list".spec_bytes()) {
        Some(BValue::List(items)) => if tiers_of(items).len() > 0 {
            Some(tiers_of(items))
        } else {
            None
        },
        _ => None,
    }
}

/// The segments of a path; each must be a byte string.
pub open spec fn path_of(items: Seq<BValue>) -> Result<Seq<Seq<char>>, MetaFailure>
    decreases items.len(),
{
    if items.len() == 0 {
        Ok(seq![])
    } else {
        match path_of(items.drop_last()) {
            Ok(path) => match items.last() {
                BValue::Bytes(b) => Ok(path.push(shown_text(b))),
                _ => Err(MetaFailure::InvalidType("path segment"@)),
            },
            Err(e) => Err(e),
        }
    }
}

/// The file that a dictionary describes.
pub open spec fn file_of(value: BValue) -> Result<FileView, MetaFailure> {
    match value {
        BValue::Dict(dict) => match length_field(dict, "length") {
            Ok(length) => match lookup(dict, "path".spec_bytes()) {
                Some(BValue::List(items)) => match path_of(items) {
                    Ok(path) => Ok(FileView { length, path }),
                    Err(e) => Err(e),
                },
                Some(_) => Err(MetaFailure::InvalidType("path"@)),
                None => Err(MetaFailure::MissingField("path"@)),
            },
            Err(e) => Err(e),
        },
        _ => Err(MetaFailure::InvalidType("file item"@)),
    }
}

/// The files that a list describes; the first that is amiss decides.
pub open spec fn files_of(items: Seq<BValue>) -> Result<Seq<FileView>, MetaFailure>
    decreases items.len(),
{
    if items.len() == 0 {
        Ok(seq![])
    } else {
        match files_of(items.drop_last()) {
            Ok(files) => match file_of(items.last()) {
                Ok(file) => Ok(files.push(file)),
                Err(e) => Err(e),
            },
            Err(e) => Err(e),
        }
    }
}

/// Whether the torrent is a file, which has a length, or else a list of files.
pub open spec fn mode_of(info: Seq<(Seq<u8>, BValue)>) -> Result<ModeView, MetaFailure> {
    if lookup(info, "length".spec_bytes()) is Some {
        match length_field(info, "length") {
            Ok(length) => Ok(ModeView::Single { length }),
            Err(e) => Err(e),
        }
    } else {
        match lookup(info, "files".spec_bytes()) {
            Some(BValue::List(items)) => match files_of(items) {
                Ok(files) => Ok(ModeView::Multi { files }),
                Err(e) => Err(e),
            },
            Some(_) => Err(MetaFailure::InvalidType("files"@)),
            None => Err(MetaFailure::MissingField("length or files"@)),
        }
    }
}

/// A byte string in parts of twenty bytes.
pub open spec fn digests_of(bytes: Seq<u8>) -> Seq<Seq<u8>> {
    Seq::new(bytes.len() / 20, |i: int| bytes.subrange(20 * i, 20 * i + 20))
}

/// What an info dictionary says.
pub open spec fn info_of(info: Seq<(Seq<u8>, BValue)>) -> Result<InfoView, MetaFailure> {
    match text_field(info, "name") {
        Ok(name) => match length_field(info, "piece length") {
            Ok(piece_length) => match bytes_field(info, "pieces") {
                Ok(bytes) => if bytes.len() % 20 != 0 {
                    Err(MetaFailure::InvalidPiecesLength(bytes.len() as int))
                } else {
                    match mode_of(info) {
                        Ok(mode) => Ok(
                            InfoView { name, piece_length, pieces: digests_of(bytes), mode },
                        ),
                        Err(e) => Err(e),
                    }
                },
                Err(e) => Err(e),
            },
            Err(e) => Err(e),
        },
        Err(e) => Err(e),
    }
}

/// What the dictionary at the root of `bytes` says.
pub open spec fn root_of(bytes: Seq<u8>, dict: Seq<(Seq<u8>, BValue)>) -> Result<
    MetaView,
    MetaFailure,
> {
    match text_field(dict, "announce") {
        Ok(announce) => match lookup(dict, "info".spec_bytes()) {
            Some(BValue::Dict(info)) => match info_of(info) {
                Ok(info) => match info_place(bytes) {
                    InfoPlace::Found(start, end) => Ok(
                        MetaView {
                            announce,
                            announce_list: announce_list_of(dict),
                            info,
                            info_hash: sha1_digest(bytes.subrange(start, end)),
                        },
                    ),
                    _ => Err(MetaFailure::MissingInfoSlice),
                },
                Err(e) => Err(e),
            },
            Some(_) => Err(MetaFailure::InvalidType("info"@)),
            None => Err(MetaFailure::MissingField("info"@)),
        },
        Err(e) => Err(e),
    }
}

/// The metainfo that `bytes` hold.
pub open spec fn meta_of(bytes: Seq<u8>) -> Result<MetaView, MetaFailure> {
    match parse_value(bytes, 0) {
        Step::Done(BValue::Dict(dict), _) => root_of(bytes, dict),
        Step::Done(_, _) => Err(MetaFailure::InvalidType("root"@)),
        Step::Failed(failure) => Err(MetaFailure::BencodeError(failure)),
        Step::Fault => Err(MetaFailure::BencodeError(DecodeFailure::UnexpectedEOF)),
    }
}

/// Whether a result of reading metainfo is what was meant.
pub open spec fn is_meta(r: Result<TorrentMeta, MetaError>, meant: Result<MetaView, MetaFailure>) -> bool {
    match meant {
        Ok(meta) => r matches Ok(m) && m@ == meta,
        Err(failure) => r matches Err(e) && e@ == failure,
    }
}

fn get_bytes<'a>(dict: &'a Dict, key: &str) -> (r: Result<&'a Vec<u8>, MetaError>)
    ensures
        match bytes_field(dict@, key) {
            Ok(b) => r matches Ok(got) && got@ == b,
            Err(failure) => r matches Err(e) && e@ == failure,
        },
{
    match dict.get(key.as_bytes()) {
        Some(Bencode::ByteString(s)) => Ok(s),
        Some(_) => Err(MetaError::InvalidType(String::from_str(key))),
        None => Err(MetaError::MissingField(String::from_str(key))),
    }
}

fn get_string(dict: &Dict, key: &str) -> (r: Result<String, MetaError>)
    ensures
        match text_field(dict@, key) {
            Ok(text) => r matches Ok(got) && got@ == text,
            Err(failure) => r matches Err(e) && e@ == failure,
        },
{
    match get_bytes(dict, key) {
        Ok(b) => Ok(string_from_utf8_lossy(b.as_slice())),
        Err(e) => Err(e),
    }
}

fn get_int(dict: &Dict, key: &str) -> (r: Result<i64, MetaError>)
    ensures
        match int_field(dict@, key) {
            Ok(i) => r matches Ok(got) && got == i,
            Err(failure) => r matches Err(e) && e@ == failure,
        },
{
    match dict.get(key.as_bytes()) {
        Some(Bencode::Int(i)) => Ok(*i),
        Some(_) => Err(MetaError::InvalidType(String::from_str(key))),
        None => Err(MetaError::MissingField(String::from_str(key))),
    }
}

fn get_length(dict: &Dict, key: &str) -> (r: Result<u64, MetaError>)
    ensures
        match length_field(dict@, key) {
            Ok(n) => r matches Ok(got) && got == n,
            Err(failure) => r matches Err(e) && e@ == failure,
        },
{
    match get_int(dict, key) {
        Ok(i) => {
            assert(i >= 0 || i as u64 == i + 0x1_0000_0000_0000_0000) by (bit_vector);
            Ok(i as u64)
        },
        Err(e) => Err(e),
    }
}

/// The strings among the items of a list.
fn get_strings(items: &Vec<Bencode>) -> (r: Vec<String>)
    ensures
        texts(r@) == strings_of(items_view(items@)),
{
    let mut result: Vec<String> = Vec::new();
    let ghost all = items_view(items@);
    let mut i: usize = 0;
    assert(texts(result@) =~= strings_of(all.take(0)));
    while i < items.len()
        invariant
            i <= items@.len(),
            all == items_view(items@),
            texts(result@) == strings_of(all.take(i as int)),
        decreases items@.len() - i,
    {
        assert(all.take(i + 1).drop_last() =~= all.take(i as int));
        assert(all.take(i + 1).last() == items@[i as int]@);
        let ghost before = texts(result@);
        if let Bencode::ByteString(b) = &items[i] {
            let text = string_from_utf8_lossy(b.as_slice());
            result.push(text);
            assert(texts(result@) =~= before.push(text@));
        }
        i += 1;
    }
    assert(all.take(i as int) =~= all);
    result
}

fn get_announce_list(dict: &Dict) -> (r: Option<Vec<Vec<String>>>)
    ensures
        match announce_list_of(dict@) {
            Some(tiers) => r matches Some(got) && tier_views(got@) == tiers,
            None => r is None,
        },
{
    let items = match dict.get("announce-list".as_bytes()) {
        Some(Bencode::List(items)) => items,
        _ => return None,
    };
    let ghost all = items_view(items@);
    assert(Bencode::List(*items)@->List_0 =~= all);
    let mut result: Vec<Vec<String>> = Vec::new();
    let mut i: usize = 0;
    assert(tier_views(result@) =~= tiers_of(all.take(0)));
    while i < items.len()
        invariant
            i <= items@.len(),
            all == items_view(items@),
            tier_views(result@) == tiers_of(all.take(i as int)),
        decreases items@.len() - i,
    {
        assert(all.take(i + 1).drop_last() =~= all.take(i as int));
        assert(all.take(i + 1).last() == items@[i as int]@);
        let ghost before = tier_views(result@);
        if let Bencode::List(inner) = &items[i] {
            assert(items@[i as int]@->List_0 =~= items_view(inner@));
            let tier = get_strings(inner);
            if tier.len() > 0 {
                result.push(tier);
                assert(tier_views(result@) =~= before.push(texts(tier@)));
            }
        }
        i += 1;
    }
    assert(all.take(i as int) =~= all);
    if result.len() == 0 {
        None
    } else {
        Some(result)
    }
}

/// A path with a bad segment in its beginning is bad as a whole.
proof fn lemma_path_error(items: Seq<BValue>, n: int)
    requires
        0 <= n <= items.len(),
        path_of(items.take(n)) is Err,
    ensures
        path_of(items) == path_of(items.take(n)),
    decreases items.len(),
{
    if n == items.len() {
        assert(items.take(n) =~= items);
    } else {
        assert(items.drop_last().take(n) =~= items.take(n));
        lemma_path_error(items.drop_last(), n);
    }
}

/// A list with a bad file in its beginning is bad as a whole.
proof fn lemma_files_error(items: Seq<BValue>, n: int)
    requires
        0 <= n <= items.len(),
        files_of(items.take(n)) is Err,
    ensures
        files_of(items) == files_of(items.take(n)),
    decreases items.len(),
{
    if n == items.len() {
        assert(items.take(n) =~= items);
    } else {
        assert(items.drop_last().take(n) =~= items.take(n));
        lemma_files_error(items.drop_last(), n);
    }
}

fn get_path(items: &Vec<Bencode>) -> (r: Result<Vec<String>, MetaError>)
    ensures
        match path_of(items_view(items@)) {
            Ok(path) => r matches Ok(got) && texts(got@) == path,
            Err(failure) => r matches Err(e) && e@ == failure,
        },
{
    let ghost all = items_view(items@);
    let mut path: Vec<String> = Vec::new();
    let mut i: usize = 0;
    assert(texts(path@) =~= Seq::<Seq<char>>::empty());
    while i < items.len()
        invariant
            i <= items@.len(),
            all == items_view(items@),
            path_of(all.take(i as int)) == Ok::<Seq<Seq<char>>, MetaFailure>(texts(path@)),
        decreases items@.len() - i,
    {
        assert(all.take(i + 1).drop_last() =~= all.take(i as int));
        assert(all.take(i + 1).last() == items@[i as int]@);
        let ghost before = texts(path@);
        match &items[i] {
            Bencode::ByteString(b) => {
                let segment = string_from_utf8_lossy(b.as_slice());
                path.push(segment);
                assert(texts(path@) =~= before.push(segment@));
            },
            _ => {
                proof {
                    lemma_path_error(all, i + 1);
                }
                return Err(MetaError::InvalidType(String::from_str("path segment")));
            },
        }
        i += 1;
    }
    assert(all.take(i as int) =~= all);
    Ok(path)
}

fn get_file(value: &Bencode) -> (r: Result<TorrentFile, MetaError>)
    ensures
        match file_of(value@) {
            Ok(file) => r matches Ok(got) && got@ == file,
            Err(failure) => r matches Err(e) && e@ == failure,
        },
{
    let dict = match value {
        Bencode::Dict(dict) => dict,
        _ => return Err(MetaError::InvalidType(String::from_str("file item"))),
    };
    let length: u64 = match get_length(dict, "length") {
        Ok(length) => length,
        Err(e) => return Err(e),
    };
    let items = match dict.get("path".as_bytes()) {
        Some(Bencode::List(items)) => items,
        Some(_) => return Err(MetaError::InvalidType(String::from_str("path"))),
        None => return Err(MetaError::MissingField(String::from_str("path"))),
    };
    assert(Bencode::List(*items)@->List_0 =~= items_view(items@));
    match get_path(items) {
        Ok(path) => Ok(TorrentFile { length, path }),
        Err(e) => Err(e),
    }
}

fn get_files(items: &Vec<Bencode>) -> (r: Result<Vec<TorrentFile>, MetaError>)
    ensures
        match files_of(items_view(items@)) {
            Ok(files) => r matches Ok(got) && file_views(got@) == files,
            Err(failure) => r matches Err(e) && e@ == failure,
        },
{
    let ghost all = items_view(items@);
    let mut files: Vec<TorrentFile> = Vec::new();
    let mut i: usize = 0;
    assert(file_views(files@) =~= Seq::<FileView>::empty());
    while i < items.len()
        invariant
            i <= items@.len(),
            all == items_view(items@),
            files_of(all.take(i as int)) == Ok::<Seq<FileView>, MetaFailure>(file_views(files@)),
        decreases items@.len() - i,
    {
        assert(all.take(i + 1).drop_last() =~= all.take(i as int));
        assert(all.take(i + 1).last() == items@[i as int]@);
        let ghost before = file_views(files@);
        match get_file(&items[i]) {
            Ok(file) => {
                files.push(file);
                assert(file_views(files@) =~= before.push(file@));
            },
            Err(e) => {
                proof {
                    lemma_files_error(all, i + 1);
                }
                return Err(e);
            },
        }
        i += 1;
    }
    assert(all.take(i as int) =~= all);
    Ok(files)
}

fn get_mode(info: &Dict) -> (r: Result<FileMode, MetaError>)
    ensures
        match mode_of(info@) {
            Ok(mode) => r matches Ok(got) && got@ == mode,
            Err(failure) => r matches Err(e) && e@ == failure,
        },
{
    if info.contains_key("length".as_bytes()) {
        return match get_length(info, "length") {
            Ok(length) => Ok(FileMode::Single { length }),
            Err(e) => Err(e),
        };
    }
    match info.get("files".as_bytes()) {
        Some(Bencode::List(items)) => {
            assert(Bencode::List(*items)@->List_0 =~= items_view(items@));
            match get_files(items) {
                Ok(files) => Ok(FileMode::Multi { files }),
                Err(e) => Err(e),
            }
        },
        Some(_) => Err(MetaError::InvalidType(String::from_str("files"))),
        None => Err(MetaError::MissingField(String::from_str("length or files"))),
    }
}

/// Cuts a byte string into parts of twenty bytes.
fn split_digests(bytes: &[u8]) -> (r: Vec<[u8; 20]>)
    ensures
        piece_views(r@) == digests_of(bytes@),
{
    let mut pieces: Vec<[u8; 20]> = Vec::new();
    let count: usize = bytes.len() / 20;
    let mut i: usize = 0;
    while i < count
        invariant
            i <= count,
            count == bytes@.len() / 20,
            bytes@.len() <= usize::MAX,
            pieces@.len() == i,
            forall|k: int| 0 <= k < i ==> (#[trigger] pieces@[k])@ == digests_of(bytes@)[k],
        decreases count - i,
    {
        pieces.push(read_20(bytes, 20 * i));
        i += 1;
    }
    assert(piece_views(pieces@) =~= digests_of(bytes@));
    pieces
}

fn get_info(info: &Dict) -> (r: Result<InfoDict, MetaError>)
    ensures
        match info_of(info@) {
            Ok(view) => r matches Ok(got) && got@ == view,
            Err(failure) => r matches Err(e) && e@ == failure,
        },
{
    let name = match get_string(info, "name") {
        Ok(name) => name,
        Err(e) => return Err(e),
    };
    let piece_length: u64 = match get_length(info, "piece length") {
        Ok(n) => n,
        Err(e) => return Err(e),
    };
    let bytes = match get_bytes(info, "pieces") {
        Ok(bytes) => bytes,
        Err(e) => return Err(e),
    };
    if bytes.len() % 20 != 0 {
        return Err(MetaError::InvalidPiecesLength(bytes.len()));
    }
    let pieces = split_digests(bytes.as_slice());
    match get_mode(info) {
        Ok(mode) => Ok(InfoDict { name, piece_length, pieces, mode }),
        Err(e) => Err(e),
    }
}

impl TorrentMeta {
    /// Reads the metainfo of a torrent.
    pub fn from_bytes(bytes: &[u8]) -> (r: Result<Self, MetaError>)
        requires
            !decode_faults(bytes@),
        ensures
            is_meta(r, meta_of(bytes@)),
    {
        let dict = match Bencode::decode(bytes) {
            Ok(Bencode::Dict(dict)) => dict,
            Ok(_) => return Err(MetaError::InvalidType(String::from_str("root"))),
            Err(e) => return Err(MetaError::BencodeError(e)),
        };
        let announce = match get_string(&dict, "announce") {
            Ok(announce) => announce,
            Err(e) => return Err(e),
        };
        let announce_list = get_announce_list(&dict);
        let info_dict = match dict.get("info".as_bytes()) {
            Some(Bencode::Dict(info)) => info,
            Some(_) => return Err(MetaError::InvalidType(String::from_str("info"))),
            None => return Err(MetaError::MissingField(String::from_str("info"))),
        };
        let info = match get_info(info_dict) {
            Ok(info) => info,
            Err(e) => return Err(e),
        };
        proof {
            info_place_is_defined(bytes@);
        }
        match find_info_dict_slice(bytes) {
            Some(slice) => {
                let info_hash = InfoHash(sha1(slice));
                Ok(TorrentMeta { announce, announce_list, info, info_hash })
            },
            None => Err(MetaError::MissingInfoSlice),
        }
    }
}

} // verus!
