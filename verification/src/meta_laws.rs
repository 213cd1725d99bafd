//! What holds of reading metainfo.
use vstd::prelude::*;
use vstd::string::*;
use vstd::utf8::*;
use crate::bencode::{encoding, info_place, lookup, parse_value, well_formed, BValue, InfoPlace, Step};
use crate::bencode_laws::{decode_undoes_encode, info_slice_is_info_encoding};
use crate::decode_laws::{the_info_slice_is_one_value, times_read};
use crate::digest::sha1_digest;
use crate::meta::{
    announce_list_of, digests_of, file_of, files_of, info_of, meta_of, mode_of, path_of, strings_of, tiers_of, FileView,
    InfoView, MetaFailure, MetaView, ModeView,
};
use crate::text::shown_text;

verus! {

/// Wherever metainfo is read from some bytes, its hash is the digest of those very
/// bytes that stand behind the key `info`: of all of them, in the form in which they
/// stand there, and of nothing else.
pub proof fn the_hash_is_that_of_the_bytes_read(bytes: Seq<u8>)
    requires
        bytes.len() <= usize::MAX,
        meta_of(bytes) is Ok,
    ensures
        meta_of(bytes) matches Ok(m) && (info_place(bytes) matches InfoPlace::Found(start, end) && {
            &&& 7 <= start < end <= bytes.len()
            &&& bytes.subrange(start - 6, start) == "4:info".spec_bytes()
            &&& m.info_hash == sha1_digest(bytes.subrange(start, end))
            &&& parse_value(bytes.subrange(start, end), 0) matches Step::Done(v, next) && {
                &&& next == end - start
                &&& times_read(bytes, 1, "info".spec_bytes()) == 1 ==> {
                    parse_value(bytes, 0) matches Step::Done(BValue::Dict(dict), _) ==> lookup(
                        dict,
                        "info".spec_bytes(),
                    ) == Some(v)
                }
            }
        }),
{
    if let InfoPlace::Found(start, end) = info_place(bytes) {
        crate::decode_laws::a_found_place_is_not_empty(bytes);
        the_info_slice_is_one_value(bytes, 0);
    }
}

/// The hash of a torrent is the digest of the bencoding of whatever stands under the
/// key `info`: of every entry, whether or not anything is known of it. Nothing else
/// in the metainfo or behind it matters.
pub proof fn the_hash_is_that_of_the_whole_info_value(
    entries: Seq<(Seq<u8>, BValue)>,
    at: int,
    rest: Seq<u8>,
)
    requires
        well_formed(BValue::Dict(entries)),
        0 <= at < entries.len(),
        entries[at].0 == "info".spec_bytes(),
        encoding(BValue::Dict(entries)).len() + rest.len() <= usize::MAX,
        meta_of(encoding(BValue::Dict(entries)) + rest) is Ok,
    ensures
        meta_of(encoding(BValue::Dict(entries)) + rest)->Ok_0.info_hash == sha1_digest(encoding(entries[at].1)),
{
    decode_undoes_encode(BValue::Dict(entries), rest);
    info_slice_is_info_encoding(entries, at, rest);
}

/// Metainfo with the same value under the key `info` has the same hash, however else
/// it differs.
pub proof fn the_same_info_has_the_same_hash(
    a: Seq<(Seq<u8>, BValue)>,
    i: int,
    b: Seq<(Seq<u8>, BValue)>,
    j: int,
)
    requires
        well_formed(BValue::Dict(a)),
        well_formed(BValue::Dict(b)),
        0 <= i < a.len(),
        0 <= j < b.len(),
        a[i].0 == "info".spec_bytes(),
        b[j] == a[i],
        encoding(BValue::Dict(a)).len() <= usize::MAX,
        encoding(BValue::Dict(b)).len() <= usize::MAX,
        meta_of(encoding(BValue::Dict(a))) is Ok,
        meta_of(encoding(BValue::Dict(b))) is Ok,
    ensures
        meta_of(encoding(BValue::Dict(a)))->Ok_0.info_hash == meta_of(encoding(BValue::Dict(b)))->Ok_0.info_hash,
{
    let none = Seq::<u8>::empty();
    assert(encoding(BValue::Dict(a)) + none =~= encoding(BValue::Dict(a)));
    assert(encoding(BValue::Dict(b)) + none =~= encoding(BValue::Dict(b)));
    the_hash_is_that_of_the_whole_info_value(a, i, none);
    the_hash_is_that_of_the_whole_info_value(b, j, none);
}

/// Whether `text` is what the byte string `value` is read as.
pub open spec fn is_text(value: BValue, text: Seq<char>) -> bool {
    value matches BValue::Bytes(b) && text == shown_text(b) && (valid_utf8(b) ==> text == decode_utf8(b))
}

/// Whether `n` is what the integer `value` is read as: the integer itself, and for a
/// negative one the number that is congruent to it.
pub open spec fn is_length(value: BValue, n: u64) -> bool {
    value matches BValue::Int(i) && (i >= 0 ==> n == i) && (i < 0 ==> n == i + 0x1_0000_0000_0000_0000)
}

/// Whether each of `values` is read as the text at the same place.
pub open spec fn are_texts(values: Seq<BValue>, texts: Seq<Seq<char>>) -> bool {
    &&& values.len() == texts.len()
    &&& forall|k: int| 0 <= k < values.len() ==> is_text(#[trigger] values[k], texts[k])
}

/// Whether a value describes a file.
pub open spec fn is_file(value: BValue, file: FileView) -> bool {
    &&& value is Dict
    &&& lookup(value->Dict_0, "length".spec_bytes()) matches Some(length) && is_length(length, file.length)
    &&& lookup(value->Dict_0, "path".spec_bytes()) matches Some(BValue::List(parts)) && are_texts(parts, file.path)
}

/// Whether each of `values` describes the file at the same place.
pub open spec fn are_files(values: Seq<BValue>, files: Seq<FileView>) -> bool {
    &&& values.len() == files.len()
    &&& forall|k: int| 0 <= k < values.len() ==> is_file(#[trigger] values[k], files[k])
}

/// Whether each of `values` is a list that describes the tier at the same place.
pub open spec fn are_tiers(values: Seq<BValue>, tiers: Seq<Seq<Seq<char>>>) -> bool {
    &&& values.len() == tiers.len()
    &&& forall|k: int|
        0 <= k < values.len() ==> ((#[trigger] values[k]) matches BValue::List(inner) && inner.len() > 0 && are_texts(
            inner,
            tiers[k],
        ))
}

/// Every part of a path is read, in its place; and a path is read wherever its parts
/// are byte strings.
pub proof fn every_part_of_a_path_is_read(items: Seq<BValue>)
    ensures
        path_of(items) is Ok <==> forall|k: int| 0 <= k < items.len() ==> #[trigger] items[k] is Bytes,
        path_of(items) matches Ok(path) ==> are_texts(items, path),
        path_of(items) matches Err(e) ==> e == MetaFailure::InvalidType("path segment"@),
    decreases items.len(),
{
    if items.len() > 0 {
        let shorter = items.drop_last();
        every_part_of_a_path_is_read(shorter);
        assert forall|k: int| 0 <= k < shorter.len() implies #[trigger] shorter[k] == items[k] by {}
        if path_of(items) is Ok {
            let path = path_of(items)->Ok_0;
            assert forall|k: int| 0 <= k < items.len() implies #[trigger] items[k] is Bytes && is_text(
                items[k],
                path[k],
            ) by {
                if k < items.len() - 1 {
                    assert(shorter[k] == items[k]);
                }
            }
        } else if forall|k: int| 0 <= k < items.len() ==> #[trigger] items[k] is Bytes {
            assert forall|k: int| 0 <= k < shorter.len() implies #[trigger] shorter[k] is Bytes by {
                assert(items[k] is Bytes);
            }
            assert(items[items.len() - 1] is Bytes);
            assert(false);
        }
    }
}

/// A file is read from a dictionary that has a length and a path, and what is amiss is
/// named otherwise.
pub proof fn a_file_is_read(value: BValue)
    ensures
        file_of(value) matches Ok(file) ==> is_file(value, file),
        !(value is Dict) ==> file_of(value) == Err::<FileView, MetaFailure>(MetaFailure::InvalidType("file item"@)),
        value matches BValue::Dict(d) ==> ({
            let length = lookup(d, "length".spec_bytes());
            let path = lookup(d, "path".spec_bytes());
            &&& length is None ==> file_of(value) == Err::<FileView, MetaFailure>(MetaFailure::MissingField("length"@))
            &&& length is Some && !(length->0 is Int) ==> file_of(value) == Err::<FileView, MetaFailure>(
                MetaFailure::InvalidType("length"@),
            )
            &&& length is Some && length->0 is Int && path is None ==> file_of(value) == Err::<FileView, MetaFailure>(
                MetaFailure::MissingField("path"@),
            )
            &&& length is Some && length->0 is Int && path is Some && !(path->0 is List) ==> file_of(value) == Err::<
                FileView,
                MetaFailure,
            >(MetaFailure::InvalidType("path"@))
            &&& length is Some && length->0 is Int && (path matches Some(BValue::List(parts)) && path_of(parts) is Err)
                ==> file_of(value) == Err::<FileView, MetaFailure>(MetaFailure::InvalidType("path segment"@))
            &&& length is Some && length->0 is Int && (path matches Some(BValue::List(parts)) && path_of(parts) is Ok)
                ==> file_of(value) is Ok
        }),
{
    if let BValue::Dict(d) = value {
        if let Some(BValue::List(parts)) = lookup(d, "path".spec_bytes()) {
            every_part_of_a_path_is_read(parts);
        }
    }
}

/// Every file is read, in its place; and the first that is amiss decides.
pub proof fn every_file_is_read(items: Seq<BValue>)
    ensures
        files_of(items) is Ok <==> forall|k: int| 0 <= k < items.len() ==> file_of(#[trigger] items[k]) is Ok,
        files_of(items) matches Ok(files) ==> are_files(items, files),
        files_of(items) matches Err(e) ==> exists|k: int|
            0 <= k < items.len() && file_of(#[trigger] items[k]) == Err::<FileView, MetaFailure>(e) && forall|j: int|
                0 <= j < k ==> file_of(#[trigger] items[j]) is Ok,
    decreases items.len(),
{
    if items.len() > 0 {
        let shorter = items.drop_last();
        let last = items.len() - 1;
        every_file_is_read(shorter);
        a_file_is_read(items[last]);
        assert forall|k: int| 0 <= k < shorter.len() implies #[trigger] items[k] == shorter[k] by {}
        if files_of(shorter) is Ok {
            assert forall|k: int| 0 <= k < last implies file_of(#[trigger] items[k]) is Ok by {
                assert(file_of(shorter[k]) is Ok);
            }
            if files_of(items) is Ok {
                let files = files_of(items)->Ok_0;
                assert forall|k: int| 0 <= k < items.len() implies is_file(#[trigger] items[k], files[k]) by {
                    if k < last {
                        assert(is_file(shorter[k], files_of(shorter)->Ok_0[k]));
                    }
                }
            } else {
                assert(file_of(items[last]) is Err);
            }
        } else {
            let e = files_of(shorter)->Err_0;
            let k = choose|k: int|
                0 <= k < shorter.len() && file_of(#[trigger] shorter[k]) == Err::<FileView, MetaFailure>(e) && forall|
                    j: int,
                |
                    0 <= j < k ==> file_of(#[trigger] shorter[j]) is Ok;
            assert(file_of(items[k]) == Err::<FileView, MetaFailure>(e));
            assert forall|j: int| 0 <= j < k implies file_of(#[trigger] items[j]) is Ok by {
                assert(file_of(shorter[j]) is Ok);
            }
        }
    }
}

/// A torrent with a length is a single file of that length, and one with a list of
/// files and no length has those files.
pub proof fn the_kind_of_a_torrent_is_read(info: Seq<(Seq<u8>, BValue)>)
    ensures
        ({
            let length = lookup(info, "length".spec_bytes());
            let files = lookup(info, "files".spec_bytes());
            &&& length is Some && length->0 is Int ==> (mode_of(info) matches Ok(ModeView::Single { length: n })
                && is_length(length->0, n))
            &&& length is Some && !(length->0 is Int) ==> mode_of(info) == Err::<ModeView, MetaFailure>(
                MetaFailure::InvalidType("length"@),
            )
            &&& length is None && files is None ==> mode_of(info) == Err::<ModeView, MetaFailure>(
                MetaFailure::MissingField("length or files"@),
            )
            &&& length is None && files is Some && !(files->0 is List) ==> mode_of(info) == Err::<
                ModeView,
                MetaFailure,
            >(MetaFailure::InvalidType("files"@))
            &&& length is None ==> (files matches Some(BValue::List(items)) ==> match files_of(items) {
                Ok(_) => mode_of(info) matches Ok(ModeView::Multi { files: read }) && are_files(items, read),
                Err(e) => mode_of(info) == Err::<ModeView, MetaFailure>(e),
            })
        }),
{
    if let Some(BValue::List(items)) = lookup(info, "files".spec_bytes()) {
        every_file_is_read(items);
    }
}

/// The digests of the pieces stand one behind the other, twenty bytes each.
pub proof fn digests_stand_one_behind_the_other(bytes: Seq<u8>, i: int)
    requires
        bytes.len() % 20 == 0,
    ensures
        digests_of(bytes).len() * 20 == bytes.len(),
        0 <= i < digests_of(bytes).len() ==> digests_of(bytes)[i].len() == 20,
        forall|k: int|
            0 <= i < digests_of(bytes).len() && 0 <= k < 20 ==> #[trigger] digests_of(bytes)[i][k] == bytes[20 * i + k],
{
}

/// Everything that an info dictionary must hold is read from it, whatever else stands
/// in it.
pub proof fn an_info_dictionary_is_read(info: Seq<(Seq<u8>, BValue)>)
    ensures
        info_of(info) matches Ok(read) ==> {
            &&& lookup(info, "name".spec_bytes()) matches Some(name) && is_text(name, read.name)
            &&& lookup(info, "piece length".spec_bytes()) matches Some(length) && is_length(length, read.piece_length)
            &&& lookup(info, "pieces".spec_bytes()) matches Some(BValue::Bytes(b)) && b.len() == 20 * read.pieces.len()
                && forall|i: int|
                0 <= i < read.pieces.len() ==> #[trigger] read.pieces[i] == b.subrange(20 * i, 20 * i + 20)
            &&& mode_of(info) == Ok::<ModeView, MetaFailure>(read.mode)
        },
        info_of(info) is Ok <==> {
            &&& lookup(info, "name".spec_bytes()) matches Some(BValue::Bytes(_))
            &&& lookup(info, "piece length".spec_bytes()) matches Some(BValue::Int(_))
            &&& lookup(info, "pieces".spec_bytes()) matches Some(BValue::Bytes(b)) && b.len() % 20 == 0
            &&& mode_of(info) is Ok
        },
{
}

/// What is amiss in an info dictionary is named: the name first, the length of the
/// pieces next, and the pieces last.
pub proof fn what_is_amiss_in_an_info_dictionary_is_named(info: Seq<(Seq<u8>, BValue)>)
    ensures
        ({
            let name = lookup(info, "name".spec_bytes());
            let length = lookup(info, "piece length".spec_bytes());
            let pieces = lookup(info, "pieces".spec_bytes());
            let named = name is Some && name->0 is Bytes;
            let sized = length is Some && length->0 is Int;
            &&& name is None ==> info_of(info) == Err::<InfoView, MetaFailure>(MetaFailure::MissingField("name"@))
            &&& name is Some && !named ==> info_of(info) == Err::<InfoView, MetaFailure>(
                MetaFailure::InvalidType("name"@),
            )
            &&& named && length is None ==> info_of(info) == Err::<InfoView, MetaFailure>(
                MetaFailure::MissingField("piece length"@),
            )
            &&& named && length is Some && !sized ==> info_of(info) == Err::<InfoView, MetaFailure>(
                MetaFailure::InvalidType("piece length"@),
            )
            &&& named && sized && pieces is None ==> info_of(info) == Err::<InfoView, MetaFailure>(
                MetaFailure::MissingField("pieces"@),
            )
            &&& named && sized && pieces is Some && !(pieces->0 is Bytes) ==> info_of(info) == Err::<
                InfoView,
                MetaFailure,
            >(MetaFailure::InvalidType("pieces"@))
            &&& named && sized ==> (pieces matches Some(BValue::Bytes(b)) ==> b.len() % 20 != 0 ==> info_of(info) == Err::<
                InfoView,
                MetaFailure,
            >(MetaFailure::InvalidPiecesLength(b.len() as int)))
            &&& named && sized ==> (pieces matches Some(BValue::Bytes(b)) ==> b.len() % 20 == 0 ==> (mode_of(
                info,
            ) matches Err(e) ==> info_of(info) == Err::<InfoView, MetaFailure>(e)))
        }),
{
}

/// The main tracker, the tiers and the info dictionary are read from where they stand,
/// whatever else stands in the metainfo.
pub proof fn metainfo_is_read(bytes: Seq<u8>)
    ensures
        meta_of(bytes) matches Ok(read) ==> {
            &&& parse_value(bytes, 0) matches Step::Done(BValue::Dict(dict), _) && {
                &&& lookup(dict, "announce".spec_bytes()) matches Some(announce) && is_text(announce, read.announce)
                &&& read.announce_list == announce_list_of(dict)
                &&& lookup(dict, "info".spec_bytes()) matches Some(BValue::Dict(info)) && info_of(info) == Ok::<
                    InfoView,
                    MetaFailure,
                >(read.info)
            }
        },
        meta_of(bytes) is Ok <==> {
            &&& info_place(bytes) is Found
            &&& parse_value(bytes, 0) matches Step::Done(BValue::Dict(dict), _) && {
                &&& lookup(dict, "announce".spec_bytes()) matches Some(BValue::Bytes(_))
                &&& lookup(dict, "info".spec_bytes()) matches Some(BValue::Dict(info)) && info_of(info) is Ok
            }
        },
{
}

/// What is amiss in metainfo is named: that it is no bencoding or no dictionary, then
/// the main tracker, then the info dictionary.
pub proof fn what_is_amiss_in_metainfo_is_named(bytes: Seq<u8>)
    ensures
        parse_value(bytes, 0) matches Step::Failed(failure) ==> meta_of(bytes) == Err::<MetaView, MetaFailure>(
            MetaFailure::BencodeError(failure),
        ),
        parse_value(bytes, 0) matches Step::Done(v, _) ==> {
            &&& !(v is Dict) ==> meta_of(bytes) == Err::<MetaView, MetaFailure>(MetaFailure::InvalidType("root"@))
            &&& v matches BValue::Dict(dict) ==> ({
                let announce = lookup(dict, "announce".spec_bytes());
                let info = lookup(dict, "info".spec_bytes());
                let announced = announce is Some && announce->0 is Bytes;
                &&& announce is None ==> meta_of(bytes) == Err::<MetaView, MetaFailure>(
                    MetaFailure::MissingField("announce"@),
                )
                &&& announce is Some && !announced ==> meta_of(bytes) == Err::<MetaView, MetaFailure>(
                    MetaFailure::InvalidType("announce"@),
                )
                &&& announced && info is None ==> meta_of(bytes) == Err::<MetaView, MetaFailure>(
                    MetaFailure::MissingField("info"@),
                )
                &&& announced && info is Some && !(info->0 is Dict) ==> meta_of(bytes) == Err::<MetaView, MetaFailure>(
                    MetaFailure::InvalidType("info"@),
                )
                &&& announced ==> (info matches Some(BValue::Dict(d)) ==> match info_of(d) {
                    Err(e) => meta_of(bytes) == Err::<MetaView, MetaFailure>(e),
                    Ok(_) => !(info_place(bytes) is Found) ==> meta_of(bytes) == Err::<MetaView, MetaFailure>(
                        MetaFailure::MissingInfoSlice,
                    ),
                })
            })
        },
{
}

/// Every text of a list is read, in its place, where the list holds nothing else.
pub proof fn every_text_is_read(items: Seq<BValue>)
    requires
        forall|k: int| 0 <= k < items.len() ==> #[trigger] items[k] is Bytes,
    ensures
        are_texts(items, strings_of(items)),
    decreases items.len(),
{
    if items.len() > 0 {
        let shorter = items.drop_last();
        assert forall|k: int| 0 <= k < shorter.len() implies #[trigger] shorter[k] is Bytes by {
            assert(items[k] is Bytes);
        }
        every_text_is_read(shorter);
        assert(items[items.len() - 1] is Bytes);
        assert forall|k: int| 0 <= k < items.len() implies is_text(#[trigger] items[k], strings_of(items)[k]) by {
            if k < items.len() - 1 {
                assert(shorter[k] == items[k]);
            }
        }
    }
}

/// What is no text is passed over and changes nothing of what is read of the others.
pub proof fn what_is_no_text_is_passed_over(before: Seq<BValue>, value: BValue, after: Seq<BValue>)
    requires
        !(value is Bytes),
    ensures
        strings_of(before.push(value) + after) == strings_of(before + after),
    decreases after.len(),
{
    let with = before.push(value) + after;
    let without = before + after;
    if after.len() > 0 {
        what_is_no_text_is_passed_over(before, value, after.drop_last());
        assert(with.drop_last() =~= before.push(value) + after.drop_last());
        assert(without.drop_last() =~= before + after.drop_last());
        assert(with.last() == after.last());
        assert(without.last() == after.last());
    } else {
        assert(with =~= before.push(value));
        assert(without =~= before);
        assert(with.drop_last() =~= before);
    }
}

/// Every tier is read, in its place, where each is a list with texts alone.
pub proof fn every_tier_is_read(items: Seq<BValue>)
    requires
        forall|k: int|
            0 <= k < items.len() ==> ((#[trigger] items[k]) matches BValue::List(inner) && inner.len() > 0 && forall|
                j: int,
            |
                0 <= j < inner.len() ==> #[trigger] inner[j] is Bytes),
    ensures
        are_tiers(items, tiers_of(items)),
    decreases items.len(),
{
    if items.len() > 0 {
        let shorter = items.drop_last();
        let last = items.len() - 1;
        assert forall|k: int| 0 <= k < shorter.len() implies ((#[trigger] shorter[k]) matches BValue::List(inner)
            && inner.len() > 0 && forall|j: int| 0 <= j < inner.len() ==> #[trigger] inner[j] is Bytes) by {
            assert(items[k] is List);
        }
        every_tier_is_read(shorter);
        assert(items[last] is List);
        every_text_is_read(items[last]->List_0);
        let tiers = tiers_of(items);
        assert forall|k: int| 0 <= k < items.len() implies ((#[trigger] items[k]) matches BValue::List(inner)
            && inner.len() > 0 && are_texts(inner, tiers[k])) by {
            if k < last {
                assert(shorter[k] == items[k]);
            }
        }
    }
}

/// What is no tier, or a tier without a text, is passed over and changes nothing of
/// what is read of the others.
pub proof fn what_is_no_tier_is_passed_over(before: Seq<BValue>, value: BValue, after: Seq<BValue>)
    requires
        value matches BValue::List(inner) ==> forall|k: int| 0 <= k < inner.len() ==> !(#[trigger] inner[k] is Bytes),
    ensures
        tiers_of(before.push(value) + after) == tiers_of(before + after),
    decreases after.len(),
{
    let with = before.push(value) + after;
    let without = before + after;
    if after.len() > 0 {
        what_is_no_tier_is_passed_over(before, value, after.drop_last());
        assert(with.drop_last() =~= before.push(value) + after.drop_last());
        assert(without.drop_last() =~= before + after.drop_last());
        assert(with.last() == after.last());
        assert(without.last() == after.last());
    } else {
        assert(with =~= before.push(value));
        assert(without =~= before);
        assert(with.drop_last() =~= before);
        if let BValue::List(inner) = value {
            lemma_no_texts(inner);
        }
    }
}

proof fn lemma_no_texts(items: Seq<BValue>)
    requires
        forall|k: int| 0 <= k < items.len() ==> !(#[trigger] items[k] is Bytes),
    ensures
        strings_of(items).len() == 0,
    decreases items.len(),
{
    if items.len() > 0 {
        let shorter = items.drop_last();
        assert forall|k: int| 0 <= k < shorter.len() implies !(#[trigger] shorter[k] is Bytes) by {
            assert(!(items[k] is Bytes));
        }
        lemma_no_texts(shorter);
        assert(!(items[items.len() - 1] is Bytes));
    }
}

/// There are tiers exactly where a list of them stands under their key and holds one.
pub proof fn where_there_are_tiers(dict: Seq<(Seq<u8>, BValue)>)
    ensures
        match lookup(dict, "announce-list".spec_bytes()) {
            Some(BValue::List(items)) => {
                &&& tiers_of(items).len() == 0 ==> announce_list_of(dict) is None
                &&& tiers_of(items).len() > 0 ==> announce_list_of(dict) == Some(tiers_of(items))
            },
            _ => announce_list_of(dict) is None,
        },
{
}

} // verus!
