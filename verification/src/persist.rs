//! The file that records which torrents were added.
use vstd::prelude::*;
use vstd::string::*;

verus! {

/// What some entries say.
pub open spec fn entry_views(entries: Seq<(u32, String)>) -> Seq<(u32, Seq<char>)> {
    entries.map_values(|e: (u32, String)| (e.0, e.1@))
}

/// The entries that a JSON text holds, if it holds entries.
pub uninterp spec fn parsed_entries(text: Seq<char>) -> Option<Seq<(u32, Seq<char>)>>;

/// Entries as an indented JSON text.
pub uninterp spec fn entries_text(entries: Seq<(u32, Seq<char>)>) -> Seq<char>;

/// `serde_json::from_str`, asked for pairs of a number and a text: whether there
/// are such pairs and which ones depends on the text alone.
#[verifier::external_body]
fn parse_entries(text: &str) -> (r: Option<Vec<(u32, String)>>)
    ensures
        match r {
            Some(entries) => parsed_entries(text@) == Some(entry_views(entries@)),
            None => parsed_entries(text@) is None,
        },
{
    serde_json::from_str(text).ok()
}

/// `serde_json::to_string_pretty` on pairs of a number and a text. It fails only
/// on types that refuse to be written and on maps whose keys are no texts, and
/// pairs are neither. The text depends on the pairs alone, and
/// `serde_json::from_str` gives them back from it.
#[verifier::external_body]
fn write_entries(entries: &Vec<(u32, String)>) -> (r: Option<String>)
    ensures
        r is Some,
        r->0@ == entries_text(entry_views(entries@)),
        parsed_entries(r->0@) == Some(entry_views(entries@)),
{
    serde_json::to_string_pretty(entries).ok()
}

/// The name of the file.
pub fn state_file_path() -> (r: &'static str)
    ensures
        r@ == "torrents.json"@,
{
    "torrents.json"
}

/// The entries that are found where the file held `parsed`.
pub open spec fn found_entries(parsed: Option<Seq<(u32, Seq<char>)>>) -> Seq<(u32, Seq<char>)> {
    match parsed {
        Some(entries) => entries,
        None => seq![],
    }
}

/// The entries that are found where the file could not be read, or held
/// `contents`.
pub open spec fn loaded_entries(contents: Option<Seq<char>>) -> Seq<(u32, Seq<char>)> {
    match contents {
        Some(text) => found_entries(parsed_entries(text)),
        None => seq![],
    }
}

/// The entries to go on with: none where there were none to read.
pub fn entries_found(parsed: Option<Vec<(u32, String)>>) -> (r: Vec<(u32, String)>)
    ensures
        entry_views(r@) == found_entries(
            match parsed {
                Some(entries) => Some(entry_views(entries@)),
                None => None,
            },
        ),
{
    match parsed {
        Some(entries) => entries,
        None => {
            let none: Vec<(u32, String)> = Vec::new();
            assert(entry_views(none@) =~= Seq::<(u32, Seq<char>)>::empty());
            none
        },
    }
}

/// Reads the torrents that were recorded. A file that cannot be read or
/// understood counts as empty.
pub fn load_state(contents: Option<&str>) -> (r: Vec<(u32, String)>)
    ensures
        entry_views(r@) == loaded_entries(
            match contents {
                Some(text) => Some(text@),
                None => None,
            },
        ),
{
    match contents {
        Some(text) => entries_found(parse_entries(text)),
        None => entries_found(None),
    }
}

/// What to write into the file, so that the same torrents are read back.
pub fn save_state(entries: &Vec<(u32, String)>) -> (r: Option<String>)
    ensures
        r matches Some(text) && text@ == entries_text(entry_views(entries@)) && loaded_entries(Some(text@))
            == entry_views(entries@),
{
    write_entries(entries)
}

} // verus!
