use vstd::prelude::*;

verus! {

/// The error that `serde_json` reports on text it cannot read.
#[verifier::external_type_specification]
#[verifier::external_body]
pub struct ExJsonError(serde_json::Error);

/// The list that `serde_json::from_str::<Vec<u32>>` reads from `text`, or
/// `None` where it reports an error.
pub uninterp spec fn json_u32_list(text: Seq<char>) -> Option<Seq<u32>>;

/// The `(row, column, text)` triples that
/// `serde_json::from_str::<Vec<(u32, u32, String)>>` reads from `text`, or
/// `None` where it reports an error.
pub uninterp spec fn json_cell_entries(text: Seq<char>) -> Option<Seq<(u32, u32, Seq<char>)>>;

/// The values of a list of `(row, column, text)` triples.
pub open spec fn entries_view(es: Seq<(u32, u32, String)>) -> Seq<(u32, u32, Seq<char>)> {
    es.map_values(|e: (u32, u32, String)| (e.0, e.1, e.2@))
}

/// Reads a JSON array of unsigned 32-bit numbers with
/// `serde_json::from_str::<Vec<u32>>`.
///
/// Claims that the call's outcome depends on `text` alone: an `Ok` list is
/// the one named by `json_u32_list(text@)`, and an error comes exactly where
/// that name is `None`. What JSON text reads as which list is not stated.
#[verifier::external_body]
pub(crate) fn parse_u32_list(text: &str) -> (res: Result<Vec<u32>, serde_json::Error>)
    ensures
        match res {
            Ok(v) => json_u32_list(text@) == Some(v@),
            Err(_) => json_u32_list(text@) is None,
        },
{
    serde_json::from_str::<Vec<u32>>(text)
}

/// Reads a JSON array of `[row, column, "text"]` triples with
/// `serde_json::from_str::<Vec<(u32, u32, String)>>`.
///
/// Claims that the call's outcome depends on `text` alone: an `Ok` list has
/// the values named by `json_cell_entries(text@)`, and an error comes exactly
/// where that name is `None`. What JSON text reads as which triples is not
/// stated.
#[verifier::external_body]
pub(crate) fn parse_cell_entries(text: &str) -> (res: Result<Vec<(u32, u32, String)>, serde_json::Error>)
    ensures
        match res {
            Ok(v) => json_cell_entries(text@) == Some(entries_view(v@)),
            Err(_) => json_cell_entries(text@) is None,
        },
{
    serde_json::from_str::<Vec<(u32, u32, String)>>(text)
}

} // verus!
