//! Per-domain schemas: how a row becomes a raw record, and how raw records
//! become samples.
use vstd::prelude::*;
use crate::model::Sample;

pub mod sensor;

verus! {

/// Why a row could not be parsed.
#[derive(Debug)]
pub enum DomainError {
    /// A required field is absent from the row.
    MissingField(&'static str),
    /// A required field is not a number; holds the field's name.
    ParseFloat(String),
}

/// The text of each field of a row.
pub open spec fn row_view(row: Seq<String>) -> Seq<Seq<char>> {
    row.map_values(|s: String| s@)
}

/// A domain: its row schema and its preprocessing.
pub trait DataDomain {
    type RawRecord;

    /// `r` is what parsing `row` gives.
    spec fn parses_to(row: Seq<Seq<char>>, r: Result<Self::RawRecord, DomainError>) -> bool;

    /// Datasets that preprocessing takes.
    spec fn accepts(records: Seq<Self::RawRecord>) -> bool;

    /// `out` is what preprocessing `records` gives.
    spec fn preprocessed(records: Seq<Self::RawRecord>, out: Seq<Sample>) -> bool;

    /// Identifier of the domain, for progress reports.
    fn name() -> &'static str;

    /// Turns one row into a raw record.
    fn parse_record(row: &Vec<String>) -> (r: Result<Self::RawRecord, DomainError>)
        ensures
            Self::parses_to(row_view(row@), r),
    ;

    /// Statistics over all records, then one sample per record.
    fn preprocess(records: &[Self::RawRecord]) -> (r: Vec<Sample>)
        requires
            Self::accepts(records@),
        ensures
            Self::preprocessed(records@, r@),
    ;
}

} // verus!
