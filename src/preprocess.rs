//! Domain-independent entry point of preprocessing.
use vstd::prelude::*;
use crate::domain::DataDomain;
use crate::model::Sample;

verus! {

/// Preprocesses `records` with the statistics and transform of domain `D`.
pub fn preprocess_records<D: DataDomain>(records: &[D::RawRecord]) -> (r: Vec<Sample>)
    requires
        D::accepts(records@),
    ensures
        D::preprocessed(records@, r@),
{
    D::preprocess(records)
}

} // verus!
