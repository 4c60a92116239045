//! Ingestion of parsed rows and chunking of record sequences.
use vstd::prelude::*;
use crate::domain::{row_view, DataDomain, DomainError};

verus! {

/// The contents of each chunk.
pub open spec fn chunk_views<T>(cs: Seq<&[T]>) -> Seq<Seq<T>> {
    cs.map_values(|c: &[T]| c@)
}

/// Chunk size after the clamp to at least one.
pub open spec fn effective_size(size: usize) -> int {
    if size == 0 {
        1
    } else {
        size as int
    }
}

/// Splits `records` into contiguous chunks of `max(size, 1)` records; the
/// last may be shorter. Nothing is copied or reordered.
pub fn chunk_records<T>(records: &[T], size: usize) -> (r: Vec<&[T]>)
    ensures
        chunk_views(r@).flatten() == records@,
        forall|i: int| 0 <= i < r@.len() ==> 0 < (#[trigger] r@[i])@.len() <= effective_size(size),
        forall|i: int| 0 <= i < r@.len() - 1 ==> (#[trigger] r@[i])@.len() == effective_size(size),
{
    let step: usize = if size == 0 {
        1
    } else {
        size
    };
    let n = records.len();
    let mut out: Vec<&[T]> = Vec::new();
    let mut start: usize = 0;
    while start < n
        invariant
            start <= n == records@.len(),
            step == effective_size(size),
            chunk_views(out@).flatten() == records@.subrange(0, start as int),
            forall|i: int| 0 <= i < out@.len() ==> 0 < (#[trigger] out@[i])@.len() <= step,
            start < n ==> forall|i: int| 0 <= i < out@.len() ==> (#[trigger] out@[i])@.len() == step,
            forall|i: int| 0 <= i < out@.len() - 1 ==> (#[trigger] out@[i])@.len() == step,
        decreases n - start,
    {
        let end: usize = if n - start < step {
            n
        } else {
            start + step
        };
        let c = vstd::slice::slice_subrange(records, start, end);
        proof {
            assert(chunk_views(out@.push(c)) =~= chunk_views(out@).push(c@));
            chunk_views(out@).lemma_flatten_push(c@);
            assert(records@.subrange(0, start as int) + c@ =~= records@.subrange(0, end as int));
        }
        out.push(c);
        start = end;
    }
    assert(records@.subrange(0, n as int) =~= records@);
    out
}

/// Row `row` parses without error.
pub open spec fn row_parses<D: DataDomain>(row: Seq<Seq<char>>) -> bool {
    exists|x: D::RawRecord| D::parses_to(row, Ok(x))
}

/// Parses every row of one input through the domain and appends the records
/// to `records`. Any row that fails aborts the whole input: `records` is then
/// left as it was and the first failure is returned.
pub fn ingest_rows<D: DataDomain>(records: &mut Vec<D::RawRecord>, rows: &Vec<Vec<String>>) -> (r:
    Result<usize, DomainError>)
    ensures
        r is Ok ==> {
            &&& r->Ok_0 == rows@.len()
            &&& final(records)@.len() == old(records)@.len() + rows@.len()
            &&& final(records)@.subrange(0, old(records)@.len() as int) == old(records)@
            &&& forall|j: int|
                0 <= j < rows@.len() ==> D::parses_to(
                    row_view(#[trigger] rows@[j]@),
                    Ok(final(records)@[old(records)@.len() + j]),
                )
        },
        r is Err ==> final(records)@ == old(records)@,
        r is Err ==> exists|j: int|
            0 <= j < rows@.len() && D::parses_to(row_view(#[trigger] rows@[j]@), Err(r->Err_0))
                && forall|l: int| 0 <= l < j ==> row_parses::<D>(row_view(#[trigger] rows@[l]@)),
{
    let mut parsed: Vec<D::RawRecord> = Vec::new();
    let mut i: usize = 0;
    while i < rows.len()
        invariant
            i <= rows@.len(),
            parsed@.len() == i,
            forall|j: int| 0 <= j < i ==> D::parses_to(row_view(#[trigger] rows@[j]@), Ok(parsed@[j])),
        decreases rows@.len() - i,
    {
        match D::parse_record(&rows[i]) {
            Ok(rec) => parsed.push(rec),
            Err(e) => {
                assert(D::parses_to(row_view(rows@[i as int]@), Err(e)));
                assert forall|l: int| 0 <= l < i implies row_parses::<D>(row_view(#[trigger] rows@[l]@)) by {
                    assert(D::parses_to(row_view(rows@[l]@), Ok(parsed@[l])));
                }
                return Err(e);
            },
        }
        i = i + 1;
    }
    let ghost before = records@;
    records.append(&mut parsed);
    assert(records@.subrange(0, before.len() as int) =~= before);
    Ok(rows.len())
}

} // verus!
