//! Putting the workers' outputs together.

use rust_htslib::bam::Record;
use vstd::prelude::*;

verus! {

/// The records of each chunk, for the contracts.
pub open spec fn chunk_records(chunks: Seq<Vec<Record>>) -> Seq<Seq<Record>> {
    chunks.map_values(|chunk: Vec<Record>| chunk@)
}

/// Joins the outputs of the workers into the output of the run.
///
/// `chunks` holds the records that each worker kept, the workers in the order
/// of their chunks. The result holds all these records: chunk after chunk,
/// and inside a chunk in the order in which its worker kept them. No record
/// is changed, dropped or moved past another.
pub fn merge_bams(chunks: Vec<Vec<Record>>) -> (merged: Vec<Record>)
    ensures
        merged@ == chunk_records(chunks@).flatten(),
{
    let ghost source = chunks@;
    let mut merged: Vec<Record> = Vec::new();
    for chunk in it: chunks
        invariant
            it.seq() == source,
            merged@ == chunk_records(source.take(it.index())).flatten(),
    {
        let ghost at = it.index();
        let ghost joined = merged@;
        let mut chunk = chunk;
        proof {
            assert(chunk_records(source.take(at + 1)) =~= chunk_records(source.take(at)).push(
                chunk@,
            ));
            chunk_records(source.take(at)).lemma_flatten_push(chunk@);
        }
        merged.append(&mut chunk);
    }
    proof {
        assert(source.take(source.len() as int) =~= source);
    }
    merged
}

} // verus!
