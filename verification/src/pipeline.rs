//! The run as a whole: how many chunks, one task for each, and what the
//! workers' results add up to.

use crate::barcodes::lines;
use crate::barcodes::load_barcodes;
use crate::barcodes::BarcodeSet;
use crate::bgzf::bgzf_noffsets;
use crate::bgzf::candidate_offsets;
use crate::bgzf::chunk_holds;
use crate::bgzf::lemma_partition_covers_once;
use crate::bgzf::partitions_file;
use crate::bgzf::window_at;
use crate::bgzf::ChunkBoundary;
use crate::bgzf::MAX_FILE_SIZE;
use crate::bgzf::WINDOW_LEN;
use crate::error::RunError;
use crate::merge::chunk_records;
use crate::merge::merge_bams;
use crate::record::aux_fields;
use crate::record::record_views;
use crate::record::storable;
use crate::record::RecordView;
use crate::slice::appliable;
use crate::slice::new_text;
use crate::slice::outcome;
use crate::slice::read_bam_slice;
use crate::slice::retained;
use crate::slice::rewrites;
use crate::slice::substitution_of;
use crate::slice::Rule;
use crate::slice::SliceArgs;
use rust_htslib::bam::Record;
use vstd::prelude::*;
use vstd::seq_lib::lemma_flatten_concat;
use vstd::slice::slice_subrange;
use vstd::slice::slice_to_vec;
use vstd::utf8::encode_utf8;

verus! {

/// The number of chunks to plan for `cores` workers: one for each worker,
/// and one if no worker was asked for.
pub fn chunk_count(cores: usize) -> (chunks: u64)
    ensures
        chunks >= 1,
        chunks == if cores == 0 {
            1
        } else {
            cores as int
        },
{
    if cores == 0 {
        1
    } else {
        cores as u64
    }
}

/// A copy of an optional string.
fn copy_of(text: &Option<String>) -> (copy: Option<String>)
    ensures
        copy == *text,
{
    match text {
        Some(text) => Some(text.clone()),
        None => None,
    }
}

/// The tasks of a run: one for each chunk, numbered in the chunks' order,
/// and all with the same allow-list, tag and substitution.
pub fn slice_tasks<'a>(
    cell_barcodes: &'a BarcodeSet,
    bam_tag: &str,
    to_replace: &Option<String>,
    replacement: &Option<String>,
    boundaries: &Vec<ChunkBoundary>,
) -> (tasks: Vec<SliceArgs<'a>>)
    ensures
        tasks@.len() == boundaries@.len(),
        forall|k: int|
            0 <= k < tasks@.len() ==> {
                &&& (#[trigger] tasks@[k]).cell_barcodes == cell_barcodes
                &&& tasks@[k].i == k
                &&& tasks@[k].bam_tag@ == bam_tag@
                &&& tasks@[k].virtual_start == boundaries@[k].0
                &&& tasks@[k].virtual_stop == boundaries@[k].1
                &&& tasks@[k].to_replace == *to_replace
                &&& tasks@[k].replacement == *replacement
            },
{
    let mut tasks: Vec<SliceArgs<'a>> = Vec::new();
    let mut k: usize = 0;
    while k < boundaries.len()
        invariant
            0 <= k <= boundaries@.len(),
            tasks@.len() == k,
            forall|j: int|
                0 <= j < k ==> {
                    &&& (#[trigger] tasks@[j]).cell_barcodes == cell_barcodes
                    &&& tasks@[j].i == j
                    &&& tasks@[j].bam_tag@ == bam_tag@
                    &&& tasks@[j].virtual_start == boundaries@[j].0
                    &&& tasks@[j].virtual_stop == boundaries@[j].1
                    &&& tasks@[j].to_replace == *to_replace
                    &&& tasks@[j].replacement == *replacement
                },
        decreases boundaries@.len() - k,
    {
        let boundary = boundaries[k];
        tasks.push(
            SliceArgs {
                cell_barcodes,
                i: k,
                bam_tag: bam_tag.to_owned(),
                virtual_start: boundary.0,
                virtual_stop: boundary.1,
                to_replace: copy_of(to_replace),
                replacement: copy_of(replacement),
            },
        );
        k += 1;
    }
    tasks
}

/// What the workers' results come to: all their outputs, in the workers'
/// order, if every worker succeeded; else the error of the first in that
/// order that failed.
pub fn gather<T, E>(results: Vec<Result<T, E>>) -> (gathered: Result<Vec<T>, E>)
    ensures
        match gathered {
            Ok(outputs) => {
                &&& outputs@.len() == results@.len()
                &&& forall|k: int|
                    0 <= k < results@.len() ==> #[trigger] results@[k] == Ok::<T, E>(outputs@[k])
            },
            Err(e) => exists|k: int|
                {
                    &&& 0 <= k < results@.len()
                    &&& #[trigger] results@[k] == Err::<T, E>(e)
                    &&& forall|j: int| 0 <= j < k ==> (#[trigger] results@[j]) is Ok
                },
        },
{
    let ghost source = results@;
    let mut outputs: Vec<T> = Vec::new();
    for result in it: results
        invariant
            it.seq() == source,
            outputs@.len() == it.index(),
            forall|k: int| 0 <= k < it.index() ==> #[trigger] source[k] == Ok::<T, E>(outputs@[k]),
    {
        match result {
            Ok(output) => {
                outputs.push(output);
            },
            Err(e) => {
                assert(source[it.index()] == Err::<T, E>(e));
                return Err(e);
            },
        }
    }
    Ok(outputs)
}

/// The records of a source, each with the virtual offset at which it starts.
pub type Source = Seq<(i64, Record)>;

/// The records of `source` without their offsets.
pub open spec fn records_of(source: Source) -> Seq<Record> {
    source.map_values(|entry: (i64, Record)| entry.1)
}

/// The records of `source` stand in the order of their offsets.
pub open spec fn offsets_rise(source: Source) -> bool {
    forall|i: int, j: int| 0 <= i <= j < source.len() ==> source[i].0 <= source[j].0
}

/// The records of `source` that start in the chunk `boundary`, in their
/// order.
pub open spec fn chunk_of(source: Source, boundary: ChunkBoundary) -> Seq<Record> {
    source.filter_map(
        |entry: (i64, Record)|
            if chunk_holds(boundary, entry.0) {
                Some(entry.1)
            } else {
                None
            },
    )
}

/// The chunks that `boundaries` cut `source` into.
pub open spec fn chunks_of(source: Source, boundaries: Seq<ChunkBoundary>) -> Seq<Seq<Record>> {
    Seq::new(boundaries.len(), |k: int| chunk_of(source, boundaries[k]))
}

/// The rule of a run.
pub open spec fn rule_of(
    barcodes_file: Seq<u8>,
    bam_tag: Seq<char>,
    to_replace: Option<String>,
    replacement: Option<String>,
) -> Rule {
    Rule {
        tag: encode_utf8(bam_tag),
        substitution: substitution_of(to_replace, replacement),
        allowed: lines(barcodes_file).to_set(),
    }
}

/// The window behind each candidate.
fn windows_of(file: &[u8], candidates: &Vec<u64>) -> (windows: Vec<Vec<u8>>)
    requires
        forall|k: int| 0 <= k < candidates@.len() ==> candidates@[k] <= file@.len(),
    ensures
        windows@.len() == candidates@.len(),
        forall|k: int|
            0 <= k < candidates@.len() ==> (#[trigger] windows@[k])@ == window_at(
                file@,
                candidates@[k] as int,
            ),
{
    let len = file.len();
    let mut windows: Vec<Vec<u8>> = Vec::new();
    let mut k: usize = 0;
    while k < candidates.len()
        invariant
            len == file@.len(),
            0 <= k <= candidates@.len(),
            forall|j: int| 0 <= j < candidates@.len() ==> candidates@[j] <= file@.len(),
            windows@.len() == k,
            forall|j: int|
                0 <= j < k ==> (#[trigger] windows@[j])@ == window_at(
                    file@,
                    candidates@[j] as int,
                ),
        decreases candidates@.len() - k,
    {
        let at = candidates[k] as usize;
        let end = if len - at >= WINDOW_LEN {
            at + WINDOW_LEN
        } else {
            len
        };
        windows.push(slice_to_vec(slice_subrange(file, at, end)));
        k += 1;
    }
    windows
}

/// The chunk in which a record at the virtual offset `at` starts.
fn chunk_index(boundaries: &Vec<ChunkBoundary>, at: i64) -> (k: usize)
    requires
        partitions_file(boundaries@),
    ensures
        k < boundaries@.len(),
        chunk_holds(boundaries@[k as int], at),
{
    let mut k: usize = 0;
    while k < boundaries.len() - 1 && stops_by(boundaries[k], at)
        invariant
            partitions_file(boundaries@),
            0 <= k < boundaries@.len(),
            boundaries@[k as int].0 matches Some(start) ==> start <= at,
        decreases boundaries@.len() - k,
    {
        k += 1;
    }
    k
}

/// Whether the chunk `boundary` stops at or before `at`.
fn stops_by(boundary: ChunkBoundary, at: i64) -> (stopped: bool)
    ensures
        stopped == (boundary.1 matches Some(stop) && stop <= at),
{
    match boundary.1 {
        Some(stop) => stop <= at,
        None => false,
    }
}

/// Hands each record to the chunk in which it starts.
fn split_records(source: Vec<(i64, Record)>, boundaries: &Vec<ChunkBoundary>) -> (chunks: Vec<
    Vec<Record>,
>)
    requires
        partitions_file(boundaries@),
    ensures
        chunk_records(chunks@) == chunks_of(source@, boundaries@),
{
    let ghost all = source@;
    let mut chunks: Vec<Vec<Record>> = Vec::new();
    let mut n: usize = 0;
    while n < boundaries.len()
        invariant
            0 <= n <= boundaries@.len(),
            chunks@.len() == n,
            forall|k: int| 0 <= k < n ==> (#[trigger] chunks@[k])@.len() == 0,
        decreases boundaries@.len() - n,
    {
        chunks.push(Vec::new());
        n += 1;
    }
    assert(all.take(0) =~= Seq::empty());
    for entry in it: source
        invariant
            it.seq() == all,
            partitions_file(boundaries@),
            chunks@.len() == boundaries@.len(),
            forall|k: int|
                0 <= k < chunks@.len() ==> (#[trigger] chunks@[k])@ == chunk_of(
                    all.take(it.index()),
                    boundaries@[k],
                ),
    {
        let ghost at = it.index();
        let ghost before = chunks@;
        let (offset, rec) = entry;
        let ghost record = rec;
        let to = chunk_index(boundaries, offset);
        proof {
            lemma_partition_covers_once(boundaries@, offset);
            assert(all.take(at + 1).drop_last() =~= all.take(at));
            assert(all.take(at + 1).last() == all[at]);
            assert(all[at] == (offset, rec));
        }
        chunks[to].push(rec);
        proof {
            assert forall|k: int| 0 <= k < chunks@.len() implies (#[trigger] chunks@[k])@
                == chunk_of(all.take(at + 1), boundaries@[k]) by {
                if k == to {
                    assert(chunks@[k]@ == before[k]@.push(record));
                    assert(chunk_holds(boundaries@[k], offset));
                } else {
                    assert(chunks@[k] == before[k]);
                    assert(!chunk_holds(boundaries@[k], offset));
                }
            }
        }
    }
    proof {
        assert(all.take(all.len() as int) =~= all);
        assert(chunk_records(chunks@) =~= chunks_of(all, boundaries@));
    }
    chunks
}

/// Subsamples a source that is held in memory: the run from the planning
/// of the chunks to the joined output, with everything in it but the
/// reading and writing of files.
///
/// `bam_file` holds the bytes of the source and `source` its records in
/// their order, each with the virtual offset at which it starts;
/// `barcodes_file` holds the allow-list, one barcode on each line. The
/// source is cut into chunks for `cores` workers, each chunk goes through
/// `read_bam_slice` with its own task, and what the workers keep is joined
/// in the order of the chunks. An empty allow-list ends the run before any
/// of that. If a worker fails, so does the run, with the error of the first
/// chunk that failed.
///
/// What is written does not depend on `cores` or on where the chunks are
/// cut: it is what is kept of all records of the source, in their order.
pub fn subsample_bam(
    bam_file: &[u8],
    source: Vec<(i64, Record)>,
    barcodes_file: &[u8],
    bam_tag: String,
    to_replace: Option<String>,
    replacement: Option<String>,
    cores: usize,
) -> (written: Result<Vec<Record>, RunError>)
    requires
        bam_file@.len() <= MAX_FILE_SIZE,
    ensures
        written == Err::<Vec<Record>, RunError>(RunError::NoBarcodes) <==> barcodes_file@.len()
            == 0,
        barcodes_file@.len() > 0 && (forall|i: int|
            0 <= i < source@.len() ==> !rewrites(
                aux_fields((#[trigger] source@[i]).1),
                rule_of(barcodes_file@, bam_tag@, to_replace, replacement),
            )) ==> written is Ok,
        written matches Ok(out) ==> offsets_rise(source@) && (forall|i: int|
            0 <= i < source@.len() ==> appliable(
                (#[trigger] source@[i]).1,
                rule_of(barcodes_file@, bam_tag@, to_replace, replacement),
            )) ==> record_views(out@) == retained(
            record_views(records_of(source@)),
            rule_of(barcodes_file@, bam_tag@, to_replace, replacement),
        ),
        written is Ok ==> forall|i: int|
            0 <= i < source@.len() && rewrites(
                aux_fields((#[trigger] source@[i]).1),
                rule_of(barcodes_file@, bam_tag@, to_replace, replacement),
            ) ==> storable(
                new_text(
                    aux_fields(source@[i].1),
                    rule_of(barcodes_file@, bam_tag@, to_replace, replacement),
                ),
            ),
        written matches Err(e) ==> e == RunError::NoBarcodes || e == RunError::TagValue || e
            == RunError::TagNotStored,
        written matches Err(e) ==> e != RunError::NoBarcodes ==> exists|i: int|
            {
                &&& 0 <= i < source@.len()
                &&& rewrites(
                    aux_fields((#[trigger] source@[i]).1),
                    rule_of(barcodes_file@, bam_tag@, to_replace, replacement),
                )
                &&& e == RunError::TagValue <==> !storable(
                    new_text(
                        aux_fields(source@[i].1),
                        rule_of(barcodes_file@, bam_tag@, to_replace, replacement),
                    ),
                )
            },
{
    let ghost rule = rule_of(barcodes_file@, bam_tag@, to_replace, replacement);
    let ghost all = source@;
    let cell_barcodes = match load_barcodes(barcodes_file) {
        Ok(set) => set,
        Err(e) => {
            return Err(e);
        },
    };
    let num_chunks = chunk_count(cores);
    let file_size = bam_file.len() as u64;
    let candidates = candidate_offsets(file_size, num_chunks);
    let windows = windows_of(bam_file, &candidates);
    let boundaries = bgzf_noffsets(file_size, num_chunks, &windows);
    let tasks = slice_tasks(
        &cell_barcodes,
        bam_tag.as_str(),
        &to_replace,
        &replacement,
        &boundaries,
    );
    let chunks = split_records(source, &boundaries);
    let ghost cut = chunks_of(all, boundaries@);
    proof {
        assert forall|k: int| 0 <= k < tasks@.len() implies (#[trigger] tasks@[k]).rule()
            == rule by {
            assert(tasks@[k].rule().tag == rule.tag);
            assert(tasks@[k].rule().substitution == rule.substitution);
            assert(tasks@[k].rule().allowed == rule.allowed);
        }
        assert forall|k: int, i: int| 0 <= k < cut.len() && 0 <= i < cut[k].len() implies exists|
            j: int,
        |
            0 <= j < all.len() && (#[trigger] all[j]).1 == #[trigger] cut[k][i] by {
            lemma_chunk_is_of_source(all, boundaries@[k], i);
        }
    }
    let mut results: Vec<Result<Vec<Record>, RunError>> = Vec::new();
    let count = tasks.len();
    let mut k: usize = 0;
    for chunk in it: chunks
        invariant
            k == it.index(),
            chunk_records(it.seq()) == cut,
            tasks@.len() == cut.len(),
            tasks@.len() == count,
            forall|j: int| 0 <= j < tasks@.len() ==> (#[trigger] tasks@[j]).rule() == rule,
            results@.len() == k,
            forall|j: int|
                0 <= j < k ==> slice_result(cut[j], #[trigger] results@[j], rule),
    {
        let ghost records = chunk@;
        assert(records == cut[k as int]) by {
            assert(chunk_records(it.seq())[k as int] == it.seq()[k as int]@);
        }
        let result = read_bam_slice(&tasks[k], chunk);
        results.push(result);
        k += 1;
    }
    let ghost answers = results@;
    proof {
        assert(answers.len() == cut.len());
    }
    match gather(results) {
        Err(e) => {
            proof {
                let failed = choose|j: int|
                    0 <= j < answers.len() && #[trigger] answers[j] == Err::<
                        Vec<Record>,
                        RunError,
                    >(e);
                assert(slice_result(cut[failed], answers[failed], rule));
                let at = choose|i: int|
                    0 <= i < cut[failed].len() && rewrites(
                        aux_fields(#[trigger] cut[failed][i]),
                        rule,
                    );
                let j = choose|j: int|
                    0 <= j < all.len() && (#[trigger] all[j]).1 == cut[failed][at];
                assert(rewrites(aux_fields(all[j].1), rule));
            }
            Err(e)
        },
        Ok(outputs) => {
            let ghost kept = chunk_records(outputs@);
            let merged = merge_bams(outputs);
            proof {
                assert forall|j: int| 0 <= j < cut.len() implies answers[j] == Ok::<
                    Vec<Record>,
                    RunError,
                >(#[trigger] outputs@[j]) by {}
                assert forall|i: int|
                    0 <= i < all.len() && rewrites(
                        aux_fields((#[trigger] all[i]).1),
                        rule,
                    ) implies storable(new_text(aux_fields(all[i].1), rule)) by {
                    lemma_partition_covers_once(boundaries@, all[i].0);
                    let to = choose|to: int|
                        0 <= to < boundaries@.len() && chunk_holds(
                            #[trigger] boundaries@[to],
                            all[i].0,
                        );
                    lemma_source_is_in_chunk(all, boundaries@[to], i);
                    let at = choose|at: int|
                        0 <= at < cut[to].len() && cut[to][at] == all[i].1;
                    assert(slice_result(cut[to], answers[to], rule));
                }
                if offsets_rise(all) && (forall|i: int|
                    0 <= i < all.len() ==> appliable((#[trigger] all[i]).1, rule)) {
                    assert forall|j: int| 0 <= j < cut.len() implies record_views(
                        #[trigger] kept[j],
                    ) == retained(record_views(cut[j]), rule) by {
                        assert(slice_result(cut[j], answers[j], rule));
                        assert(kept[j] == outputs@[j]@);
                        assert forall|i: int| 0 <= i < cut[j].len() implies appliable(
                            #[trigger] cut[j][i],
                            rule,
                        ) by {
                            let at = choose|at: int|
                                0 <= at < all.len() && (#[trigger] all[at]).1 == cut[j][i];
                            assert(appliable(all[at].1, rule));
                        }
                    }
                    lemma_filter_complete(cut, kept, rule);
                    lemma_chunks_join_to_source(all, boundaries@);
                }
            }
            Ok(merged)
        },
    }
}

/// What `read_bam_slice` promises of its result, for the records and the
/// rule it was given.
spec fn slice_result(
    records: Seq<Record>,
    written: Result<Vec<Record>, RunError>,
    rule: Rule,
) -> bool {
    &&& (forall|i: int|
        0 <= i < records.len() ==> !rewrites(aux_fields(#[trigger] records[i]), rule))
        ==> written is Ok
    &&& written matches Ok(out) ==> (forall|i: int|
        0 <= i < records.len() ==> appliable(#[trigger] records[i], rule)) ==> record_views(out@)
        == retained(record_views(records), rule)
    &&& written is Ok ==> forall|i: int|
        0 <= i < records.len() && rewrites(aux_fields(#[trigger] records[i]), rule) ==> storable(
            new_text(aux_fields(records[i]), rule),
        )
    &&& written matches Err(e) ==> exists|i: int|
        {
            &&& 0 <= i < records.len()
            &&& rewrites(aux_fields(#[trigger] records[i]), rule)
            &&& e == RunError::TagValue <==> !storable(new_text(aux_fields(records[i]), rule))
            &&& e == RunError::TagValue || e == RunError::TagNotStored
        }
}

/// Each record of a chunk is a record of the source.
proof fn lemma_chunk_is_of_source(source: Source, boundary: ChunkBoundary, i: int)
    requires
        0 <= i < chunk_of(source, boundary).len(),
    ensures
        exists|j: int|
            0 <= j < source.len() && (#[trigger] source[j]).1 == chunk_of(source, boundary)[i],
    decreases source.len(),
{
    if source.len() > 0 {
        let earlier = chunk_of(source.drop_last(), boundary);
        if i < earlier.len() {
            lemma_chunk_is_of_source(source.drop_last(), boundary, i);
            let j = choose|j: int|
                0 <= j < source.drop_last().len() && (#[trigger] source.drop_last()[j]).1
                    == earlier[i];
            assert(source[j].1 == chunk_of(source, boundary)[i]);
        } else {
            assert(source[source.len() - 1].1 == chunk_of(source, boundary)[i]);
        }
    }
}

/// Each record of the source that starts in a chunk is a record of that
/// chunk.
proof fn lemma_source_is_in_chunk(source: Source, boundary: ChunkBoundary, j: int)
    requires
        0 <= j < source.len(),
        chunk_holds(boundary, source[j].0),
    ensures
        exists|i: int|
            0 <= i < chunk_of(source, boundary).len() && #[trigger] chunk_of(source, boundary)[i]
                == source[j].1,
    decreases source.len(),
{
    let earlier = chunk_of(source.drop_last(), boundary);
    if j < source.len() - 1 {
        lemma_source_is_in_chunk(source.drop_last(), boundary, j);
        let i = choose|i: int| 0 <= i < earlier.len() && #[trigger] earlier[i] == source[j].1;
        assert(chunk_of(source, boundary)[i] == source[j].1);
    } else {
        assert(chunk_of(source, boundary)[earlier.len() as int] == source[j].1);
    }
}

/// A chunk in which no record of the source starts is empty.
proof fn lemma_chunk_without_record(source: Source, boundary: ChunkBoundary)
    requires
        forall|j: int| 0 <= j < source.len() ==> !chunk_holds(boundary, (#[trigger] source[j]).0),
    ensures
        chunk_of(source, boundary).len() == 0,
    decreases source.len(),
{
    if source.len() > 0 {
        assert forall|j: int| 0 <= j < source.drop_last().len() implies !chunk_holds(
            boundary,
            (#[trigger] source.drop_last()[j]).0,
        ) by {
            assert(source.drop_last()[j] == source[j]);
        }
        lemma_chunk_without_record(source.drop_last(), boundary);
        assert(!chunk_holds(boundary, source[source.len() - 1].0));
    }
}

/// Sequences that are all empty join to the empty sequence.
proof fn lemma_flatten_of_empty<A>(parts: Seq<Seq<A>>)
    requires
        forall|k: int| 0 <= k < parts.len() ==> (#[trigger] parts[k]).len() == 0,
    ensures
        parts.flatten() == Seq::<A>::empty(),
    decreases parts.len(),
{
    if parts.len() > 0 {
        assert forall|k: int| 0 <= k < parts.drop_first().len() implies (
        #[trigger] parts.drop_first()[k]).len() == 0 by {
            assert(parts.drop_first()[k] == parts[k + 1]);
        }
        lemma_flatten_of_empty(parts.drop_first());
        assert(parts.first().len() == 0);
        assert(parts.flatten() =~= Seq::<A>::empty());
    }
}

/// Where all parts behind the `k`-th are empty, an item added to the `k`-th
/// is added to the parts joined.
proof fn lemma_flatten_with_added<A>(parts: Seq<Seq<A>>, k: int, item: A)
    requires
        0 <= k < parts.len(),
        forall|j: int| k < j < parts.len() ==> (#[trigger] parts[j]).len() == 0,
    ensures
        parts.update(k, parts[k].push(item)).flatten() == parts.flatten().push(item),
{
    let front = parts.take(k);
    let back = parts.skip(k + 1);
    let grown = parts.update(k, parts[k].push(item));
    assert(parts =~= front + seq![parts[k]] + back);
    assert(grown =~= front + seq![parts[k].push(item)] + back);
    assert forall|j: int| 0 <= j < back.len() implies (#[trigger] back[j]).len() == 0 by {
        assert(back[j] == parts[k + 1 + j]);
    }
    lemma_flatten_of_empty(back);
    lemma_flatten_concat(front + seq![parts[k]], back);
    lemma_flatten_concat(front, seq![parts[k]]);
    lemma_flatten_concat(front + seq![parts[k].push(item)], back);
    lemma_flatten_concat(front, seq![parts[k].push(item)]);
    seq![parts[k]].lemma_flatten_one_element();
    seq![parts[k].push(item)].lemma_flatten_one_element();
    assert(parts.flatten() =~= front.flatten() + parts[k]);
    assert(grown.flatten() =~= front.flatten() + parts[k].push(item));
    assert(grown.flatten() =~= parts.flatten().push(item));
}

/// The chunks of a partition, joined in their order, are the source: where
/// the records stand in the order of their offsets, cutting the source into
/// chunks neither loses a record nor repeats one nor moves one past another.
pub proof fn lemma_chunks_join_to_source(source: Source, boundaries: Seq<ChunkBoundary>)
    requires
        partitions_file(boundaries),
        offsets_rise(source),
    ensures
        chunks_of(source, boundaries).flatten() == records_of(source),
    decreases source.len(),
{
    let chunks = chunks_of(source, boundaries);
    if source.len() == 0 {
        assert forall|k: int| 0 <= k < chunks.len() implies (#[trigger] chunks[k]).len() == 0 by {}
        lemma_flatten_of_empty(chunks);
        assert(records_of(source) =~= Seq::<Record>::empty());
    } else {
        let earlier = source.drop_last();
        let last = source.last();
        let before = chunks_of(earlier, boundaries);
        assert(offsets_rise(earlier)) by {
            assert forall|i: int, j: int| 0 <= i <= j < earlier.len() implies earlier[i].0
                <= earlier[j].0 by {
                assert(earlier[i] == source[i] && earlier[j] == source[j]);
            }
        }
        lemma_chunks_join_to_source(earlier, boundaries);
        lemma_partition_covers_once(boundaries, last.0);
        let to = choose|to: int|
            0 <= to < boundaries.len() && chunk_holds(#[trigger] boundaries[to], last.0);
        assert forall|k: int| to < k < before.len() implies (#[trigger] before[k]).len() == 0 by {
            assert forall|j: int| 0 <= j < earlier.len() implies !chunk_holds(
                boundaries[k],
                (#[trigger] earlier[j]).0,
            ) by {
                assert(earlier[j] == source[j]);
                assert(source[j].0 <= source[source.len() - 1].0);
                assert(boundaries[to].1 is Some);
                assert(boundaries[k - 1].1 is Some);
                assert(boundaries[k].0 == boundaries[k - 1].1);
                if to < k - 1 {
                    assert(boundaries[to].1->0 < boundaries[k - 1].1->0);
                }
            }
            lemma_chunk_without_record(earlier, boundaries[k]);
        }
        assert(chunks =~= before.update(to, before[to].push(last.1))) by {
            assert forall|k: int| 0 <= k < chunks.len() implies chunks[k] == before.update(
                to,
                before[to].push(last.1),
            )[k] by {
                if k != to {
                    assert(!chunk_holds(boundaries[k], last.0));
                }
            }
        }
        lemma_flatten_with_added(before, to, last.1);
        assert(records_of(source) =~= records_of(earlier).push(last.1));
    }
}

/// What is kept of two runs of records, one after the other, is what is
/// kept of the first followed by what is kept of the second.
pub proof fn lemma_retained_of_joined(first: Seq<RecordView>, second: Seq<RecordView>, rule: Rule)
    ensures
        retained(first + second, rule) == retained(first, rule) + retained(second, rule),
    decreases second.len(),
{
    let each = |record: RecordView| outcome(record, rule);
    if second.len() == 0 {
        assert(first + second =~= first);
        assert(retained(first, rule) + retained(second, rule) =~= retained(first, rule));
    } else {
        lemma_retained_of_joined(first, second.drop_last(), rule);
        assert((first + second).drop_last() =~= first + second.drop_last());
        assert((first + second).last() == second.last());
        assert(retained(first + second, rule) =~= retained(first, rule) + retained(second, rule));
    }
}

/// Filter completeness: however the records of a source are cut into
/// chunks, what the workers keep of their chunks, joined in the chunks'
/// order, is what is kept of all records of the source in their order.
///
/// `source` holds the records of each chunk and `written` what the worker of
/// each chunk handed back.
pub proof fn lemma_filter_complete(
    source: Seq<Seq<Record>>,
    written: Seq<Seq<Record>>,
    rule: Rule,
)
    requires
        written.len() == source.len(),
        forall|k: int|
            0 <= k < source.len() ==> record_views(#[trigger] written[k]) == retained(
                record_views(source[k]),
                rule,
            ),
    ensures
        record_views(written.flatten()) == retained(record_views(source.flatten()), rule),
    decreases source.len(),
{
    if source.len() == 0 {
        assert(record_views(written.flatten()) =~= retained(
            record_views(source.flatten()),
            rule,
        ));
    } else {
        assert forall|k: int| 0 <= k < source.drop_first().len() implies record_views(
            #[trigger] written.drop_first()[k],
        ) == retained(record_views(source.drop_first()[k]), rule) by {
            assert(written.drop_first()[k] == written[k + 1]);
            assert(source.drop_first()[k] == source[k + 1]);
        }
        lemma_filter_complete(source.drop_first(), written.drop_first(), rule);
        lemma_retained_of_joined(
            record_views(source.first()),
            record_views(source.drop_first().flatten()),
            rule,
        );
        assert(record_views(source.first() + source.drop_first().flatten()) =~= record_views(
            source.first(),
        ) + record_views(source.drop_first().flatten()));
        assert(record_views(written.first() + written.drop_first().flatten()) =~= record_views(
            written.first(),
        ) + record_views(written.drop_first().flatten()));
        assert(written.first() == written[0]);
        assert(source.first() == source[0]);
    }
}

/// Determinism: two runs over the same chunks keep the same records in the
/// same order.
pub proof fn lemma_runs_agree(
    source: Seq<Seq<Record>>,
    first: Seq<Seq<Record>>,
    second: Seq<Seq<Record>>,
    rule: Rule,
)
    requires
        first.len() == source.len(),
        second.len() == source.len(),
        forall|k: int|
            0 <= k < source.len() ==> record_views(#[trigger] first[k]) == retained(
                record_views(source[k]),
                rule,
            ),
        forall|k: int|
            0 <= k < source.len() ==> record_views(#[trigger] second[k]) == retained(
                record_views(source[k]),
                rule,
            ),
    ensures
        record_views(first.flatten()) == record_views(second.flatten()),
{
    lemma_filter_complete(source, first, rule);
    lemma_filter_complete(source, second, rule);
}

/// Parallelism invariance: two runs over the same records keep the same
/// records in the same order, in however many chunks each of them cut the
/// source.
pub proof fn lemma_parallelism_invariant(
    one_source: Seq<Seq<Record>>,
    one_written: Seq<Seq<Record>>,
    other_source: Seq<Seq<Record>>,
    other_written: Seq<Seq<Record>>,
    rule: Rule,
)
    requires
        one_source.flatten() == other_source.flatten(),
        one_written.len() == one_source.len(),
        other_written.len() == other_source.len(),
        forall|k: int|
            0 <= k < one_source.len() ==> record_views(#[trigger] one_written[k]) == retained(
                record_views(one_source[k]),
                rule,
            ),
        forall|k: int|
            0 <= k < other_source.len() ==> record_views(#[trigger] other_written[k])
                == retained(record_views(other_source[k]), rule),
    ensures
        record_views(one_written.flatten()) == record_views(other_written.flatten()),
{
    lemma_filter_complete(one_source, one_written, rule);
    lemma_filter_complete(other_source, other_written, rule);
}

} // verus!
