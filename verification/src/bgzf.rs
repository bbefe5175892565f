//! Splitting a block-compressed file into byte ranges that start on block starts.
//!
//! A block-compressed file is a run of independent blocks, each at most 64 KiB
//! long and each opened by the same four bytes. To cut such a file into chunks
//! without an index, the planner spreads candidate offsets evenly over the file
//! and moves each one forward to the next place that looks like a block start.
//! The planner never touches the file: the caller reads, for every candidate, the
//! bytes that follow it (a *window*) and hands the windows over.

use vstd::prelude::*;
use vstd::slice::slice_subrange;

verus! {

/// Fewest bytes a block can have: its fixed header, one extra field and nothing else.
pub const MIN_BLOCK_LEN: usize = 18;

/// Most bytes a block can have, and so the number of positions that are tried
/// after a candidate before it is given up.
pub const MAX_BLOCK_LEN: usize = 65536;

/// As many bytes behind a candidate as the search for a block start can look
/// at: a window of this length, or one that ends with the file, shows all
/// there is to see.
pub const WINDOW_LEN: usize = MAX_BLOCK_LEN + MIN_BLOCK_LEN;

/// Largest file size the planner takes. Every block start that it can report for
/// such a file still fits a signed 64-bit virtual offset.
pub const MAX_FILE_SIZE: u64 = 0x7FFF_FFFF_0000;

/// A chunk of the file: where it starts and where it stops, as virtual offsets.
/// `None` as start is the beginning of the file, `None` as stop is its end.
pub type ChunkBoundary = (Option<i64>, Option<i64>);

/// The bytes that open every block.
pub open spec fn block_magic() -> Seq<u8> {
    seq![31u8, 139u8, 8u8, 4u8]
}

/// `block` is long enough for a block and opens with the magic bytes.
pub open spec fn is_block_start(block: Seq<u8>) -> bool {
    &&& block.len() >= MIN_BLOCK_LEN
    &&& block.take(4) =~= block_magic()
}

/// The virtual offset of the first record of the block at `block_offset`.
///
/// A virtual offset holds the block's offset in the file in its upper 48 bits
/// and the offset of a record inside the inflated block in its lower 16.
pub open spec fn virtual_offset(block_offset: int) -> int {
    block_offset * 65536
}

/// The `k`-th of the evenly spaced offsets (counted from 0) at which a file of
/// `file_size` bytes would be cut into `num_chunks` chunks.
pub open spec fn candidate(file_size: u64, num_chunks: u64, k: int) -> int {
    (file_size / num_chunks) * (k + 1)
}

/// All candidate offsets, in increasing order: one fewer than there are chunks.
pub open spec fn planned_candidates(file_size: u64, num_chunks: u64) -> Seq<u64> {
    Seq::new((num_chunks - 1) as nat, |k: int| candidate(file_size, num_chunks, k) as u64)
}

/// A block starts `i` bytes into `window`.
pub open spec fn block_starts_at(window: Seq<u8>, i: int) -> bool {
    0 <= i <= window.len() && is_block_start(window.skip(i))
}

/// `i` is the first position of `window`, among the first `MAX_BLOCK_LEN`, at
/// which a block starts.
pub open spec fn is_first_block_start(window: Seq<u8>, i: int) -> bool {
    &&& 0 <= i < MAX_BLOCK_LEN
    &&& block_starts_at(window, i)
    &&& forall|j: int| 0 <= j < i ==> !block_starts_at(window, j)
}

/// The first position of `window`, among the first `MAX_BLOCK_LEN`, at which a
/// block starts; `None` if there is none.
pub open spec fn first_block_start(window: Seq<u8>) -> Option<int> {
    if exists|i: int| is_first_block_start(window, i) {
        Some(choose|i: int| is_first_block_start(window, i))
    } else {
        None
    }
}

/// The bytes of `file` that the search for a block start looks at from `at`
/// on: `WINDOW_LEN` of them, or all that are left.
pub open spec fn window_at(file: Seq<u8>, at: int) -> Seq<u8> {
    if at + WINDOW_LEN <= file.len() {
        file.subrange(at, at + WINDOW_LEN)
    } else {
        file.skip(at)
    }
}

/// The windows of `file` at `candidates`.
pub open spec fn windows_at(file: Seq<u8>, candidates: Seq<u64>) -> Seq<Seq<u8>> {
    Seq::new(candidates.len(), |k: int| window_at(file, candidates[k] as int))
}

/// The candidates moved forward to the block start found in their window, in
/// the candidates' order. A candidate whose window shows no block start is
/// left out.
pub open spec fn adjusted_offsets(candidates: Seq<u64>, windows: Seq<Seq<u8>>) -> Seq<int>
    recommends
        candidates.len() <= windows.len(),
    decreases candidates.len(),
{
    if candidates.len() == 0 {
        Seq::empty()
    } else {
        let k = candidates.len() - 1;
        let earlier = adjusted_offsets(candidates.drop_last(), windows);
        match first_block_start(windows[k]) {
            Some(i) => earlier.push(candidates[k] + i),
            None => earlier,
        }
    }
}

/// `offsets` without every entry that is not above all entries before it.
/// On offsets that never decrease this removes the repeated ones and nothing
/// else.
pub open spec fn rising(offsets: Seq<int>) -> Seq<int>
    decreases offsets.len(),
{
    if offsets.len() == 0 {
        Seq::empty()
    } else {
        let earlier = rising(offsets.drop_last());
        if earlier.len() == 0 || earlier.last() < offsets.last() {
            earlier.push(offsets.last())
        } else {
            earlier
        }
    }
}

/// The chunks that the block starts `cuts` divide a file into. With fewer than
/// two cuts the file stays in one piece.
pub open spec fn boundaries_between(cuts: Seq<int>) -> Seq<ChunkBoundary> {
    if cuts.len() < 2 {
        seq![(None, None)]
    } else {
        Seq::new(
            cuts.len() + 1,
            |k: int|
                (
                    if k == 0 {
                        None
                    } else {
                        Some(virtual_offset(cuts[k - 1]) as i64)
                    },
                    if k == cuts.len() {
                        None
                    } else {
                        Some(virtual_offset(cuts[k]) as i64)
                    },
                ),
        )
    }
}

/// The chunk boundaries planned for a file of `file_size` bytes that is to be
/// cut into `num_chunks` chunks, where `windows[k]` holds the bytes of the file
/// from the `k`-th candidate offset on.
pub open spec fn planned_boundaries(file_size: u64, num_chunks: u64, windows: Seq<Seq<u8>>) -> Seq<
    ChunkBoundary,
> {
    boundaries_between(
        rising(adjusted_offsets(planned_candidates(file_size, num_chunks), windows)),
    )
}

/// The boundaries follow one another without gap or overlap from the beginning
/// of the file to its end, and every cut between two of them is the virtual
/// offset of a block start.
pub open spec fn partitions_file(boundaries: Seq<ChunkBoundary>) -> bool {
    &&& boundaries.len() >= 1
    &&& boundaries[0].0 is None
    &&& boundaries.last().1 is None
    &&& forall|k: int|
        0 <= k < boundaries.len() - 1 ==> {
            &&& (#[trigger] boundaries[k]).1 is Some
            &&& boundaries[k].1->0 >= 0
            &&& boundaries[k].1->0 % 65536 == 0
        }
    &&& forall|j: int, k: int|
        0 <= j < boundaries.len() - 1 && k == j + 1 ==> (#[trigger] boundaries[k]).0 == (
        #[trigger] boundaries[j]).1
    &&& forall|j: int, k: int|
        0 <= j < k < boundaries.len() - 1 ==> (#[trigger] boundaries[j]).1->0 < (
        #[trigger] boundaries[k]).1->0
}

/// The record at virtual offset `at` belongs to the chunk `boundary`.
pub open spec fn chunk_holds(boundary: ChunkBoundary, at: i64) -> bool {
    &&& boundary.0 matches Some(start) ==> start <= at
    &&& boundary.1 matches Some(stop) ==> at < stop
}

/// Whether `block` looks like the start of a block: it is at least
/// `MIN_BLOCK_LEN` bytes long and its first four bytes are the magic bytes.
/// The rest of the header is not looked at, so bytes inside a block can pass.
pub fn is_valid_bgzf_block(block: &[u8]) -> (valid: bool)
    ensures
        valid == is_block_start(block@),
{
    if block.len() < MIN_BLOCK_LEN {
        return false;
    }
    if block[0] != 31 || block[1] != 139 || block[2] != 8 || block[3] != 4 {
        proof {
            let head = block@.take(4);
            assert(head[0] == block@[0] && head[1] == block@[1] && head[2] == block@[2] && head[3]
                == block@[3]);
        }
        return false;
    }
    true
}

/// The evenly spaced offsets from which the search for block starts sets out:
/// the multiples of `file_size / num_chunks`, from the first to the
/// `num_chunks - 1`-th. The caller reads a window at each of them.
pub fn candidate_offsets(file_size: u64, num_chunks: u64) -> (offsets: Vec<u64>)
    requires
        num_chunks >= 1,
    ensures
        offsets@ == planned_candidates(file_size, num_chunks),
        forall|k: int| 0 <= k < offsets@.len() ==> offsets@[k] <= file_size,
{
    let step = file_size / num_chunks;
    let mut offsets: Vec<u64> = Vec::new();
    let mut n: u64 = 1;
    while n < num_chunks
        invariant
            1 <= n <= num_chunks,
            step == file_size / num_chunks,
            offsets@.len() == n - 1,
            forall|k: int|
                0 <= k < offsets@.len() ==> offsets@[k] == candidate(file_size, num_chunks, k)
                    && offsets@[k] <= file_size,
        decreases num_chunks - n,
    {
        proof {
            lemma_candidate_within_file(file_size, num_chunks, n - 1);
        }
        offsets.push(step * n);
        n += 1;
    }
    assert(offsets@ =~= planned_candidates(file_size, num_chunks));
    offsets
}

/// The first position of `window`, among the first `MAX_BLOCK_LEN`, from which
/// on the bytes pass `is_valid_bgzf_block`.
pub fn find_block_start(window: &[u8]) -> (found: Option<usize>)
    ensures
        found matches Some(i) ==> is_first_block_start(window@, i as int),
        found is None ==> forall|j: int| 0 <= j < MAX_BLOCK_LEN ==> !block_starts_at(window@, j),
        match found {
            Some(i) => first_block_start(window@) == Some(i as int),
            None => first_block_start(window@) is None,
        },
{
    let len = window.len();
    let mut i: usize = 0;
    while i < MAX_BLOCK_LEN && i < len
        invariant
            len == window@.len(),
            0 <= i <= MAX_BLOCK_LEN,
            i <= len,
            forall|j: int| 0 <= j < i ==> !block_starts_at(window@, j),
        decreases MAX_BLOCK_LEN - i,
    {
        if is_valid_bgzf_block(slice_subrange(window, i, len)) {
            proof {
                lemma_first_block_start_is(window@, i as int);
            }
            return Some(i);
        }
        i += 1;
    }
    proof {
        assert forall|j: int| 0 <= j < MAX_BLOCK_LEN implies !block_starts_at(window@, j) by {
            if i <= j && j <= len {
                assert(window@.skip(j).len() < MIN_BLOCK_LEN);
            }
        }
    }
    None
}

/// Plans the chunks of a file of `file_size` bytes that `num_chunks` workers
/// are to share.
///
/// `windows[k]` holds the bytes of the file from `candidate_offsets(file_size,
/// num_chunks)[k]` on, as many as the caller could read; `WINDOW_LEN` of them
/// are enough. Each candidate moves forward to the first
/// block start in its window and is dropped if there is none. Of the offsets so
/// found, those that do not lie above all the ones before are dropped too, and
/// the rest cut the file: from its beginning to the first cut, from cut to cut,
/// and from the last cut to its end. With fewer than two cuts, and so always
/// with one or two chunks asked for, the file stays in one piece.
pub fn bgzf_noffsets(file_size: u64, num_chunks: u64, windows: &Vec<Vec<u8>>) -> (boundaries: Vec<
    ChunkBoundary,
>)
    requires
        num_chunks >= 1,
        file_size <= MAX_FILE_SIZE,
        windows@.len() == num_chunks - 1,
    ensures
        boundaries@ == planned_boundaries(file_size, num_chunks, windows.deep_view()),
        num_chunks == 1 ==> boundaries@ == seq![(None::<i64>, None::<i64>)],
        partitions_file(boundaries@),
        1 <= boundaries@.len() <= num_chunks,
{
    let candidates = candidate_offsets(file_size, num_chunks);
    let ghost all_windows = windows.deep_view();
    let mut cuts: Vec<u64> = Vec::new();
    let mut k: usize = 0;
    while k < candidates.len()
        invariant
            0 <= k <= candidates@.len(),
            candidates@.len() == windows@.len(),
            all_windows == windows.deep_view(),
            file_size <= MAX_FILE_SIZE,
            forall|j: int| 0 <= j < candidates@.len() ==> candidates@[j] <= file_size,
            cuts@.len() <= k,
            cuts@.map_values(|c: u64| c as int) == rising(
                adjusted_offsets(candidates@.take(k as int), all_windows),
            ),
            forall|j: int| 0 <= j < cuts@.len() ==> cuts@[j] < file_size + MAX_BLOCK_LEN,
        decreases candidates@.len() - k,
    {
        let ghost before = adjusted_offsets(candidates@.take(k as int), all_windows);
        proof {
            assert(candidates@.take(k + 1).drop_last() =~= candidates@.take(k as int));
            assert(all_windows[k as int] == windows@[k as int]@);
        }
        match find_block_start(windows[k].as_slice()) {
            Some(i) => {
                let offset = candidates[k] + i as u64;
                let ghost after = before.push(offset as int);
                proof {
                    assert(adjusted_offsets(candidates@.take(k + 1), all_windows) == after);
                    assert(after.drop_last() =~= before);
                }
                if cuts.len() == 0 || cuts[cuts.len() - 1] < offset {
                    let ghost old_cuts = cuts@;
                    cuts.push(offset);
                    assert(cuts@.map_values(|c: u64| c as int) =~= old_cuts.map_values(
                        |c: u64| c as int,
                    ).push(offset as int));
                }
            },
            None => {
                proof {
                    assert(adjusted_offsets(candidates@.take(k + 1), all_windows) == before);
                }
            },
        }
        k += 1;
    }
    proof {
        assert(candidates@.take(k as int) =~= candidates@);
        let kept = rising(adjusted_offsets(candidates@, all_windows));
        lemma_rising_is_increasing(adjusted_offsets(candidates@, all_windows));
        assert forall|i: int, j: int| 0 <= i < j < cuts@.len() implies cuts@[i] < cuts@[j] by {
            assert(kept[i] == cuts@[i] && kept[j] == cuts@[j]);
        }
    }
    let boundaries = chunk_boundaries(&cuts);
    proof {
        if num_chunks == 1 {
            assert(cuts@.len() == 0);
        }
    }
    boundaries
}

/// Turns block starts into chunk boundaries: from the beginning of the file to
/// the first cut, from each cut to the next, and from the last cut to the end
/// of the file; each cut as the virtual offset of the block's first record,
/// which is the block's offset shifted left by 16 bits. With fewer than two
/// cuts the one chunk is the whole file.
fn chunk_boundaries(cuts: &Vec<u64>) -> (boundaries: Vec<ChunkBoundary>)
    requires
        forall|j: int| 0 <= j < cuts@.len() ==> cuts@[j] < MAX_FILE_SIZE + MAX_BLOCK_LEN,
        forall|i: int, j: int| 0 <= i < j < cuts@.len() ==> cuts@[i] < cuts@[j],
    ensures
        boundaries@ == boundaries_between(cuts@.map_values(|c: u64| c as int)),
        partitions_file(boundaries@),
        boundaries@.len() == if cuts@.len() < 2 {
            1
        } else {
            cuts@.len() + 1
        },
{
    let ghost offsets = cuts@.map_values(|c: u64| c as int);
    let mut boundaries: Vec<ChunkBoundary> = Vec::new();
    if cuts.len() < 2 {
        boundaries.push((None, None));
        assert(boundaries@ =~= boundaries_between(offsets));
        return boundaries;
    }
    let mut start: Option<i64> = None;
    let mut k: usize = 0;
    while k < cuts.len()
        invariant
            0 <= k <= cuts@.len(),
            cuts@.len() >= 2,
            offsets == cuts@.map_values(|c: u64| c as int),
            forall|j: int| 0 <= j < cuts@.len() ==> cuts@[j] < MAX_FILE_SIZE + MAX_BLOCK_LEN,
            boundaries@.len() == k,
            start == boundaries_between(offsets)[k as int].0,
            forall|j: int| 0 <= j < k ==> boundaries@[j] == boundaries_between(offsets)[j],
        decreases cuts@.len() - k,
    {
        let stop = to_virtual_offset(cuts[k]);
        boundaries.push((start, Some(stop)));
        start = Some(stop);
        k += 1;
    }
    boundaries.push((start, None));
    proof {
        assert(boundaries@ =~= boundaries_between(offsets));
        lemma_boundaries_partition(offsets);
    }
    boundaries
}

/// The virtual offset of the first record of the block at `block_offset`.
pub fn to_virtual_offset(block_offset: u64) -> (at: i64)
    requires
        block_offset < MAX_FILE_SIZE + MAX_BLOCK_LEN,
    ensures
        at == virtual_offset(block_offset as int),
        at == (block_offset << 16),
        at >= 0,
        at % 65536 == 0,
{
    assert(block_offset << 16 == block_offset * 65536) by (bit_vector)
        requires
            block_offset < 0x8000_0000_0000u64,
    ;
    (block_offset * 65536) as i64
}

/// Every candidate lies inside the file.
pub proof fn lemma_candidate_within_file(file_size: u64, num_chunks: u64, k: int)
    requires
        num_chunks >= 1,
        0 <= k < num_chunks - 1,
    ensures
        0 <= candidate(file_size, num_chunks, k) <= file_size,
{
    let step = (file_size / num_chunks) as int;
    let n = num_chunks as int;
    assert(step * n <= file_size) by (nonlinear_arith)
        requires
            step == file_size as int / n,
            n >= 1,
            file_size >= 0,
    ;
    assert(0 <= step * (k + 1) <= step * n) by (nonlinear_arith)
        requires
            0 <= k + 1 <= n,
            step >= 0,
    ;
}

/// A position at which a block starts and before which none does is what
/// `first_block_start` gives.
proof fn lemma_first_block_start_is(window: Seq<u8>, i: int)
    requires
        is_first_block_start(window, i),
    ensures
        first_block_start(window) == Some(i),
{
    let chosen = choose|c: int| is_first_block_start(window, c);
    assert(is_first_block_start(window, chosen));
    if chosen < i {
        assert(!block_starts_at(window, chosen));
    }
    if i < chosen {
        assert(!block_starts_at(window, i));
    }
}

/// What `rising` keeps is strictly increasing, and each entry kept is one of
/// the offsets given.
pub proof fn lemma_rising_is_increasing(offsets: Seq<int>)
    ensures
        forall|i: int, j: int|
            0 <= i < j < rising(offsets).len() ==> rising(offsets)[i] < rising(offsets)[j],
        forall|i: int| 0 <= i < rising(offsets).len() ==> offsets.contains(rising(offsets)[i]),
        rising(offsets).len() <= offsets.len(),
    decreases offsets.len(),
{
    if offsets.len() > 0 {
        let earlier = rising(offsets.drop_last());
        lemma_rising_is_increasing(offsets.drop_last());
        assert forall|i: int| 0 <= i < rising(offsets).len() implies offsets.contains(
            rising(offsets)[i],
        ) by {
            if i < earlier.len() {
                let at = choose|at: int|
                    0 <= at < offsets.drop_last().len() && offsets.drop_last()[at] == earlier[i];
                assert(offsets[at] == earlier[i]);
            } else {
                assert(offsets[offsets.len() - 1] == rising(offsets)[i]);
            }
        }
    }
}

/// On offsets that never decrease, `rising` drops the repeated ones and
/// nothing else: every offset given is still there.
pub proof fn lemma_rising_keeps_every_offset(offsets: Seq<int>)
    requires
        forall|i: int, j: int| 0 <= i <= j < offsets.len() ==> offsets[i] <= offsets[j],
    ensures
        rising(offsets).to_set() == offsets.to_set(),
        offsets.len() > 0 ==> rising(offsets).len() > 0 && rising(offsets).last()
            == offsets.last(),
    decreases offsets.len(),
{
    if offsets.len() == 0 {
        assert(rising(offsets).to_set() =~= offsets.to_set());
    } else {
        let earlier = offsets.drop_last();
        let kept = rising(earlier);
        assert forall|i: int, j: int| 0 <= i <= j < earlier.len() implies earlier[i]
            <= earlier[j] by {
            assert(earlier[i] == offsets[i] && earlier[j] == offsets[j]);
        }
        lemma_rising_keeps_every_offset(earlier);
        if earlier.len() > 0 {
            assert(earlier.last() == offsets[offsets.len() - 2]);
        }
        assert forall|x: int| rising(offsets).to_set().contains(x) implies offsets.to_set()
            .contains(x) by {
            let at = choose|at: int| 0 <= at < rising(offsets).len() && rising(offsets)[at] == x;
            if at < kept.len() {
                assert(kept.to_set().contains(x));
                let from = choose|from: int| 0 <= from < earlier.len() && earlier[from] == x;
                assert(offsets[from] == x);
            } else {
                assert(offsets[offsets.len() - 1] == x);
            }
        }
        assert forall|x: int| offsets.to_set().contains(x) implies rising(offsets).to_set()
            .contains(x) by {
            let from = choose|from: int| 0 <= from < offsets.len() && offsets[from] == x;
            if from < earlier.len() {
                assert(earlier[from] == x);
                assert(earlier.to_set().contains(x));
                let at = choose|at: int| 0 <= at < kept.len() && kept[at] == x;
                assert(rising(offsets)[at] == x);
            } else {
                assert(rising(offsets).last() == x);
                assert(rising(offsets)[rising(offsets).len() - 1] == x);
            }
        }
        assert(rising(offsets).to_set() =~= offsets.to_set());
    }
}

/// A window shows a block start where the file has one.
proof fn lemma_window_shows_file(file: Seq<u8>, at: int, i: int)
    requires
        0 <= at <= file.len(),
        0 <= i < MAX_BLOCK_LEN,
    ensures
        block_starts_at(window_at(file, at), i) == block_starts_at(file, at + i),
{
    let window = window_at(file, at);
    if at + WINDOW_LEN <= file.len() {
        assert(window.skip(i).take(4) =~= file.skip(at + i).take(4));
    } else if at + i <= file.len() {
        assert(window.skip(i) =~= file.skip(at + i));
    }
}

/// What a candidate moves to, if anything, is the first block start of the
/// file at or behind the candidate.
proof fn lemma_first_block_start_in_file(file: Seq<u8>, at: int)
    requires
        0 <= at <= file.len(),
    ensures
        match first_block_start(window_at(file, at)) {
            Some(i) => {
                &&& 0 <= i < MAX_BLOCK_LEN
                &&& block_starts_at(file, at + i)
                &&& forall|p: int| at <= p < at + i ==> !block_starts_at(file, p)
            },
            None => forall|p: int| at <= p < at + MAX_BLOCK_LEN ==> !block_starts_at(file, p),
        },
{
    let window = window_at(file, at);
    match first_block_start(window) {
        Some(i) => {
            assert(is_first_block_start(window, i));
            lemma_window_shows_file(file, at, i);
            assert forall|p: int| at <= p < at + i implies !block_starts_at(file, p) by {
                lemma_window_shows_file(file, at, p - at);
                assert(!block_starts_at(window, p - at));
            }
        },
        None => {
            assert forall|p: int| at <= p < at + MAX_BLOCK_LEN implies !block_starts_at(
                file,
                p,
            ) by {
                lemma_window_shows_file(file, at, p - at);
                if block_starts_at(window, p - at) {
                    lemma_least_block_start(window, p - at);
                }
            }
        },
    }
}

/// Where a block starts among the first `MAX_BLOCK_LEN` positions of a
/// window, there is a first such position.
proof fn lemma_least_block_start(window: Seq<u8>, i: int)
    requires
        0 <= i < MAX_BLOCK_LEN,
        block_starts_at(window, i),
    ensures
        exists|first: int| is_first_block_start(window, first),
    decreases i,
{
    if exists|j: int| 0 <= j < i && block_starts_at(window, j) {
        let j = choose|j: int| 0 <= j < i && block_starts_at(window, j);
        lemma_least_block_start(window, j);
    } else {
        assert(is_first_block_start(window, i));
    }
}

/// Each block start found lies at or behind the candidate of its window.
proof fn lemma_adjusted_offsets_come_from(file: Seq<u8>, candidates: Seq<u64>, n: int, at: int)
    requires
        0 <= n <= candidates.len(),
        0 <= at < adjusted_offsets(candidates.take(n), windows_at(file, candidates)).len(),
    ensures
        exists|k: int|
            0 <= k < n && #[trigger] first_block_start(window_at(file, candidates[k] as int))
                == Some(
                adjusted_offsets(candidates.take(n), windows_at(file, candidates))[at]
                    - candidates[k],
            ),
    decreases n,
{
    let windows = windows_at(file, candidates);
    if n > 0 {
        let earlier = adjusted_offsets(candidates.take(n - 1), windows);
        assert(candidates.take(n).drop_last() =~= candidates.take(n - 1));
        assert(windows[n - 1] == window_at(file, candidates[n - 1] as int));
        if at < earlier.len() {
            lemma_adjusted_offsets_come_from(file, candidates, n - 1, at);
        } else {
            assert(first_block_start(window_at(file, candidates[n - 1] as int)) == Some(
                adjusted_offsets(candidates.take(n), windows)[at] - candidates[n - 1],
            ));
        }
    }
}

/// In the windows of one file, the block starts found never fall back from
/// one candidate to the next. So `rising` drops of them the repeated ones
/// and nothing else.
pub proof fn lemma_block_starts_of_a_file_never_fall(file: Seq<u8>, candidates: Seq<u64>)
    requires
        forall|k: int| 0 <= k < candidates.len() ==> candidates[k] <= file.len(),
        forall|j: int, k: int| 0 <= j <= k < candidates.len() ==> candidates[j] <= candidates[k],
    ensures
        forall|i: int, j: int|
            0 <= i <= j < adjusted_offsets(candidates, windows_at(file, candidates)).len()
                ==> adjusted_offsets(candidates, windows_at(file, candidates))[i]
                <= adjusted_offsets(candidates, windows_at(file, candidates))[j],
        rising(adjusted_offsets(candidates, windows_at(file, candidates))).to_set()
            == adjusted_offsets(candidates, windows_at(file, candidates)).to_set(),
{
    lemma_block_starts_never_fall_so_far(file, candidates, candidates.len() as int);
    assert(candidates.take(candidates.len() as int) =~= candidates);
    lemma_rising_keeps_every_offset(adjusted_offsets(candidates, windows_at(file, candidates)));
}

proof fn lemma_block_starts_never_fall_so_far(file: Seq<u8>, candidates: Seq<u64>, n: int)
    requires
        0 <= n <= candidates.len(),
        forall|k: int| 0 <= k < candidates.len() ==> candidates[k] <= file.len(),
        forall|j: int, k: int| 0 <= j <= k < candidates.len() ==> candidates[j] <= candidates[k],
    ensures
        forall|i: int, j: int|
            0 <= i <= j < adjusted_offsets(candidates.take(n), windows_at(file, candidates)).len()
                ==> adjusted_offsets(candidates.take(n), windows_at(file, candidates))[i]
                <= adjusted_offsets(candidates.take(n), windows_at(file, candidates))[j],
    decreases n,
{
    let windows = windows_at(file, candidates);
    let found = adjusted_offsets(candidates.take(n), windows);
    if n > 0 {
        let earlier = adjusted_offsets(candidates.take(n - 1), windows);
        assert(candidates.take(n).drop_last() =~= candidates.take(n - 1));
        assert(windows[n - 1] == window_at(file, candidates[n - 1] as int));
        lemma_block_starts_never_fall_so_far(file, candidates, n - 1);
        assert forall|i: int, j: int| 0 <= i <= j < found.len() implies found[i] <= found[j] by {
            if j >= earlier.len() && i < earlier.len() {
                lemma_adjusted_offsets_come_from(file, candidates, n - 1, i);
                let k = choose|k: int|
                    0 <= k < n - 1 && #[trigger] first_block_start(
                        window_at(file, candidates[k] as int),
                    ) == Some(earlier[i] - candidates[k]);
                lemma_first_block_start_in_file(file, candidates[k] as int);
                lemma_first_block_start_in_file(file, candidates[n - 1] as int);
                assert(candidates[k] <= candidates[n - 1]);
                if found[j] < found[i] {
                    assert(!block_starts_at(file, found[j]));
                }
            }
        }
    }
}

/// Boundaries built between strictly increasing block starts partition the file.
pub proof fn lemma_boundaries_partition(cuts: Seq<int>)
    requires
        forall|j: int|
            0 <= j < cuts.len() ==> 0 <= #[trigger] cuts[j] < MAX_FILE_SIZE + MAX_BLOCK_LEN,
        forall|i: int, j: int| 0 <= i < j < cuts.len() ==> cuts[i] < cuts[j],
    ensures
        partitions_file(boundaries_between(cuts)),
{
    let boundaries = boundaries_between(cuts);
    if cuts.len() >= 2 {
        assert forall|k: int| 0 <= k < boundaries.len() - 1 implies {
            &&& (#[trigger] boundaries[k]).1 is Some
            &&& boundaries[k].1->0 >= 0
            &&& boundaries[k].1->0 % 65536 == 0
        } by {
            assert(0 <= cuts[k] < MAX_FILE_SIZE + MAX_BLOCK_LEN);
        }
        assert forall|j: int, k: int| 0 <= j < k < boundaries.len() - 1 implies (
        #[trigger] boundaries[j]).1->0 < (#[trigger] boundaries[k]).1->0 by {
            assert(0 <= cuts[j] < cuts[k] < MAX_FILE_SIZE + MAX_BLOCK_LEN);
        }
    }
}

/// Every record of the file belongs to exactly one of the chunks of a
/// partition: the chunks cover the file and no two of them overlap.
pub proof fn lemma_partition_covers_once(boundaries: Seq<ChunkBoundary>, at: i64)
    requires
        partitions_file(boundaries),
    ensures
        exists|k: int| 0 <= k < boundaries.len() && chunk_holds(#[trigger] boundaries[k], at),
        forall|j: int, k: int|
            0 <= j < boundaries.len() && 0 <= k < boundaries.len() && chunk_holds(
                #[trigger] boundaries[j],
                at,
            ) && chunk_holds(#[trigger] boundaries[k], at) ==> j == k,
{
    let holder = first_chunk_ending_after(boundaries, at, 0);
    lemma_first_chunk_ending_after(boundaries, at, 0);
    assert(chunk_holds(boundaries[holder], at));
    assert forall|j: int, k: int|
        0 <= j < boundaries.len() && 0 <= k < boundaries.len() && chunk_holds(
            #[trigger] boundaries[j],
            at,
        ) && chunk_holds(#[trigger] boundaries[k], at) implies j == k by {
        if j < k {
            assert(boundaries[k - 1].1 is Some);
            assert(boundaries[j].1->0 <= boundaries[k - 1].1->0);
        }
        if k < j {
            assert(boundaries[j - 1].1 is Some);
            assert(boundaries[k].1->0 <= boundaries[j - 1].1->0);
        }
    }
}

/// The first chunk, from `from` on, that stops after `at` or runs to the end
/// of the file.
spec fn first_chunk_ending_after(boundaries: Seq<ChunkBoundary>, at: i64, from: int) -> int
    decreases boundaries.len() - from,
{
    if from >= boundaries.len() - 1 {
        from
    } else if boundaries[from].1 matches Some(stop) && stop <= at {
        first_chunk_ending_after(boundaries, at, from + 1)
    } else {
        from
    }
}

proof fn lemma_first_chunk_ending_after(boundaries: Seq<ChunkBoundary>, at: i64, from: int)
    requires
        partitions_file(boundaries),
        0 <= from < boundaries.len(),
        boundaries[from].0 matches Some(start) ==> start <= at,
    ensures
        from <= first_chunk_ending_after(boundaries, at, from) < boundaries.len(),
        chunk_holds(boundaries[first_chunk_ending_after(boundaries, at, from)], at),
    decreases boundaries.len() - from,
{
    if from < boundaries.len() - 1 {
        assert(boundaries[from].1 is Some);
        if boundaries[from].1->0 <= at {
            lemma_first_chunk_ending_after(boundaries, at, from + 1);
        }
    }
}

} // verus!
