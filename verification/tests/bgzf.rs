use rust_bam_tools::bgzf::bgzf_noffsets;
use rust_bam_tools::bgzf::candidate_offsets;
use rust_bam_tools::bgzf::find_block_start;
use rust_bam_tools::bgzf::is_valid_bgzf_block;
use rust_bam_tools::bgzf::to_virtual_offset;
use rust_bam_tools::bgzf::MAX_BLOCK_LEN;
use rust_bam_tools::bgzf::MAX_FILE_SIZE;
use rust_bam_tools::bgzf::MIN_BLOCK_LEN;

const MAGIC: [u8; 4] = [31, 139, 8, 4];

/// `len` zero bytes with the magic bytes at each of `starts`.
fn window(len: usize, starts: &[usize]) -> Vec<u8> {
    let mut bytes = vec![0u8; len];
    for start in starts {
        bytes[*start..*start + 4].copy_from_slice(&MAGIC);
    }
    bytes
}

#[test]
fn block_check_takes_magic_and_eighteen_bytes() {
    assert!(is_valid_bgzf_block(&window(18, &[0])));
    assert!(is_valid_bgzf_block(&window(64, &[0])));
}

#[test]
fn block_check_refuses_seventeen_bytes() {
    assert!(!is_valid_bgzf_block(&window(17, &[0])));
    assert!(!is_valid_bgzf_block(&MAGIC));
    assert!(!is_valid_bgzf_block(&[]));
}

#[test]
fn block_check_refuses_each_wrong_magic_byte() {
    for at in 0..4 {
        let mut block = window(18, &[0]);
        block[at] ^= 1;
        assert!(!is_valid_bgzf_block(&block), "byte {}", at);
    }
}

#[test]
fn block_check_reads_only_the_first_four_bytes() {
    let mut block = window(18, &[0]);
    for at in 4..18 {
        block[at] = 0xff;
    }
    assert!(is_valid_bgzf_block(&block));
    assert!(!is_valid_bgzf_block(&window(18, &[1])));
}

#[test]
fn limits_have_their_values() {
    assert_eq!(MIN_BLOCK_LEN, 18);
    assert_eq!(MAX_BLOCK_LEN, 1 << 16);
    assert_eq!(MAX_FILE_SIZE, (1u64 << 47) - (1u64 << 16));
}

#[test]
fn candidates_are_multiples_of_the_step() {
    assert_eq!(candidate_offsets(1000, 4), vec![250, 500, 750]);
    assert_eq!(candidate_offsets(10, 3), vec![3, 6]);
    assert_eq!(candidate_offsets(1001, 2), vec![500]);
}

#[test]
fn one_chunk_has_no_candidate() {
    assert_eq!(candidate_offsets(0, 1), Vec::<u64>::new());
    assert_eq!(candidate_offsets(123_456, 1), Vec::<u64>::new());
}

#[test]
fn candidates_of_a_small_file_coincide() {
    assert_eq!(candidate_offsets(3, 5), vec![0, 0, 0, 0]);
    assert_eq!(candidate_offsets(MAX_FILE_SIZE, 2), vec![MAX_FILE_SIZE / 2]);
}

#[test]
fn block_start_is_the_first_match() {
    assert_eq!(find_block_start(&window(100, &[0])), Some(0));
    assert_eq!(find_block_start(&window(100, &[5])), Some(5));
    assert_eq!(find_block_start(&window(100, &[40, 7, 70])), Some(7));
}

#[test]
fn block_start_needs_eighteen_bytes_behind_it() {
    assert_eq!(find_block_start(&window(100, &[82])), Some(82));
    assert_eq!(find_block_start(&window(100, &[83])), None);
    assert_eq!(find_block_start(&window(100, &[96])), None);
}

#[test]
fn block_start_is_not_found_where_there_is_none() {
    assert_eq!(find_block_start(&[]), None);
    assert_eq!(find_block_start(&window(3, &[])), None);
    assert_eq!(find_block_start(&window(70_000, &[])), None);
}

#[test]
fn block_start_is_sought_in_the_first_64_kib_only() {
    assert_eq!(find_block_start(&window(70_000, &[65_535])), Some(65_535));
    assert_eq!(find_block_start(&window(70_000, &[65_536])), None);
}

#[test]
fn virtual_offset_is_block_offset_shifted_by_16() {
    assert_eq!(to_virtual_offset(0), 0);
    assert_eq!(to_virtual_offset(1), 65_536);
    assert_eq!(to_virtual_offset(1234), 1234i64 << 16);
    assert_eq!(to_virtual_offset(MAX_FILE_SIZE + 65_535), i64::MAX - 65_535);
}

#[test]
fn one_chunk_is_the_whole_file_for_all_sizes() {
    for file_size in [0, 1, 17, 65_536, 1 << 30, MAX_FILE_SIZE] {
        assert_eq!(bgzf_noffsets(file_size, 1, &Vec::new()), vec![(None, None)]);
    }
}

#[test]
fn two_chunks_stay_in_one_piece() {
    let windows = vec![window(100, &[3])];
    assert_eq!(bgzf_noffsets(1000, 2, &windows), vec![(None, None)]);
}

#[test]
fn three_chunks_are_cut_at_the_block_starts() {
    let windows = vec![window(200, &[10]), window(200, &[0])];
    assert_eq!(candidate_offsets(3000, 3), vec![1000, 2000]);
    assert_eq!(
        bgzf_noffsets(3000, 3, &windows),
        vec![
            (None, Some(1010i64 << 16)),
            (Some(1010i64 << 16), Some(2000i64 << 16)),
            (Some(2000i64 << 16), None),
        ]
    );
}

#[test]
fn candidate_without_block_start_is_dropped() {
    let windows = vec![window(200, &[1]), window(200, &[]), window(200, &[2])];
    assert_eq!(
        bgzf_noffsets(4000, 4, &windows),
        vec![
            (None, Some(1001i64 << 16)),
            (Some(1001i64 << 16), Some(3002i64 << 16)),
            (Some(3002i64 << 16), None),
        ]
    );
}

#[test]
fn fewer_than_two_block_starts_give_one_chunk() {
    let none = vec![window(200, &[]), window(200, &[]), window(200, &[])];
    assert_eq!(bgzf_noffsets(4000, 4, &none), vec![(None, None)]);
    let one = vec![window(200, &[]), window(200, &[9]), window(200, &[])];
    assert_eq!(bgzf_noffsets(4000, 4, &one), vec![(None, None)]);
}

#[test]
fn repeated_block_starts_are_taken_once() {
    // The candidates are 100, 200 and 300; the blocks start at 250 and 320.
    let windows = vec![window(400, &[150, 220]), window(400, &[50, 120]), window(400, &[20])];
    assert_eq!(
        bgzf_noffsets(400, 4, &windows),
        vec![
            (None, Some(250i64 << 16)),
            (Some(250i64 << 16), Some(320i64 << 16)),
            (Some(320i64 << 16), None),
        ]
    );
    let same = vec![window(400, &[150]), window(400, &[50]), window(400, &[])];
    assert_eq!(bgzf_noffsets(400, 4, &same), vec![(None, None)]);
}

#[test]
fn block_start_behind_a_later_one_is_dropped() {
    // Windows that no one file could show: the second candidate finds a
    // block start that lies before the one of the first.
    let windows = vec![window(400, &[250]), window(400, &[0]), window(400, &[100])];
    assert_eq!(
        bgzf_noffsets(400, 4, &windows),
        vec![
            (None, Some(350i64 << 16)),
            (Some(350i64 << 16), Some(400i64 << 16)),
            (Some(400i64 << 16), None),
        ]
    );
}

#[test]
fn boundaries_follow_one_another_and_rise() {
    let windows: Vec<Vec<u8>> = (0..7).map(|k| window(300, &[k * 30])).collect();
    let boundaries = bgzf_noffsets(8000, 8, &windows);
    assert_eq!(boundaries.len(), 8);
    assert_eq!(boundaries[0].0, None);
    assert_eq!(boundaries[7].1, None);
    for k in 0..7 {
        let stop = boundaries[k].1.unwrap();
        assert_eq!(boundaries[k + 1].0, Some(stop));
        assert_eq!(stop, ((1000 * (k as i64 + 1)) + 30 * k as i64) << 16);
        assert_eq!(stop & 0xffff, 0);
        if k > 0 {
            assert!(boundaries[k].0.unwrap() < stop);
        }
    }
}

#[test]
fn every_offset_lies_in_one_chunk() {
    let windows = vec![window(200, &[10]), window(200, &[0]), window(200, &[44])];
    let boundaries = bgzf_noffsets(4000, 4, &windows);
    for at in [0i64, 1, 1010 << 16, (1010 << 16) - 1, (2000 << 16) + 5, 3044 << 16, i64::MAX] {
        let holders = boundaries
            .iter()
            .filter(|(start, stop)| {
                start.map_or(true, |s| s <= at) && stop.map_or(true, |s| at < s)
            })
            .count();
        assert_eq!(holders, 1, "offset {}", at);
    }
}

#[test]
fn largest_file_is_planned() {
    let windows = vec![window(70_000, &[65_535]), window(70_000, &[65_535])];
    let step = MAX_FILE_SIZE / 3;
    assert_eq!(
        bgzf_noffsets(MAX_FILE_SIZE, 3, &windows),
        vec![
            (None, Some(((step + 65_535) as i64) << 16)),
            (Some(((step + 65_535) as i64) << 16), Some(((2 * step + 65_535) as i64) << 16)),
            (Some(((2 * step + 65_535) as i64) << 16), None),
        ]
    );
}
