use rust_bam_tools::error::RunError;
use rust_bam_tools::pipeline::subsample_bam;
use rust_bam_tools::record::get_record_tag;
use rust_htslib::bam::record::Aux;
use rust_htslib::bam::Record;

const MAGIC: [u8; 4] = [31, 139, 8, 4];

/// A file of `len` zero bytes with the magic bytes at each of `starts`.
fn file_with_blocks(len: usize, starts: &[usize]) -> Vec<u8> {
    let mut bytes = vec![0u8; len];
    for start in starts {
        bytes[*start..*start + 4].copy_from_slice(&MAGIC);
    }
    bytes
}

/// Records named `r0`, `r1`, ... with the barcodes `values`, each with its
/// offset.
fn source_of(offsets: &[i64], values: &[&str]) -> Vec<(i64, Record)> {
    offsets
        .iter()
        .zip(values)
        .enumerate()
        .map(|(k, (offset, value))| {
            let mut rec = Record::new();
            rec.set(format!("r{}", k).as_bytes(), None, b"ACGT", &[30, 31, 32, 33]);
            rec.push_aux(b"CB", Aux::String(value)).unwrap();
            (*offset, rec)
        })
        .collect()
}

fn names_of(records: &[Record]) -> Vec<String> {
    records.iter().map(|rec| String::from_utf8(rec.qname().to_vec()).unwrap()).collect()
}

#[test]
fn run_writes_first_and_third_of_three_records() {
    let file = file_with_blocks(100, &[0]);
    let source = source_of(&[0, 40, 80], &["AAAA", "GGGG", "CCCC"]);
    let written =
        subsample_bam(&file, source, b"AAAA\nCCCC\n", String::from("CB"), None, None, 1).unwrap();
    assert_eq!(names_of(&written), vec!["r0", "r2"]);
}

#[test]
fn run_stores_the_substituted_barcode_and_keeps_the_record() {
    let file = file_with_blocks(100, &[0]);
    let source = source_of(&[0], &["AAAA-1"]);
    let written = subsample_bam(
        &file,
        source,
        b"AAAA",
        String::from("CB"),
        Some(String::from("-1")),
        Some(String::new()),
        1,
    )
    .unwrap();
    assert_eq!(names_of(&written), vec!["r0"]);
    assert_eq!(get_record_tag(&written[0], "CB"), Some(b"AAAA".to_vec()));
}

#[test]
fn run_with_empty_allow_list_fails() {
    let file = file_with_blocks(100, &[0]);
    let source = source_of(&[0, 40], &["AAAA", "CCCC"]);
    let failed = subsample_bam(&file, source, b"", String::from("CB"), None, None, 4);
    assert_eq!(failed.err(), Some(RunError::NoBarcodes));
    let nothing = subsample_bam(&[], Vec::new(), b"", String::from("CB"), None, None, 0);
    assert_eq!(nothing.err(), Some(RunError::NoBarcodes));
}

#[test]
fn run_on_an_empty_source_writes_nothing() {
    let written =
        subsample_bam(&[], Vec::new(), b"AAAA\n", String::from("CB"), None, None, 3).unwrap();
    assert!(written.is_empty());
}

#[test]
fn run_writes_the_same_for_any_number_of_workers() {
    // Blocks start at 1010, 2000 and 3044: with four workers the source is
    // cut there, with three at 2000 and 3044, with five at 1010 and 2000.
    let file = file_with_blocks(4000, &[1010, 2000, 3044]);
    let offsets = [
        0,
        (500 << 16) | 3,
        (1010 << 16) - 1,
        1010 << 16,
        (1010 << 16) + 100,
        2000 << 16,
        2500 << 16,
        (3044 << 16) - 1,
        3044 << 16,
        (3990 << 16) | 0xffff,
    ];
    let values = ["A-1", "G-1", "C-1", "C", "T-1", "A-1", "A", "-1C-1", "G", "A-1"];
    let run = |cores: usize| -> Vec<Record> {
        subsample_bam(
            &file,
            source_of(&offsets, &values),
            b"A\nC\n",
            String::from("CB"),
            Some(String::from("-1")),
            Some(String::new()),
            cores,
        )
        .unwrap()
    };
    let one = run(1);
    assert_eq!(names_of(&one), vec!["r0", "r2", "r3", "r5", "r6", "r7", "r9"]);
    for cores in [0, 2, 3, 4, 5, 8, 64] {
        let many = run(cores);
        assert_eq!(names_of(&many), names_of(&one), "{} workers", cores);
        assert!(many == one, "{} workers", cores);
    }
}

#[test]
fn run_twice_writes_the_same() {
    let file = file_with_blocks(4000, &[1010, 2000, 3044]);
    let offsets = [0, 1010 << 16, 2000 << 16, 3044 << 16];
    let values = ["A", "C", "G", "A"];
    let run = || -> Vec<Record> {
        let source = source_of(&offsets, &values);
        subsample_bam(&file, source, b"A\nC\n", String::from("CB"), None, None, 4).unwrap()
    };
    let first = run();
    assert_eq!(names_of(&first), vec!["r0", "r1", "r3"]);
    assert!(first == run());
}

#[test]
fn run_joins_the_chunks_in_their_order() {
    // Offsets that do not rise, as no file has them: the records come out
    // chunk after chunk.
    let file = file_with_blocks(4000, &[1010, 2000, 3044]);
    let offsets = [3044 << 16, 0, 2000 << 16, 1];
    let values = ["A", "A", "A", "A"];
    let written = subsample_bam(
        &file,
        source_of(&offsets, &values),
        b"A\n",
        String::from("CB"),
        None,
        None,
        4,
    )
    .unwrap();
    assert_eq!(names_of(&written), vec!["r1", "r3", "r2", "r0"]);
    let whole = subsample_bam(
        &file,
        source_of(&offsets, &values),
        b"A\n",
        String::from("CB"),
        None,
        None,
        1,
    )
    .unwrap();
    assert_eq!(names_of(&whole), vec!["r0", "r1", "r2", "r3"]);
}

#[test]
fn run_fails_with_the_first_chunk_that_failed() {
    let file = file_with_blocks(4000, &[1010, 2000, 3044]);
    let offsets = [0, 1010 << 16, 2000 << 16, 3044 << 16];
    let values = ["A", "C-1", "G", "A-1"];
    let failed = subsample_bam(
        &file,
        source_of(&offsets, &values),
        b"A\nC\n",
        String::from("CB"),
        Some(String::from("-")),
        Some(String::from("\0")),
        4,
    );
    assert_eq!(failed.err(), Some(RunError::TagValue));
}
