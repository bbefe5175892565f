use rust_bam_tools::error::RunError;
use rust_bam_tools::record::get_record_tag;
use rust_bam_tools::record::substitute_text_in_tag;
use rust_bam_tools::record::tag_write_outcome;
use rust_htslib::bam::record::Aux;
use rust_htslib::bam::Record;

/// A record named `name` with one text field.
fn tagged(name: &[u8], tag: &[u8], value: &str) -> Record {
    let mut rec = Record::new();
    rec.set(name, None, b"ACGT", &[30, 31, 32, 33]);
    rec.push_aux(tag, Aux::String(value)).unwrap();
    rec
}

/// The tags of the record's fields, in stored order.
fn tags_of(rec: &Record) -> Vec<Vec<u8>> {
    rec.aux_iter().map(|field| field.unwrap().0.to_vec()).collect()
}

#[test]
fn tag_text_is_read() {
    let rec = tagged(b"r1", b"CB", "AAAA-1");
    assert_eq!(get_record_tag(&rec, "CB"), Some(b"AAAA-1".to_vec()));
}

#[test]
fn missing_tag_reads_as_none() {
    let rec = tagged(b"r1", b"CB", "AAAA-1");
    assert_eq!(get_record_tag(&rec, "UB"), None);
    assert_eq!(get_record_tag(&rec, "cb"), None);
    let mut bare = Record::new();
    bare.set(b"r2", None, b"ACGT", &[30, 31, 32, 33]);
    assert_eq!(get_record_tag(&bare, "CB"), None);
}

#[test]
fn tag_of_another_type_reads_as_none() {
    let mut rec = Record::new();
    rec.set(b"r1", None, b"ACGT", &[30, 31, 32, 33]);
    rec.push_aux(b"NH", Aux::I32(3)).unwrap();
    rec.push_aux(b"XA", Aux::Char(b'c')).unwrap();
    rec.push_aux(b"CB", Aux::String("AAAA")).unwrap();
    assert_eq!(get_record_tag(&rec, "NH"), None);
    assert_eq!(get_record_tag(&rec, "XA"), None);
    assert_eq!(get_record_tag(&rec, "CB"), Some(b"AAAA".to_vec()));
}

#[test]
fn empty_text_is_read_as_empty() {
    let rec = tagged(b"r1", b"CB", "");
    assert_eq!(get_record_tag(&rec, "CB"), Some(Vec::new()));
}

#[test]
fn only_two_bytes_of_a_tag_are_looked_up() {
    let rec = tagged(b"r1", b"CB", "AAAA");
    assert_eq!(get_record_tag(&rec, "CBZ"), Some(b"AAAA".to_vec()));
    assert_eq!(get_record_tag(&rec, "CBCB"), Some(b"AAAA".to_vec()));
}

#[test]
fn tag_that_names_no_field_reads_as_none() {
    let rec = tagged(b"r1", b"CB", "AAAA");
    assert_eq!(get_record_tag(&rec, ""), None);
    assert_eq!(get_record_tag(&rec, "C"), None);
    assert_eq!(get_record_tag(&rec, "CB\0"), None);
    assert_eq!(get_record_tag(&rec, "C\0"), None);
}

#[test]
fn substitution_rewrites_the_stored_tag() {
    let mut rec = tagged(b"r1", b"CB", "AAAA-1");
    assert_eq!(substitute_text_in_tag(&mut rec, "CB", "-1", ""), Ok(()));
    assert_eq!(get_record_tag(&rec, "CB"), Some(b"AAAA".to_vec()));
    match rec.aux(b"CB") {
        Ok(Aux::String(value)) => assert_eq!(value, "AAAA"),
        _ => panic!("no text under the tag"),
    }
    assert_eq!(tags_of(&rec), vec![b"CB".to_vec()]);
}

#[test]
fn substitution_without_occurrence_stores_the_same_text() {
    let mut rec = tagged(b"r1", b"CB", "AAAA");
    assert_eq!(substitute_text_in_tag(&mut rec, "CB", "-1", "x"), Ok(()));
    assert_eq!(get_record_tag(&rec, "CB"), Some(b"AAAA".to_vec()));
}

#[test]
fn substitution_moves_the_field_to_the_end_and_keeps_the_others() {
    let mut rec = tagged(b"r1", b"CB", "AAAA-1");
    rec.push_aux(b"UB", Aux::String("TTTT-1")).unwrap();
    rec.push_aux(b"NH", Aux::I32(7)).unwrap();
    assert_eq!(substitute_text_in_tag(&mut rec, "CB", "-1", "-2"), Ok(()));
    assert_eq!(tags_of(&rec), vec![b"UB".to_vec(), b"NH".to_vec(), b"CB".to_vec()]);
    assert_eq!(get_record_tag(&rec, "CB"), Some(b"AAAA-2".to_vec()));
    assert_eq!(get_record_tag(&rec, "UB"), Some(b"TTTT-1".to_vec()));
    match rec.aux(b"NH") {
        Ok(Aux::I32(count)) => assert_eq!(count, 7),
        Ok(Aux::U8(count)) => assert_eq!(count, 7),
        _ => panic!("the count is gone"),
    }
}

#[test]
fn substitution_leaves_the_rest_of_the_record() {
    let mut rec = tagged(b"read-7", b"CB", "AAAA-1");
    rec.set_pos(1234);
    rec.set_mapq(17);
    assert_eq!(substitute_text_in_tag(&mut rec, "CB", "AAAA", "CCCC"), Ok(()));
    assert_eq!(rec.qname(), b"read-7");
    assert_eq!(rec.pos(), 1234);
    assert_eq!(rec.mapq(), 17);
    assert_eq!(rec.seq().as_bytes(), b"ACGT".to_vec());
    assert_eq!(rec.qual(), &[30, 31, 32, 33]);
    assert_eq!(get_record_tag(&rec, "CB"), Some(b"CCCC-1".to_vec()));
}

#[test]
fn substitution_of_a_missing_tag_fails() {
    let mut rec = tagged(b"r1", b"CB", "AAAA-1");
    assert_eq!(substitute_text_in_tag(&mut rec, "UB", "-1", ""), Err(RunError::TagNotFound));
    assert_eq!(substitute_text_in_tag(&mut rec, "C", "-1", ""), Err(RunError::TagNotFound));
    assert_eq!(tags_of(&rec), vec![b"CB".to_vec()]);
    assert_eq!(get_record_tag(&rec, "CB"), Some(b"AAAA-1".to_vec()));
}

#[test]
fn substitution_of_a_tag_without_text_fails() {
    let mut rec = Record::new();
    rec.set(b"r1", None, b"ACGT", &[30, 31, 32, 33]);
    rec.push_aux(b"NH", Aux::I32(3)).unwrap();
    assert_eq!(substitute_text_in_tag(&mut rec, "NH", "3", "4"), Err(RunError::TagNotFound));
    assert_eq!(tags_of(&rec), vec![b"NH".to_vec()]);
}

#[test]
fn text_with_a_zero_byte_is_not_stored() {
    let mut rec = tagged(b"r1", b"CB", "AAAA-1");
    rec.push_aux(b"UB", Aux::String("TTTT")).unwrap();
    assert_eq!(substitute_text_in_tag(&mut rec, "CB", "-", "\0"), Err(RunError::TagValue));
    assert_eq!(tags_of(&rec), vec![b"CB".to_vec(), b"UB".to_vec()]);
    assert_eq!(get_record_tag(&rec, "CB"), Some(b"AAAA-1".to_vec()));
}

#[test]
fn text_of_several_bytes_a_character_is_rewritten() {
    let mut rec = tagged(b"r1", b"CB", "née-1");
    assert_eq!(substitute_text_in_tag(&mut rec, "CB", "é", "ö€"), Ok(()));
    assert_eq!(get_record_tag(&rec, "CB"), Some("nö€e-1".as_bytes().to_vec()));
    let mut spaced = tagged(b"r2", b"CB", "é€");
    assert_eq!(substitute_text_in_tag(&mut spaced, "CB", "", "."), Ok(()));
    assert_eq!(get_record_tag(&spaced, "CB"), Some(".é.€.".as_bytes().to_vec()));
}

#[test]
fn outcome_of_a_write_follows_the_record() {
    assert_eq!(tag_write_outcome(Ok(())), Ok(()));
    assert_eq!(
        tag_write_outcome(Err(rust_htslib::errors::Error::BamAux)),
        Err(RunError::TagNotStored)
    );
    assert_eq!(
        tag_write_outcome(Err(rust_htslib::errors::Error::BamAuxTagAlreadyPresent)),
        Err(RunError::TagNotStored)
    );
}
