use rust_bam_tools::substitute::replace_all;

#[test]
fn suffix_is_removed() {
    assert_eq!(replace_all(b"AAAA-1", b"-1", b""), b"AAAA".to_vec());
}

#[test]
fn every_occurrence_is_replaced() {
    assert_eq!(replace_all(b"a-b-c", b"-", b"+"), b"a+b+c".to_vec());
    assert_eq!(replace_all(b"--", b"-", b"xy"), b"xyxy".to_vec());
    assert_eq!(replace_all(b"abcabc", b"abc", b"z"), b"zz".to_vec());
}

#[test]
fn occurrences_are_taken_from_the_left_without_overlap() {
    assert_eq!(replace_all(b"aaa", b"aa", b"b"), b"ba".to_vec());
    assert_eq!(replace_all(b"aaaa", b"aa", b"b"), b"bb".to_vec());
    assert_eq!(replace_all(b"ababa", b"aba", b"x"), b"xba".to_vec());
}

#[test]
fn replacement_is_not_searched_again() {
    assert_eq!(replace_all(b"ab", b"a", b"aa"), b"aab".to_vec());
    assert_eq!(replace_all(b"xx", b"x", b"xx"), b"xxxx".to_vec());
}

#[test]
fn text_without_occurrence_stays() {
    assert_eq!(replace_all(b"AAAA", b"-1", b""), b"AAAA".to_vec());
    assert_eq!(replace_all(b"", b"-1", b"x"), Vec::<u8>::new());
    assert_eq!(replace_all(b"-", b"-1", b"x"), b"-".to_vec());
    assert_eq!(replace_all(b"ab", b"abc", b"x"), b"ab".to_vec());
}

#[test]
fn empty_find_puts_replacement_around_every_character() {
    assert_eq!(replace_all(b"ab", b"", b"X"), b"XaXbX".to_vec());
    assert_eq!(replace_all(b"", b"", b"X"), b"X".to_vec());
    assert_eq!(replace_all(b"a", b"", b""), b"a".to_vec());
}

#[test]
fn empty_find_keeps_characters_of_several_bytes_whole() {
    let text = "aé€😀b";
    assert_eq!(replace_all(text.as_bytes(), b"", b"-"), "-a-é-€-😀-b-".as_bytes().to_vec());
}

#[test]
fn replacing_agrees_with_std_on_text() {
    let texts = ["", "a", "AAAA-1", "-1-1", "aaa", "abcabcab", "é-€", "xyz", "1-1-1", "--1"];
    let finds = ["", "-1", "a", "aa", "abc", "-", "é", "1-", "zz"];
    let withs = ["", "x", "-1", "ab", "€"];
    for text in texts {
        for find in finds {
            for with in withs {
                assert_eq!(
                    replace_all(text.as_bytes(), find.as_bytes(), with.as_bytes()),
                    text.replace(find, with).into_bytes(),
                    "{:?} {:?} {:?}",
                    text,
                    find,
                    with
                );
            }
        }
    }
}
