use wordcount::count;
use wordcount::CountOption;

#[test]
fn word_count_works() {
    let freq = count("aa bb cc bb".as_bytes(), CountOption::Word).unwrap();
    assert_eq!(freq.len(), 3);
    assert_eq!(freq.get("aa"), 1);
    assert_eq!(freq.get("bb"), 2);
    assert_eq!(freq.get("cc"), 1);
}

#[test]
#[should_panic]
fn word_count_o_not_contain_unknown_words() {
    count(
        &[
            b'a', // a
            0xf9, 0x90, 0x80, 0xe3, 0x81, 0x82,
        ],
        CountOption::Word,
    )
    .unwrap();
}

#[test]
fn word_count_works3() {
    let freqs = count("aa cc dd cc".as_bytes(), CountOption::Word).unwrap();

    assert_eq!(freqs.len(), 3);
    assert_eq!(freqs.get("aa"), 1);
    assert_eq!(freqs.get("cc"), 2);
    assert_eq!(freqs.get("dd"), 1);
}

#[test]
fn char_count_single_line() {
    let freq = count("ab".as_bytes(), CountOption::Char).unwrap();
    assert_eq!(freq.len(), 2);
    assert_eq!(freq.get("a"), 1);
    assert_eq!(freq.get("b"), 1);
}

#[test]
fn line_count_duplicate_lines() {
    let freq = count("hello\nhello".as_bytes(), CountOption::Line).unwrap();
    assert_eq!(freq.len(), 1);
    assert_eq!(freq.get("hello"), 2);
}

#[test]
fn crlf_and_lf_are_equivalent_terminators() {
    let with_crlf = count("a\r\nb".as_bytes(), CountOption::Line).unwrap();
    let with_lf = count("a\nb".as_bytes(), CountOption::Line).unwrap();
    assert_eq!(with_crlf.len(), 2);
    assert_eq!(with_lf.len(), 2);
    assert_eq!(with_crlf.get("a"), 1);
    assert_eq!(with_crlf.get("b"), 1);
    assert_eq!(with_lf.get("a"), 1);
    assert_eq!(with_lf.get("b"), 1);
}

#[test]
fn trailing_newline_adds_no_line() {
    let freq = count("x\n".as_bytes(), CountOption::Line).unwrap();
    assert_eq!(freq.len(), 1);
    assert_eq!(freq.get("x"), 1);
}

#[test]
fn final_line_without_terminator_still_counts() {
    let freq = count("a\nb".as_bytes(), CountOption::Line).unwrap();
    assert_eq!(freq.get("b"), 1);
}

#[test]
fn tokens_never_span_lines() {
    let freq = count("ab\ncd".as_bytes(), CountOption::Word).unwrap();
    assert_eq!(freq.len(), 2);
    assert_eq!(freq.get("ab"), 1);
    assert_eq!(freq.get("cd"), 1);
    assert_eq!(freq.get("abcd"), 0);
}

#[test]
fn tokens_are_case_sensitive() {
    let freq = count("Word word".as_bytes(), CountOption::Word).unwrap();
    assert_eq!(freq.len(), 2);
    assert_eq!(freq.get("Word"), 1);
    assert_eq!(freq.get("word"), 1);
}

#[test]
fn underscore_is_a_word_character() {
    let freq = count("a_b c".as_bytes(), CountOption::Word).unwrap();
    assert_eq!(freq.len(), 2);
    assert_eq!(freq.get("a_b"), 1);
    assert_eq!(freq.get("c"), 1);
}

#[test]
fn multibyte_characters_count_as_single_tokens() {
    // Two characters of two bytes each: four bytes, two tokens of one kind.
    let freq = count("\u{e9}\u{e9}".as_bytes(), CountOption::Char).unwrap();
    assert_eq!(freq.len(), 1);
    assert_eq!(freq.get("\u{e9}"), 2);
}

#[test]
fn nonascii_letters_are_word_characters() {
    let freq = count("h\u{e9}llo w\u{f6}rld".as_bytes(), CountOption::Word).unwrap();
    assert_eq!(freq.len(), 2);
    assert_eq!(freq.get("h\u{e9}llo"), 1);
    assert_eq!(freq.get("w\u{f6}rld"), 1);
}

#[test]
fn missing_key_reads_as_zero() {
    let freq = count("aa".as_bytes(), CountOption::Word).unwrap();
    assert_eq!(freq.get("bb"), 0);
}

#[test]
fn default_mode_counts_words() {
    assert_eq!(CountOption::default(), CountOption::Word);
}
