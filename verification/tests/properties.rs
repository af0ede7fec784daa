use wordcount::count;
use wordcount::CountOption;
use wordcount::FreqTable;

fn sum_of_counts(t: &FreqTable) -> usize {
    let mut sum: usize = 0;
    for k in t.key_list() {
        sum += t.get(k.as_str());
    }
    sum
}

#[test]
fn sum_of_counts_is_token_total_word_mode() {
    let freq = count("aa bb cc bb\ndd".as_bytes(), CountOption::Word).unwrap();
    assert_eq!(sum_of_counts(&freq), 5);
}

#[test]
fn sum_of_counts_is_token_total_char_mode() {
    let freq = count("ab\ncd".as_bytes(), CountOption::Char).unwrap();
    assert_eq!(sum_of_counts(&freq), 4);
}

#[test]
fn sum_of_counts_is_token_total_line_mode() {
    let freq = count("a\nb\na".as_bytes(), CountOption::Line).unwrap();
    assert_eq!(sum_of_counts(&freq), 3);
}

#[test]
fn identical_inputs_yield_identical_tables() {
    let first = "one two two three".as_bytes().to_vec();
    let second = "one two two three".as_bytes().to_vec();
    let a = count(&first, CountOption::Word).unwrap();
    let b = count(&second, CountOption::Word).unwrap();
    assert_eq!(a.len(), b.len());
    for k in a.key_list() {
        assert_eq!(a.get(k.as_str()), b.get(k.as_str()));
    }
    for k in b.key_list() {
        assert_eq!(a.get(k.as_str()), b.get(k.as_str()));
    }
}

#[test]
fn each_occurrence_raises_its_count_by_one() {
    let once = count("aa".as_bytes(), CountOption::Word).unwrap();
    let twice = count("aa aa".as_bytes(), CountOption::Word).unwrap();
    let thrice = count("aa aa aa".as_bytes(), CountOption::Word).unwrap();
    assert_eq!(once.get("aa"), 1);
    assert_eq!(twice.get("aa"), 2);
    assert_eq!(thrice.get("aa"), 3);
}

#[test]
fn empty_input_yields_empty_table_word_mode() {
    let freq = count("".as_bytes(), CountOption::Word).unwrap();
    assert_eq!(freq.len(), 0);
}

#[test]
fn empty_input_yields_empty_table_char_mode() {
    let freq = count("".as_bytes(), CountOption::Char).unwrap();
    assert_eq!(freq.len(), 0);
}

#[test]
fn empty_input_yields_empty_table_line_mode() {
    let freq = count("".as_bytes(), CountOption::Line).unwrap();
    assert_eq!(freq.len(), 0);
}

#[test]
fn separator_only_line_contributes_no_words() {
    let freq = count(" ,.;! \t".as_bytes(), CountOption::Word).unwrap();
    assert_eq!(freq.len(), 0);
}

#[test]
fn invalid_utf8_fails_without_a_table() {
    let r = count(&[0xf9, 0x90, 0x80], CountOption::Word);
    assert!(r.is_err());
    assert_eq!(r.unwrap_err().line, 0);
}

#[test]
fn invalid_utf8_reports_first_bad_line() {
    let mut bytes = "good\n".as_bytes().to_vec();
    bytes.extend_from_slice(&[0xf9, 0x90, 0x80]);
    let r = count(&bytes, CountOption::Line);
    assert!(r.is_err());
    assert_eq!(r.unwrap_err().line, 1);
}

#[test]
fn invalid_utf8_fails_in_every_mode() {
    assert!(count(&[0xff], CountOption::Char).is_err());
    assert!(count(&[0xff], CountOption::Word).is_err());
    assert!(count(&[0xff], CountOption::Line).is_err());
}
