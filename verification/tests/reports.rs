use words_counting::report::{render_report, sorted_by_count_vec, sorted_by_word_vec};
use words_counting::table::FrequencyTable;
use words_counting::tokenize::count_words_in_file_unicode;

#[test]
fn empty_table_renders_zero_lines() {
    let t = FrequencyTable::new();
    let by_n = render_report(&sorted_by_count_vec(&t));
    let by_a = render_report(&sorted_by_word_vec(&t));
    assert_eq!(by_n, "");
    assert_eq!(by_a, "");
}

#[test]
fn report_line_format() {
    let mut t = FrequencyTable::new();
    t.add_count(String::from("word"), 100);
    let by_a = render_report(&sorted_by_word_vec(&t));
    assert_eq!(by_a, "word : 100\n");
}

#[test]
fn by_count_sorts_descending() {
    let mut t = FrequencyTable::new();
    count_words_in_file_unicode(b"b b b a a c".to_vec(), &mut t);
    let by_n = render_report(&sorted_by_count_vec(&t));
    assert_eq!(by_n, "b : 3\na : 2\nc : 1\n");
}

#[test]
fn by_count_breaks_ties_by_word() {
    let mut t = FrequencyTable::new();
    count_words_in_file_unicode(b"beta alpha beta alpha".to_vec(), &mut t);
    let by_n = render_report(&sorted_by_count_vec(&t));
    assert_eq!(by_n, "alpha : 2\nbeta : 2\n");
}

#[test]
fn by_word_sorts_ascending() {
    let mut t = FrequencyTable::new();
    count_words_in_file_unicode(b"cc aa bb cc".to_vec(), &mut t);
    let by_a = render_report(&sorted_by_word_vec(&t));
    assert_eq!(by_a, "aa : 1\nbb : 1\ncc : 2\n");
}

#[test]
fn by_word_orders_by_code_point() {
    let mut t = FrequencyTable::new();
    count_words_in_file_unicode("zebra éclair".as_bytes().to_vec(), &mut t);
    let by_a = render_report(&sorted_by_word_vec(&t));
    // é (U+00E9) follows every ASCII letter in code-point order
    assert_eq!(by_a, "zebra : 1\néclair : 1\n");
}

#[test]
fn reports_list_the_same_pairs() {
    let mut t = FrequencyTable::new();
    count_words_in_file_unicode(b"x y z x y x".to_vec(), &mut t);
    let by_n = sorted_by_count_vec(&t);
    let by_a = sorted_by_word_vec(&t);
    assert_eq!(by_n.len(), by_a.len());
    for pair in &by_n {
        assert_eq!(by_a.iter().filter(|q| *q == pair).count(), 1);
    }
    for pair in &by_a {
        assert_eq!(by_n.iter().filter(|q| *q == pair).count(), 1);
    }
}
