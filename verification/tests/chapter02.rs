use nlp100_rust::chapter02::answer::{
    count_uniq_words, extract_column, head, lines, merge_files, sort_on_col3,
    nth_column, sort_on_frequency, split_files, tab_2_space, tail, word_count, write_lines,
    TableError,
};
use nlp100_rust::numbers::{decimal_string, parse_u32};
use nlp100_rust::sorting::{sort_ranked, Ranked, Ties};

const N: usize = 5;

// A sample of the table of popular names: name, sex, number, year.
fn input() -> String {
    String::from(
        "Mary\tF\t7065\t1880\n\
         Anna\tF\t2604\t1880\n\
         Emma\tF\t2003\t1880\n\
         Elizabeth\tF\t1939\t1880\n\
         Minnie\tF\t1746\t1880\n\
         John\tM\t9655\t1880\n\
         William\tM\t9532\t1880\n\
         James\tM\t5927\t1880\n\
         Mary\tF\t6919\t1881\n\
         Anna\tF\t2698\t1881\n\
         John\tM\t8769\t1881\n\
         William\tM\t8524\t1881\n",
    )
}

#[test]
fn success_10_word_count() {
    let count = word_count(&input());
    let expected: usize = "12\n".trim().parse().expect("parse error!");
    assert_eq!(expected, count);
}

#[test]
fn success_11_tab_2_space() {
    let actual = tab_2_space(&input());
    let expected = "Mary F 7065 1880\nAnna F 2604 1880\nEmma F 2003 1880\nElizabeth F 1939 1880\nMinnie F 1746 1880\nJohn M 9655 1880\nWilliam M 9532 1880\nJames M 5927 1880\nMary F 6919 1881\nAnna F 2698 1881\nJohn M 8769 1881\nWilliam M 8524 1881\n";
    assert_eq!(expected, actual);
}

#[test]
fn success_12_extract_column() {
    let actual = extract_column(&input(), 0).unwrap();
    let expected =
        "Mary\nAnna\nEmma\nElizabeth\nMinnie\nJohn\nWilliam\nJames\nMary\nAnna\nJohn\nWilliam\n";
    assert_eq!(expected, actual);
    let actual = extract_column(&input(), 1).unwrap();
    let expected = "F\nF\nF\nF\nF\nM\nM\nM\nF\nF\nM\nM\n";
    assert_eq!(expected, actual);
}

#[test]
fn success_13_merge_files() {
    let col1 = extract_column(&input(), 0).unwrap();
    let col2 = extract_column(&input(), 1).unwrap();

    let actual = merge_files(&col1, &col2);
    let expected = "Mary\tF\nAnna\tF\nEmma\tF\nElizabeth\tF\nMinnie\tF\nJohn\tM\nWilliam\tM\nJames\tM\nMary\tF\nAnna\tF\nJohn\tM\nWilliam\tM\n";
    assert_eq!(expected, actual);
}

#[test]
fn success_14_head() {
    let actual = head(&input(), N);
    let expected = "Mary\tF\t7065\t1880\nAnna\tF\t2604\t1880\nEmma\tF\t2003\t1880\nElizabeth\tF\t1939\t1880\nMinnie\tF\t1746\t1880\n";
    assert_eq!(expected, actual);
}

#[test]
fn success_15_tail() {
    let actual = tail(&input(), N);
    let expected = "James\tM\t5927\t1880\nMary\tF\t6919\t1881\nAnna\tF\t2698\t1881\nJohn\tM\t8769\t1881\nWilliam\tM\t8524\t1881\n";
    assert_eq!(expected, actual);
}

#[test]
fn success_16_split_files() {
    let expected = vec![
        "Mary\tF\t7065\t1880\nAnna\tF\t2604\t1880\nEmma\tF\t2003\t1880\n",
        "Elizabeth\tF\t1939\t1880\nMinnie\tF\t1746\t1880\nJohn\tM\t9655\t1880\n",
        "William\tM\t9532\t1880\nJames\tM\t5927\t1880\nMary\tF\t6919\t1881\n",
        "Anna\tF\t2698\t1881\nJohn\tM\t8769\t1881\nWilliam\tM\t8524\t1881\n",
        "",
    ];

    let actual = split_files(&input(), N);
    assert_eq!(N, actual.len());

    for i in 0..N {
        assert_eq!(expected[i], actual[i], "current file is {}", i + 1);
    }
}

#[test]
fn success_17_count_uniq_words() {
    let actual = count_uniq_words(&input(), 0).unwrap();
    let expected: usize = "8\n".trim().parse().expect("parse error");
    assert_eq!(expected, actual);
}

#[test]
fn success_18_sort_on_col3() {
    let actual = sort_on_col3(&input()).unwrap();
    let expected = "John\tM\t9655\t1880\nWilliam\tM\t9532\t1880\nJohn\tM\t8769\t1881\nWilliam\tM\t8524\t1881\nMary\tF\t7065\t1880\nMary\tF\t6919\t1881\nJames\tM\t5927\t1880\nAnna\tF\t2698\t1881\nAnna\tF\t2604\t1880\nEmma\tF\t2003\t1880\nElizabeth\tF\t1939\t1880\nMinnie\tF\t1746\t1880\n";
    assert_eq!(expected, actual);
}

#[test]
fn success_19_sort_on_frequency() {
    let actual = sort_on_frequency(&input());
    println!("{}", actual);
    let expected = "2 William\n2 Mary\n2 John\n2 Anna\n1 Minnie\n1 James\n1 Emma\n1 Elizabeth\n";
    // Don't worry about output format
    assert_eq!(expected.replace(" ", ""), actual.replace(" ", ""));
    assert_eq!(expected, actual);
}

// ---- further cases ----

#[test]
fn lines_are_read_as_a_buffered_reader_reads_them() {
    assert_eq!(Vec::<String>::new(), lines(""));
    assert_eq!(vec![""], lines("\n"));
    assert_eq!(vec!["a"], lines("a"));
    assert_eq!(vec!["a"], lines("a\n"));
    assert_eq!(vec!["a", "", "b"], lines("a\n\nb"));
    assert_eq!(vec!["a", "b\r"], lines("a\r\nb\r"));
    assert_eq!(vec!["a\r", ""], lines("a\r\r\n\r\n"));
    assert_eq!(0, word_count(""));
    assert_eq!(2, word_count("a\n\n"));
}

#[test]
fn written_lines_end_in_a_line_feed() {
    assert_eq!("", write_lines(&Vec::new()));
    assert_eq!("a\n\nb\n", write_lines(&vec![String::from("a"), String::new(), String::from("b")]));
}

#[test]
fn columns_are_cut_at_tabs() {
    assert_eq!(Some(String::from("")), nth_column("", 0));
    assert_eq!(None, nth_column("", 1));
    assert_eq!(Some(String::from("b")), nth_column("a\tb\t", 1));
    assert_eq!(Some(String::from("")), nth_column("a\tb\t", 2));
    assert_eq!(None, nth_column("a\tb\t", 3));
    assert_eq!(Err(TableError::MissingColumn), extract_column("a\tb\nc\n", 1));
    assert_eq!(Ok(String::new()), extract_column("", 3));
    assert_eq!(Err(TableError::MissingColumn), count_uniq_words("a\tb\nc\n", 1));
    assert_eq!(Ok(2), count_uniq_words("a\tb\nc\tb\na\tb\n", 0));
    assert_eq!(Ok(1), count_uniq_words("a\tb\nc\tb\na\tb\n", 1));
}

#[test]
fn merging_stops_with_the_shorter_file() {
    assert_eq!("a\t1\nb\t2\n", merge_files("a\nb\nc\n", "1\n2\n"));
    assert_eq!("", merge_files("", "1\n2\n"));
}

#[test]
fn head_and_tail_take_whole_lines() {
    assert_eq!("", head(&input(), 0));
    assert_eq!(input(), head(&input(), 12));
    assert_eq!(input(), head(&input(), 100));
    assert_eq!("", tail(&input(), 0));
    assert_eq!(input(), tail(&input(), 12));
    assert_eq!("b\n", tail("a\nb", 1));
}

#[test]
fn split_files_rounds_the_part_size_up() {
    assert_eq!(Vec::<String>::new(), split_files("a\nb\n", 0));
    assert_eq!(vec!["a\nb\n"], split_files("a\nb\n", 1));
    assert_eq!(vec!["a\n", "b\n"], split_files("a\nb\n", 2));
    assert_eq!(vec!["a\n", "b\n", ""], split_files("a\nb\n", 3));
    assert_eq!(vec!["a\nb\n", "c\n"], split_files("a\nb\nc\n", 2));
    assert_eq!(vec!["", ""], split_files("", 2));
}

#[test]
fn sort_on_col3_lists_equal_lines_once_and_breaks_ties_by_text() {
    let table = "b\tx\t5\na\tx\t5\nc\tx\t+10\na\tx\t5\nd\tx\t007\n";
    assert_eq!(Ok(String::from("c\tx\t+10\nd\tx\t007\nb\tx\t5\na\tx\t5\n")), sort_on_col3(table));
    assert_eq!(Ok(String::new()), sort_on_col3(""));
    assert_eq!(Err(TableError::MissingColumn), sort_on_col3("a\tb\t1\na\tb\n"));
    assert_eq!(Err(TableError::NotANumber), sort_on_col3("a\tb\t1\na\tb\t-1\nc\n"));
    assert_eq!(Err(TableError::NotANumber), sort_on_col3("a\tb\t 1\n"));
    assert_eq!(Err(TableError::NotANumber), sort_on_col3("a\tb\t4294967296\n"));
    assert_eq!(Ok(String::from("a\tb\t4294967295\n")), sort_on_col3("a\tb\t4294967295\n"));
}

#[test]
fn sort_on_frequency_counts_the_first_column() {
    assert_eq!("", sort_on_frequency(""));
    assert_eq!("3 a\n1 b\n1 \n", sort_on_frequency("a\t1\n\nb\na\na\tz\n"));
}

#[test]
fn numbers_are_read_and_written_in_base_ten() {
    for (text, value) in [
        ("0", Some(0)),
        ("+0", Some(0)),
        ("42", Some(42)),
        ("0042", Some(42)),
        ("4294967295", Some(u32::MAX)),
        ("4294967296", None),
        ("99999999999999999999999", None),
        ("", None),
        ("+", None),
        ("-1", None),
        ("1_000", None),
        (" 1", None),
        ("1 ", None),
        ("１", None),
        ("++1", None),
    ] {
        assert_eq!(value, parse_u32(text), "{:?}", text);
        assert_eq!(text.parse::<u32>().ok(), parse_u32(text), "{:?}", text);
    }
    for n in [0usize, 1, 9, 10, 11, 99, 100, 101, 1234567890, usize::MAX] {
        assert_eq!(n.to_string(), decimal_string(n));
    }
}

#[test]
fn ranked_texts_are_sorted_by_number_then_text() {
    let items = |pairs: &[(usize, &str)]| -> Vec<Ranked> {
        pairs.iter().map(|(count, text)| Ranked { count: *count, text: text.to_string() }).collect()
    };
    let shown = |sorted: Vec<Ranked>| -> Vec<(usize, String)> {
        sorted.into_iter().map(|r| (r.count, r.text)).collect()
    };
    let input = [(1, "b"), (3, "a"), (1, "a"), (2, "z"), (3, "b"), (1, "b")];
    assert_eq!(
        vec![
            (3, "a".to_string()),
            (3, "b".to_string()),
            (2, "z".to_string()),
            (1, "a".to_string()),
            (1, "b".to_string()),
            (1, "b".to_string()),
        ],
        shown(sort_ranked(items(&input), Ties::Ascending))
    );
    assert_eq!(
        vec![
            (3, "b".to_string()),
            (3, "a".to_string()),
            (2, "z".to_string()),
            (1, "b".to_string()),
            (1, "b".to_string()),
            (1, "a".to_string()),
        ],
        shown(sort_ranked(items(&input), Ties::Descending))
    );
    assert_eq!(0, sort_ranked(Vec::new(), Ties::Ascending).len());
}
