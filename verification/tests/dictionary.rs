use jieba::dict::Jieba;
use jieba::load::{parse_freq, parse_line, trim, DictError, Reason};
use jieba::text::{to_chars, to_string};

fn owned(lines: &[&str]) -> Vec<String> {
    lines.iter().map(|s| s.to_string()).collect()
}

#[test]
fn insert_marks_prefixes() {
    let mut jieba = Jieba::empty();
    jieba.insert("拍卖会", 69);
    assert_eq!(jieba.get("拍卖会"), Some(69));
    assert_eq!(jieba.get("拍卖"), Some(0));
    assert_eq!(jieba.get("拍"), Some(0));
    assert_eq!(jieba.get("卖"), None);
    assert!(jieba.has_prefix("拍"));
    assert!(jieba.has_prefix("拍卖"));
    assert!(jieba.has_prefix("拍卖会"));
    assert!(!jieba.has_prefix("拍卖会场"));
    assert!(!jieba.has_prefix(""));
    assert_eq!(jieba.total(), 69);
    jieba.insert("拍", 7);
    assert_eq!(jieba.get("拍"), Some(7));
    assert_eq!(jieba.get("拍卖"), Some(0));
    assert_eq!(jieba.total(), 76);
}

#[test]
fn prefixes_keep_their_frequency() {
    let mut jieba = Jieba::empty();
    jieba.insert("拍", 7);
    jieba.insert("拍卖会", 69);
    assert_eq!(jieba.get("拍"), Some(7));
    assert_eq!(jieba.get("拍卖"), Some(0));
}

#[test]
fn load_is_additive() {
    let mut jieba = Jieba::empty();
    assert_eq!(jieba.load_dict(&owned(&["网球 939 n", "网 10", "", "  "])), Ok(()));
    assert_eq!(jieba.total(), 949);
    assert_eq!(jieba.load_dict(&owned(&["网球 1", "球拍 5 n x"])), Ok(()));
    assert_eq!(jieba.total(), 955);
    assert_eq!(jieba.get("网球"), Some(1));
    assert_eq!(jieba.get("网"), Some(10));
    assert_eq!(jieba.get("球"), Some(0));
    assert_eq!(jieba.get("球拍"), Some(5));
}

#[test]
fn bad_lines_are_refused_and_nothing_is_stored() {
    let mut jieba = Jieba::empty();
    jieba.insert("网", 3);
    let missing = DictError::BadDictionary { line_no: 2, reason: Reason::MissingFrequency };
    assert_eq!(jieba.load_dict(&owned(&["球 4", "拍"])), Err(missing));
    assert_eq!(jieba.get("球"), None);
    assert_eq!(jieba.total(), 3);
    let invalid = DictError::BadDictionary { line_no: 1, reason: Reason::InvalidFrequency };
    assert_eq!(jieba.load_dict(&owned(&["球 x4"])), Err(invalid));
    assert_eq!(jieba.load_dict(&owned(&["球  4"])), Err(invalid));
    assert_eq!(jieba.load_dict(&owned(&["球 -4"])), Err(invalid));
    assert_eq!(jieba.load_dict(&owned(&["球 99999999999999999999999999"])), Err(invalid));
    let blank = DictError::BadDictionary { line_no: 1, reason: Reason::MissingFrequency };
    assert_eq!(jieba.load_dict(&owned(&["", "球 4"])), Err(blank));
    let overflow = DictError::BadDictionary { line_no: 2, reason: Reason::TotalOverflow };
    let big = format!("球 {}", usize::MAX - 2);
    assert_eq!(jieba.load_dict(&owned(&["拍 0", &big])), Err(overflow));
    assert_eq!(jieba.get("拍"), None);
    assert_eq!(jieba.total(), 3);
}

#[test]
fn lines_are_read_field_by_field() {
    assert_eq!(parse_line(&to_chars("  网球 939 n\r\n")), Ok((to_chars("网球"), 939)));
    assert_eq!(parse_line(&to_chars("a\tb 0")), Ok((to_chars("a\tb"), 0)));
    assert_eq!(parse_line(&to_chars("网球")), Err(Reason::MissingFrequency));
    assert_eq!(parse_line(&to_chars("")), Err(Reason::MissingFrequency));
    assert_eq!(parse_line(&to_chars("网球 ")), Err(Reason::MissingFrequency));
    assert_eq!(parse_line(&to_chars("网球 9a")), Err(Reason::InvalidFrequency));
    assert_eq!(trim(&to_chars(" \u{3000}a b\n")), to_chars("a b"));
    assert_eq!(parse_freq(&to_chars("18446744073709551615")), Some(usize::MAX));
    assert_eq!(parse_freq(&to_chars("18446744073709551616")), None);
    assert_eq!(parse_freq(&to_chars("007")), Some(7));
    assert_eq!(parse_freq(&to_chars("")), None);
}

#[test]
fn strings_and_characters_convert() {
    let chars = to_chars("a网b");
    assert_eq!(chars, vec!['a', '网', 'b']);
    assert_eq!(to_string(&chars, 1, 3), "网b");
    assert_eq!(to_string(&chars, 2, 2), "");
}

#[test]
fn from_dict_builds_or_refuses() {
    let jieba = Jieba::from_dict(&owned(&["一个 5 m", "一 2"])).ok().unwrap();
    assert_eq!(jieba.get("一个"), Some(5));
    assert_eq!(jieba.get("一"), Some(2));
    assert_eq!(jieba.total(), 7);
    let refused = Jieba::from_dict(&owned(&["一个 5 m", "一"]));
    assert_eq!(
        refused.err(),
        Some(DictError::BadDictionary { line_no: 2, reason: Reason::MissingFrequency })
    );
}

#[test]
fn words_are_scored_with_a_positive_frequency() {
    let mut jieba = Jieba::empty();
    jieba.insert("拍卖", 9);
    assert_eq!(jieba.weight(&to_chars("拍卖")), 9);
    assert_eq!(jieba.weight(&to_chars("拍")), 1);
    assert_eq!(jieba.weight(&to_chars("卖")), 1);
}
