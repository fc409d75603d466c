use rpfm_extensions::matching::{MatchingMode, SearchRegex};
use rpfm_extensions::text::{Text, TextMatch, TextMatches};

fn tm(column: u64, row: u64, len: i64, text: &str) -> TextMatch {
    TextMatch::new(column, row, len, text.to_owned())
}

fn search(contents: &str, pattern: &str, case_sensitive: bool, mode: &MatchingMode) -> Vec<TextMatch> {
    let text = Text::new(contents.to_owned());
    text.search("file.txt", pattern, case_sensitive, mode).matches().clone()
}

#[test]
fn new_text_matches_is_empty() {
    let matches = TextMatches::new("db/text/file.txt");
    assert_eq!(matches.path(), "db/text/file.txt");
    assert!(matches.matches().is_empty());
}

#[test]
fn new_text_match_keeps_its_fields() {
    let m = TextMatch::new(3, 7, -2, "line".to_owned());
    assert_eq!(*m.column(), 3);
    assert_eq!(*m.row(), 7);
    assert_eq!(*m.len(), -2);
    assert_eq!(m.text(), "line");
}

#[test]
fn text_match_mut_getters_write_through() {
    let mut m = TextMatch::new(1, 2, 3, "a".to_owned());
    *m.column_mut() = 10;
    *m.row_mut() = 20;
    *m.len_mut() = 30;
    m.text_mut().push('b');
    assert_eq!(m, TextMatch::new(10, 20, 30, "ab".to_owned()));
    let mut ms = TextMatches::new("p");
    ms.matches_mut().push(m.clone());
    ms.path_mut().push('q');
    assert_eq!(ms.path(), "pq");
    assert_eq!(ms.matches(), &vec![m]);
}

#[test]
fn search_pattern_case_sensitive_finds_every_occurrence() {
    let found = search("hello world\nworld hello world", "world", true, &MatchingMode::Pattern);
    assert_eq!(
        found,
        vec![
            tm(6, 0, 5, "hello world"),
            tm(0, 1, 5, "world hello world"),
            tm(12, 1, 5, "world hello world"),
        ]
    );
}

#[test]
fn search_pattern_case_sensitive_skips_other_case() {
    let found = search("World world WORLD", "world", true, &MatchingMode::Pattern);
    assert_eq!(found, vec![tm(6, 0, 5, "World world WORLD")]);
}

#[test]
fn search_pattern_case_insensitive_lowercases_the_line() {
    let found = search("Hello HELLO hello", "hello", false, &MatchingMode::Pattern);
    assert_eq!(
        found,
        vec![
            tm(0, 0, 5, "Hello HELLO hello"),
            tm(6, 0, 5, "Hello HELLO hello"),
            tm(12, 0, 5, "Hello HELLO hello"),
        ]
    );
}

#[test]
fn search_pattern_case_insensitive_keeps_the_pattern_as_given() {
    let found = search("Hello", "Hello", false, &MatchingMode::Pattern);
    assert!(found.is_empty());
}

#[test]
fn search_pattern_matches_do_not_overlap() {
    let found = search("aaaaa", "aa", true, &MatchingMode::Pattern);
    assert_eq!(found, vec![tm(0, 0, 2, "aaaaa"), tm(2, 0, 2, "aaaaa")]);
}

#[test]
fn search_pattern_not_found() {
    assert!(search("abc\ndef", "xyz", true, &MatchingMode::Pattern).is_empty());
}

#[test]
fn search_empty_text_finds_nothing() {
    assert!(search("", "a", true, &MatchingMode::Pattern).is_empty());
    assert!(search("", "", true, &MatchingMode::Pattern).is_empty());
}

#[test]
fn search_columns_are_byte_offsets() {
    let found = search("h\u{e9}llo w\u{f6}rld", "l", true, &MatchingMode::Pattern);
    let line = "h\u{e9}llo w\u{f6}rld";
    assert_eq!(found, vec![tm(3, 0, 1, line), tm(4, 0, 1, line), tm(11, 0, 1, line)]);
}

#[test]
fn search_lines_drop_crlf_and_final_newline() {
    let found = search("ab\r\ncab\n\nab\r", "b", true, &MatchingMode::Pattern);
    assert_eq!(
        found,
        vec![tm(1, 0, 1, "ab"), tm(2, 1, 1, "cab"), tm(1, 3, 1, "ab\r")]
    );
}

#[test]
fn search_regex_finds_each_match() {
    let re = SearchRegex::new("[0-9]+").unwrap();
    assert_eq!(re.as_str(), "[0-9]+");
    let found = search("foo123 bar45\nno digits\n7", "ignored", true, &MatchingMode::Regex(re));
    assert_eq!(
        found,
        vec![
            tm(3, 0, 3, "foo123 bar45"),
            tm(10, 0, 2, "foo123 bar45"),
            tm(0, 2, 1, "7"),
        ]
    );
}

#[test]
fn search_regex_reports_empty_matches_with_zero_length() {
    let re = SearchRegex::new("^").unwrap();
    let found = search("ab\ncd", "", true, &MatchingMode::Regex(re));
    assert_eq!(found, vec![tm(0, 0, 0, "ab"), tm(0, 1, 0, "cd")]);
}

#[test]
fn search_regex_invalid_pattern_is_refused() {
    assert!(SearchRegex::new("(unclosed").is_none());
}

#[test]
fn search_keeps_the_file_path() {
    let text = Text::new("x".to_owned());
    let matches = text.search("some/path.txt", "x", true, &MatchingMode::Pattern);
    assert_eq!(matches.path(), "some/path.txt");
    assert_eq!(matches.matches().len(), 1);
}

#[test]
fn replace_every_match_of_a_search() {
    let mut text = Text::new("hello world\nworld hello world".to_owned());
    let found = text.search("f", "world", true, &MatchingMode::Pattern);
    let edited = text.replace("world", "there", true, &MatchingMode::Pattern, &found);
    assert!(edited);
    assert_eq!(text.contents(), "hello there\nthere hello there");
}

#[test]
fn replace_with_a_longer_text_in_one_line() {
    let mut text = Text::new("a-a-a".to_owned());
    let found = text.search("f", "a", true, &MatchingMode::Pattern);
    assert!(text.replace("a", "xyz", true, &MatchingMode::Pattern, &found));
    assert_eq!(text.contents(), "xyz-xyz-xyz");
}

#[test]
fn replace_regex_matches() {
    let mut text = Text::new("v1 and v22\nv333".to_owned());
    let mode = MatchingMode::Regex(SearchRegex::new("[0-9]+").unwrap());
    let found = text.search("f", "", true, &mode);
    assert!(text.replace("", "#", true, &mode, &found));
    assert_eq!(text.contents(), "v# and v#\nv#");
}

#[test]
fn replace_nothing_leaves_the_text() {
    let mut text = Text::new("abc\r\n".to_owned());
    let found = TextMatches::new("f");
    assert!(!text.replace("x", "y", true, &MatchingMode::Pattern, &found));
    assert_eq!(text.contents(), "abc\r\n");
}

#[test]
fn replace_with_the_same_text_is_no_edit() {
    let mut text = Text::new("abc\ndef".to_owned());
    let found = text.search("f", "b", true, &MatchingMode::Pattern);
    assert!(!text.replace("b", "b", true, &MatchingMode::Pattern, &found));
    assert_eq!(text.contents(), "abc\ndef");
}

#[test]
fn replace_rejoins_lines_with_line_feeds() {
    let mut text = Text::new("a\r\nb\n".to_owned());
    let found = text.search("f", "a", true, &MatchingMode::Pattern);
    assert!(text.replace("a", "X", true, &MatchingMode::Pattern, &found));
    assert_eq!(text.contents(), "X\nb");
}

#[test]
fn text_match_replace_in_its_row() {
    let m = TextMatch::new(2, 1, 3, "ignored".to_owned());
    let mut data = "first\nabcdefg\nlast".to_owned();
    assert!(m.replace("XY", &mut data));
    assert_eq!(data, "first\nabXYfg\nlast");
}

#[test]
fn text_match_replace_past_the_last_row_only_rejoins() {
    let m = TextMatch::new(0, 5, 1, String::new());
    let mut data = "abc\n".to_owned();
    assert!(m.replace("z", &mut data));
    assert_eq!(data, "abc");
    let mut same = "abc".to_owned();
    assert!(!m.replace("z", &mut same));
    assert_eq!(same, "abc");
}

#[test]
fn text_match_replace_multibyte_range() {
    let m = TextMatch::new(1, 0, 2, String::new());
    let mut data = "h\u{e9}llo".to_owned();
    assert!(m.replace("e", &mut data));
    assert_eq!(data, "hello");
}

#[test]
fn text_match_replace_empty_range_inserts() {
    let m = TextMatch::new(1, 0, 0, String::new());
    let mut data = "ac".to_owned();
    assert!(m.replace("b", &mut data));
    assert_eq!(data, "abc");
}

#[test]
fn search_case_insensitive_columns_are_in_the_lowercased_line() {
    // 'İ' takes two bytes and lower-cases to three: the column is counted in
    // the lower-cased line, as the search does.
    let found = search("\u{130}x", "x", false, &MatchingMode::Pattern);
    assert_eq!(found, vec![tm(3, 0, 1, "\u{130}x")]);
}

#[test]
fn search_pattern_longer_than_the_line() {
    assert!(search("ab\nabc", "abcd", true, &MatchingMode::Pattern).is_empty());
}

#[test]
fn search_regex_columns_are_byte_offsets() {
    let re = SearchRegex::new("w.r").unwrap();
    let line = "h\u{e9}llo w\u{f6}rld";
    let found = search(line, "", true, &MatchingMode::Regex(re));
    assert_eq!(found, vec![tm(7, 0, 4, line)]);
}

#[test]
fn replace_all_found_matches_in_a_crlf_text() {
    let mut text = Text::new("ab\r\nbab\r\n".to_owned());
    let found = text.search("f", "b", true, &MatchingMode::Pattern);
    assert_eq!(found.matches().len(), 3);
    assert!(text.replace("b", "xy", true, &MatchingMode::Pattern, &found));
    assert_eq!(text.contents(), "axy\nxyaxy");
}

#[test]
fn replace_by_the_pattern_keeps_a_plain_text() {
    let mut text = Text::new("one two\n\ntwo one two".to_owned());
    let found = text.search("f", "two", true, &MatchingMode::Pattern);
    assert_eq!(found.matches().len(), 3);
    assert!(!text.replace("two", "two", true, &MatchingMode::Pattern, &found));
    assert_eq!(text.contents(), "one two\n\ntwo one two");
}

#[test]
fn replace_found_matches_by_text_with_line_breaks() {
    let mut text = Text::new("a,b,c\nd,e".to_owned());
    let found = text.search("f", ",", true, &MatchingMode::Pattern);
    assert_eq!(found.matches().len(), 3);
    assert!(text.replace(",", "\n", true, &MatchingMode::Pattern, &found));
    assert_eq!(text.contents(), "a\nb\nc\nd\ne");
}

#[test]
fn replace_found_matches_by_text_with_carriage_returns() {
    let mut text = Text::new("x-y-z\r\nw-v".to_owned());
    let found = text.search("f", "-", true, &MatchingMode::Pattern);
    assert_eq!(found.matches().len(), 3);
    assert!(text.replace("-", "\r", true, &MatchingMode::Pattern, &found));
    assert_eq!(text.contents(), "x\ry\rz\nw\rv");
}

#[test]
fn text_match_replace_ignores_its_line_text() {
    let a = TextMatch::new(1, 0, 1, "one".to_owned());
    let b = TextMatch::new(1, 0, 1, "two".to_owned());
    let mut d1 = "abc".to_owned();
    let mut d2 = "abc".to_owned();
    assert_eq!(a.replace("X", &mut d1), b.replace("X", &mut d2));
    assert_eq!(d1, d2);
    assert_eq!(d1, "aXc");
}

#[test]
fn replace_found_matches_is_replacing_every_occurrence() {
    let contents = "aaa\nbaab aa";
    let mut text = Text::new(contents.to_owned());
    let found = text.search("f", "aa", true, &MatchingMode::Pattern);
    assert_eq!(found.matches().len(), 3);
    assert!(text.replace("aa", "x", true, &MatchingMode::Pattern, &found));
    assert_eq!(text.contents(), &contents.replace("aa", "x"));
    assert_eq!(text.contents(), "xa\nbxb x");
}
