use datasets::babi::{parse_question, parse_statement, parse_stories, parse_usize, StoryError};
use datasets::imdb::parse_rating;

fn lines(text: &[&str]) -> Vec<String> {
    text.iter().map(|l| l.to_string()).collect()
}

fn some(s: &str) -> Option<String> {
    Some(s.to_string())
}

#[test]
fn statement_line_drops_its_number() {
    assert_eq!(parse_statement("1 Mary moved to the bathroom."), some("Mary moved to the bathroom."));
    assert_eq!(parse_statement("12 \t John went."), some("John went."));
}

#[test]
fn statement_line_matches_anywhere() {
    assert_eq!(parse_statement("a1 b"), some("b"));
    assert_eq!(parse_statement("12   "), some(" "));
}

#[test]
fn statement_line_rejects_malformed() {
    assert_eq!(parse_statement("Mary moved."), None);
    assert_eq!(parse_statement("12Mary"), None);
    assert_eq!(parse_statement("12 "), None);
    assert_eq!(parse_statement(""), None);
}

#[test]
fn question_line_splits_into_parts() {
    assert_eq!(
        parse_question("3 Where is Mary? \tbathroom\t1"),
        Some(("Where is Mary".to_string(), "bathroom".to_string(), 1))
    );
    assert_eq!(
        parse_question("15 Where is Daniel?\tthe hallway\t14"),
        Some(("Where is Daniel".to_string(), "the hallway".to_string(), 14))
    );
    assert_eq!(
        parse_question("1 q?x? y 2"),
        Some(("q?x".to_string(), "y".to_string(), 2))
    );
}

#[test]
fn question_line_rejects_malformed() {
    assert_eq!(parse_question("3 Where is Mary \tbathroom\t1"), None);
    assert_eq!(parse_question("3 Where is Mary?bathroom 1"), None);
    assert_eq!(parse_question("3 Where is Mary? bathroom"), None);
    assert_eq!(parse_question("Where is Mary? bathroom 1"), None);
    assert_eq!(parse_question("3 Where is Mary? bathroom 99999999999999999999999"), None);
}

#[test]
fn usize_reads_like_str_parse() {
    assert_eq!(parse_usize("42"), Some(42));
    assert_eq!(parse_usize("+7"), Some(7));
    assert_eq!(parse_usize("0"), Some(0));
    assert_eq!(parse_usize(""), None);
    assert_eq!(parse_usize("+"), None);
    assert_eq!(parse_usize("-1"), None);
    assert_eq!(parse_usize("4a"), None);
    assert_eq!(parse_usize("18446744073709551616"), None);
}

#[test]
fn stories_group_three_lines() {
    let ls = lines(&[
        "1 Mary moved to the bathroom.",
        "2 John went to the hallway.",
        "3 Where is Mary? \tbathroom\t1",
        "4 Daniel went back to the hallway.",
        "5 Sandra moved to the garden.",
        "6 Where is Daniel? \thallway\t4",
        "7 John moved to the office.",
    ]);
    let stories = parse_stories(&ls).unwrap();
    assert_eq!(stories.len(), 2);
    assert_eq!(stories[0].first, "Mary moved to the bathroom.");
    assert_eq!(stories[0].second, "John went to the hallway.");
    assert_eq!(stories[0].question, "Where is Mary");
    assert_eq!(stories[0].answer, "bathroom");
    assert_eq!(stories[0].support, 1);
    assert_eq!(stories[1].first, "Daniel went back to the hallway.");
    assert_eq!(stories[1].answer, "hallway");
    assert_eq!(stories[1].support, 4);
}

#[test]
fn stories_report_first_bad_line() {
    let ls = lines(&[
        "1 Mary moved to the bathroom.",
        "2 John went to the hallway.",
        "3 Where is Mary? \tbathroom\t1",
        "4 Daniel went back to the hallway.",
        "Sandra moved to the garden.",
        "6 Where is Daniel",
    ]);
    assert!(matches!(parse_stories(&ls), Err(StoryError::BadLine(4))));
    assert_eq!(parse_stories(&Vec::new()).unwrap().len(), 0);
    assert_eq!(parse_stories(&lines(&["a1 b"])).unwrap().len(), 0);
}

#[test]
fn rating_from_file_name() {
    assert_eq!(parse_rating(b"123_8.txt"), Some(8));
    assert_eq!(parse_rating(b"0_10.txt"), Some(10));
    assert_eq!(parse_rating(b"7_a_3.txt"), Some(3));
    assert_eq!(parse_rating(b"5_+7.txt"), Some(7));
    assert_eq!(parse_rating(b"42"), Some(42));
}

#[test]
fn rating_rejects_malformed() {
    assert_eq!(parse_rating(b"5_300.txt"), None);
    assert_eq!(parse_rating(b"abc.txt"), None);
    assert_eq!(parse_rating(b"1_.txt"), None);
    assert_eq!(parse_rating(b"1_+.txt"), None);
    assert_eq!(parse_rating(b"1_-3.txt"), None);
}
