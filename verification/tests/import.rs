use apollo::client::Message;
use apollo::import::{parse_puzzle_csv, puzzles_from_rows};
use apollo::models::{Puzzle, PuzzleEntry};

fn entry(id: &str, solution: &str, value: u32) -> PuzzleEntry {
    PuzzleEntry { id: id.to_string(), puzzle: Puzzle { solution: solution.to_string(), value } }
}

const COMPLAINT: &str = "néhány sort nem sikerült betölteni, nézd meg a konzolt";

#[test]
fn csv_with_a_header_row_is_read() {
    let mut message = None;
    let batch = parse_puzzle_csv("id,solution,value\np1,42,10\np2,hello world,5\n", &mut message);
    assert_eq!(batch, vec![entry("p1", "42", 10), entry("p2", "hello world", 5)]);
    assert_eq!(message, None);
}

#[test]
fn header_row_is_not_a_puzzle() {
    let mut message = None;
    assert_eq!(parse_puzzle_csv("a,b,1\n", &mut message), Vec::<PuzzleEntry>::new());
    assert_eq!(parse_puzzle_csv("", &mut message), Vec::<PuzzleEntry>::new());
    assert_eq!(message, None);
}

#[test]
fn quoted_fields_are_unquoted() {
    let mut message = None;
    let batch = parse_puzzle_csv("id,solution,value\n\"p,1\",\"a \"\"b\"\"\",7\n", &mut message);
    assert_eq!(batch, vec![entry("p,1", "a \"b\"", 7)]);
    assert_eq!(message, None);
}

#[test]
fn rows_with_a_bad_value_are_passed_over_with_a_complaint() {
    let mut message = None;
    let text = "id,solution,value\np1,42,ten\np2,x,5\np3,y,-1\np4,z,4294967296\np5,w,4294967295\n";
    let batch = parse_puzzle_csv(text, &mut message);
    assert_eq!(batch, vec![entry("p2", "x", 5), entry("p5", "w", u32::MAX)]);
    assert_eq!(message, Some((Message::MsgErr, COMPLAINT.to_string())));
}

#[test]
fn rows_of_another_length_are_passed_over_with_a_complaint() {
    let mut message = None;
    let batch = parse_puzzle_csv("id,solution,value\np1,42\np2,x,5\np3,y,1,extra\n", &mut message);
    assert_eq!(batch, vec![entry("p2", "x", 5)]);
    assert_eq!(message, Some((Message::MsgErr, COMPLAINT.to_string())));
}

#[test]
fn a_later_row_replaces_an_earlier_one_with_the_same_identifier() {
    let mut message = Some((Message::MsgNorm, "before".to_string()));
    let batch = parse_puzzle_csv("id,solution,value\np1,a,1\np2,b,2\np1,c,3\n", &mut message);
    assert_eq!(batch, vec![entry("p1", "c", 3), entry("p2", "b", 2)]);
    assert_eq!(message, Some((Message::MsgNorm, "before".to_string())));
}

#[test]
fn more_than_three_fields_in_every_row_are_fine() {
    let mut message = None;
    let batch = parse_puzzle_csv("id,solution,value,note\np1,a,+1,first\n", &mut message);
    assert_eq!(batch, vec![entry("p1", "a", 1)]);
    assert_eq!(message, None);
}

#[test]
fn rows_are_collected_without_the_reader() {
    let strings = |list: &[&str]| Some(list.iter().map(|s| s.to_string()).collect::<Vec<_>>());
    let rows = vec![
        strings(&["a", "1", "1"]),
        None,
        strings(&["b", "2"]),
        strings(&["c", "3", "x3"]),
        strings(&["a", "4", "004", "ignored"]),
        strings(&["", "", "0"]),
    ];
    let mut message = None;
    let batch = puzzles_from_rows(&rows, &mut message);
    assert_eq!(batch, vec![entry("a", "4", 4), entry("", "", 0)]);
    assert_eq!(message, Some((Message::MsgErr, COMPLAINT.to_string())));
    let mut message = None;
    assert_eq!(puzzles_from_rows(&vec![], &mut message), Vec::<PuzzleEntry>::new());
    assert_eq!(message, None);
}
