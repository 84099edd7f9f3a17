use apollo::error::PersistError;
use apollo::models::{Puzzle, PuzzleEntry, Session, Team};
use apollo::snapshot::{deserialize, serialize, Snapshot};
use ciborium::value::Value;

fn sample() -> Snapshot {
    Snapshot {
        teams: vec![
            Team { name: "alice".into(), solved: vec!["p1".into(), "p2".into()] },
            Team { name: "bob".into(), solved: vec![] },
        ],
        puzzles: vec![
            PuzzleEntry { id: "p1".into(), puzzle: Puzzle { solution: "42".into(), value: 10 } },
            PuzzleEntry {
                id: "p2".into(),
                puzzle: Puzzle { solution: "négy".into(), value: 70000 },
            },
        ],
        sessions: vec![Session {
            id: 0x0102_0304_0506_0708_090a_0b0c_0d0e_0f10,
            username: "alice".into(),
        }],
    }
}

fn empty() -> Snapshot {
    Snapshot { teams: vec![], puzzles: vec![], sessions: vec![] }
}

fn text(s: &str) -> Value {
    Value::Text(s.to_string())
}

fn as_value(s: &Snapshot) -> Value {
    let teams = s
        .teams
        .iter()
        .map(|t| (text(&t.name), Value::Array(t.solved.iter().map(|p| text(p)).collect())))
        .collect();
    let puzzles = s
        .puzzles
        .iter()
        .map(|p| {
            let fields = vec![
                (text("solution"), text(&p.puzzle.solution)),
                (text("value"), Value::Integer(p.puzzle.value.into())),
            ];
            (text(&p.id), Value::Map(fields))
        })
        .collect();
    let sessions = s
        .sessions
        .iter()
        .map(|x| (Value::Bytes(uuid::Uuid::from_u128(x.id).as_bytes().to_vec()), text(&x.username)))
        .collect();
    Value::Array(vec![Value::Map(teams), Value::Map(puzzles), Value::Map(sessions)])
}

#[test]
fn round_trip_of_a_snapshot() {
    let s = sample();
    assert_eq!(deserialize(&serialize(&s)), Ok(sample()));
}

#[test]
fn round_trip_of_the_empty_snapshot() {
    let bytes = serialize(&empty());
    assert_eq!(bytes, vec![0x83, 0xa0, 0xa0, 0xa0]);
    assert_eq!(deserialize(&bytes), Ok(empty()));
}

#[test]
fn exact_bytes_of_a_small_snapshot() {
    let s = Snapshot {
        teams: vec![Team { name: "a".into(), solved: vec!["p".into()] }],
        puzzles: vec![PuzzleEntry {
            id: "p".into(),
            puzzle: Puzzle { solution: "x".into(), value: 500 },
        }],
        sessions: vec![Session { id: 1, username: "a".into() }],
    };
    let mut expected: Vec<u8> = vec![0x83];
    expected.extend_from_slice(&[0xa1, 0x61, b'a', 0x81, 0x61, b'p']);
    expected.extend_from_slice(&[0xa1, 0x61, b'p', 0xa2]);
    expected.extend_from_slice(&[0x68]);
    expected.extend_from_slice(b"solution");
    expected.extend_from_slice(&[0x61, b'x', 0x65]);
    expected.extend_from_slice(b"value");
    expected.extend_from_slice(&[0x19, 0x01, 0xf4]);
    expected.extend_from_slice(&[0xa1, 0x50]);
    expected.extend_from_slice(&[0, 0, 0, 0, 0, 0, 0, 0, 0, 0, 0, 0, 0, 0, 0, 1]);
    expected.extend_from_slice(&[0x61, b'a']);
    assert_eq!(serialize(&s), expected);
}

#[test]
fn the_bytes_are_what_ciborium_writes() {
    for s in [sample(), empty()] {
        let mut written = Vec::new();
        ciborium::into_writer(&as_value(&s), &mut written).unwrap();
        assert_eq!(serialize(&s), written);
        assert_eq!(deserialize(&written), Ok(s));
    }
}

#[test]
fn ciborium_reads_the_bytes() {
    let s = sample();
    let bytes = serialize(&s);
    let read: Value = ciborium::from_reader(bytes.as_slice()).unwrap();
    assert_eq!(read, as_value(&s));
}

#[test]
fn numbers_take_their_shortest_form() {
    for (value, width) in [
        (0u32, 0usize),
        (23, 0),
        (24, 1),
        (255, 1),
        (256, 2),
        (65535, 2),
        (65536, 4),
        (u32::MAX, 4),
    ] {
        let s = Snapshot {
            teams: vec![],
            puzzles: vec![PuzzleEntry {
                id: "".into(),
                puzzle: Puzzle { solution: "".into(), value },
            }],
            sessions: vec![],
        };
        let bytes = serialize(&s);
        assert_eq!(bytes.len(), 3 + 1 + 1 + 9 + 1 + 6 + 1 + width + 1);
        assert_eq!(deserialize(&bytes), Ok(s));
    }
}

#[test]
fn long_lists_and_texts_round_trip() {
    let long_name: String = "x".repeat(300);
    let solved: Vec<String> = (0..300).map(|i| format!("p{}", i)).collect();
    let s = Snapshot {
        teams: vec![Team { name: long_name.clone(), solved }],
        puzzles: (0..30)
            .map(|i| PuzzleEntry {
                id: format!("p{}", i),
                puzzle: Puzzle { solution: "é".repeat(i), value: i as u32 * 1000 },
            })
            .collect(),
        sessions: vec![Session { id: u128::MAX, username: long_name }],
    };
    let bytes = serialize(&s);
    assert_eq!(deserialize(&bytes), Ok(s));
}

#[test]
fn truncated_or_extended_bytes_are_malformed() {
    let bytes = serialize(&sample());
    for cut in 0..bytes.len() {
        assert_eq!(deserialize(&bytes[..cut]), Err(PersistError::Malformed));
    }
    let mut longer = bytes.clone();
    longer.push(0);
    assert_eq!(deserialize(&longer), Err(PersistError::Malformed));
}

#[test]
fn other_shapes_are_malformed() {
    assert_eq!(deserialize(&[]), Err(PersistError::Malformed));
    assert_eq!(deserialize(&[0x82, 0xa0, 0xa0]), Err(PersistError::Malformed));
    assert_eq!(deserialize(&[0x84, 0xa0, 0xa0, 0xa0, 0xa0]), Err(PersistError::Malformed));
    assert_eq!(deserialize(&[0x83, 0x80, 0xa0, 0xa0]), Err(PersistError::Malformed));
    assert_eq!(deserialize(&[0x83, 0xa0, 0xa0, 0x80]), Err(PersistError::Malformed));
    assert_eq!(deserialize(&[0x9f, 0xa0, 0xa0, 0xa0, 0xff]), Err(PersistError::Malformed));
    assert_eq!(deserialize(&[0x98, 0x03, 0xa0, 0xa0, 0xa0]), Err(PersistError::Malformed));
    assert_eq!(deserialize(&[0x83, 0xb8, 0x00, 0xa0, 0xa0]), Err(PersistError::Malformed));
    assert_eq!(deserialize(&[0x83, 0xbf, 0xff, 0xa0, 0xa0]), Err(PersistError::Malformed));
}

#[test]
fn bad_fields_are_malformed() {
    let good = Snapshot {
        teams: vec![],
        puzzles: vec![PuzzleEntry {
            id: "p".into(),
            puzzle: Puzzle { solution: "x".into(), value: 1 },
        }],
        sessions: vec![],
    };
    let bytes = serialize(&good);
    assert_eq!(deserialize(&bytes), Ok(good));
    let at = bytes.iter().position(|b| *b == b's').unwrap();
    let mut wrong_key = bytes.clone();
    wrong_key[at] = b'S';
    assert_eq!(deserialize(&wrong_key), Err(PersistError::Malformed));
    let mut bad_text = bytes.clone();
    bad_text[at] = 0xff;
    assert_eq!(deserialize(&bad_text), Err(PersistError::Malformed));
    let mut too_large = bytes[..bytes.len() - 2].to_vec();
    too_large.extend_from_slice(&[0x1b, 0, 0, 0, 1, 0, 0, 0, 0, 0xa0]);
    assert_eq!(deserialize(&too_large), Err(PersistError::Malformed));
    let mut negative = bytes.clone();
    let n = negative.len();
    negative[n - 2] = 0x21;
    assert_eq!(deserialize(&negative), Err(PersistError::Malformed));
}

#[test]
fn session_identifier_must_be_sixteen_bytes() {
    let mut bytes = vec![0x83, 0xa0, 0xa0, 0xa1, 0x4f];
    bytes.extend_from_slice(&[7u8; 15]);
    bytes.extend_from_slice(&[0x61, b'a']);
    assert_eq!(deserialize(&bytes), Err(PersistError::Malformed));
    let mut bytes = vec![0x83, 0xa0, 0xa0, 0xa1, 0x50];
    bytes.extend_from_slice(&[7u8; 16]);
    bytes.extend_from_slice(&[0x61, b'a']);
    let s = deserialize(&bytes).unwrap();
    assert_eq!(s.sessions[0].id, u128::from_be_bytes([7u8; 16]));
    assert_eq!(s.sessions[0].username, "a");
}

#[test]
fn deserialize_does_not_check_the_store_invariants() {
    let s = Snapshot {
        teams: vec![
            Team { name: "dup".into(), solved: vec![] },
            Team { name: "dup".into(), solved: vec![] },
        ],
        puzzles: vec![],
        sessions: vec![],
    };
    assert!(!s.is_valid());
    assert_eq!(deserialize(&serialize(&s)), Ok(s));
}
