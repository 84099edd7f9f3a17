//! Import of a batch of puzzles from CSV: a header row, then one row for
//! each puzzle with its identifier, its solution and its value.

use crate::assoc::{distinct_keys, lemma_push, lemma_update, to_map};
use crate::client::{popup_error, shows, Message, MessageSlot};
use crate::models::{Puzzle, PuzzleEntry, PuzzleView};
use crate::tables::find_puzzle;
use crate::text::{parse_u32, parsed_u32};
use vstd::prelude::*;
use vstd::utf8::encode_utf8;

verus! {

/// The records of a CSV text after its header row, in order: the fields of
/// each record that the reader could read, and `None` for each that it
/// could not.
pub uninterp spec fn csv_records(text: Seq<char>) -> Seq<Option<Seq<Seq<char>>>>;

/// What a record holds.
pub open spec fn row_view(row: Option<Vec<String>>) -> Option<Seq<Seq<char>>> {
    match row {
        Some(fields) => Some(fields.deep_view()),
        None => None,
    }
}

/// What a list of records holds.
pub open spec fn rows_view(rows: Seq<Option<Vec<String>>>) -> Seq<Option<Seq<Seq<char>>>> {
    Seq::new(rows.len(), |i: int| row_view(rows[i]))
}

/// `csv::ReaderBuilder::new`, `has_headers(true)`, `from_reader` on the
/// bytes of the text, and `Reader::records`, each record copied field by
/// field through `StringRecord::iter`.
///
/// Not proved. The claim: what comes out depends on the text alone; it is
/// what `csv_records` stands for.
#[verifier::external_body]
fn read_csv_records(csv_text: &str) -> (r: Vec<Option<Vec<String>>>)
    ensures
        rows_view(r@) == csv_records(csv_text@),
{
    let mut reader = csv::ReaderBuilder::new().has_headers(true).from_reader(csv_text.as_bytes());
    let mut rows = Vec::new();
    for record in reader.records() {
        rows.push(
            match record {
                Ok(fields) => Some(fields.iter().map(String::from).collect()),
                Err(_) => None,
            },
        );
    }
    rows
}

/// The puzzle that a record defines: its first three fields are the
/// identifier, the solution and the value, a number of 32 bits in decimal
/// notation. `None` for a record that could not be read, has fewer than
/// three fields, or whose third field is no such number.
pub open spec fn row_entry(row: Option<Seq<Seq<char>>>) -> Option<(Seq<char>, PuzzleView)> {
    match row {
        None => None,
        Some(fields) => if fields.len() < 3 {
            None
        } else {
            match parsed_u32(encode_utf8(fields[2])) {
                None => None,
                Some(value) => Some((fields[0], PuzzleView { solution: fields[1], value })),
            }
        },
    }
}

/// The puzzles that the records define: a later record replaces an
/// earlier one with the same identifier, and a record that defines none
/// is passed over.
pub open spec fn rows_map(rows: Seq<Option<Seq<Seq<char>>>>) -> Map<Seq<char>, PuzzleView>
    decreases rows.len(),
{
    if rows.len() == 0 {
        Map::empty()
    } else {
        let earlier = rows_map(rows.drop_last());
        match row_entry(rows.last()) {
            Some((id, puzzle)) => earlier.insert(id, puzzle),
            None => earlier,
        }
    }
}

/// Some record defines no puzzle.
pub open spec fn some_row_failed(rows: Seq<Option<Seq<Seq<char>>>>) -> bool {
    exists|i: int| 0 <= i < rows.len() && row_entry(#[trigger] rows[i]) is None
}

/// The complaint about records that were passed over.
pub open spec fn rows_failed_text() -> Seq<char> {
    "néhány sort nem sikerült betölteni, nézd meg a konzolt"@
}

/// One record more: what it adds to the puzzles, and to the failures.
pub proof fn lemma_next_row(rows: Seq<Option<Seq<Seq<char>>>>, i: int)
    requires
        0 <= i < rows.len(),
    ensures
        rows_map(rows.take(i + 1)) == (match row_entry(rows[i]) {
            Some((id, puzzle)) => rows_map(rows.take(i)).insert(id, puzzle),
            None => rows_map(rows.take(i)),
        }),
        some_row_failed(rows.take(i + 1)) == (some_row_failed(rows.take(i)) || row_entry(rows[i])
            is None),
{
    let seen = rows.take(i);
    let now = rows.take(i + 1);
    assert(now.drop_last() =~= seen);
    assert(now.last() == rows[i]);
    if some_row_failed(seen) {
        let k = choose|k: int| 0 <= k < seen.len() && row_entry(#[trigger] seen[k]) is None;
        assert(now[k] == seen[k]);
    }
    if row_entry(rows[i]) is None {
        assert(row_entry(now[i]) is None);
    }
    if some_row_failed(now) {
        let k = choose|k: int| 0 <= k < now.len() && row_entry(#[trigger] now[k]) is None;
        if k < i {
            assert(seen[k] == now[k]);
        }
    }
}

/// The puzzle that a record defines.
fn entry_of_row(row: &Option<Vec<String>>) -> (r: Option<PuzzleEntry>)
    ensures
        r matches Some(entry) ==> row_entry(row_view(*row)) == Some(
            (entry.id@, entry.puzzle.deep_view()),
        ),
        r is None ==> row_entry(row_view(*row)) is None,
{
    match row {
        None => None,
        Some(fields) => {
            if fields.len() < 3 {
                return None;
            }
            proof {
                assert(fields.deep_view()[0] == fields@[0]@);
                assert(fields.deep_view()[1] == fields@[1]@);
                assert(fields.deep_view()[2] == fields@[2]@);
            }
            match parse_u32(fields[2].as_str()) {
                None => None,
                Some(value) => Some(
                    PuzzleEntry {
                        id: fields[0].clone(),
                        puzzle: Puzzle { solution: fields[1].clone(), value },
                    },
                ),
            }
        },
    }
}

/// Collects the puzzles that the records define, and complains on the
/// display if any record defined none.
pub fn puzzles_from_rows(rows: &Vec<Option<Vec<String>>>, message: &mut MessageSlot) -> (r: Vec<
    PuzzleEntry,
>)
    ensures
        distinct_keys(r@),
        to_map(r@) == rows_map(rows_view(rows@)),
        !some_row_failed(rows_view(rows@)) ==> *final(message) == *old(message),
        some_row_failed(rows_view(rows@)) ==> shows(
            *final(message),
            Message::MsgErr,
            rows_failed_text(),
        ),
{
    let ghost views = rows_view(rows@);
    let mut puzzles: Vec<PuzzleEntry> = Vec::new();
    let mut failed = false;
    let mut i: usize = 0;
    proof {
        assert(views.take(0) =~= Seq::empty());
        assert(to_map(puzzles@) =~= Map::empty());
    }
    while i < rows.len()
        invariant
            i <= rows.len(),
            views == rows_view(rows@),
            distinct_keys(puzzles@),
            to_map(puzzles@) == rows_map(views.take(i as int)),
            failed == some_row_failed(views.take(i as int)),
        decreases rows.len() - i,
    {
        let ghost before = puzzles@;
        proof {
            lemma_next_row(views, i as int);
            assert(views[i as int] == row_view(rows@[i as int]));
        }
        match entry_of_row(&rows[i]) {
            None => {
                failed = true;
            },
            Some(entry) => {
                match find_puzzle(&puzzles, entry.id.as_str()) {
                    Some(at) => {
                        proof {
                            lemma_update(before, at as int, entry);
                        }
                        puzzles[at] = entry;
                        proof {
                            assert(puzzles@ =~= before.update(at as int, entry));
                        }
                    },
                    None => {
                        proof {
                            lemma_push(before, entry);
                        }
                        puzzles.push(entry);
                    },
                }
            },
        }
        i += 1;
    }
    proof {
        assert(views.take(rows.len() as int) =~= views);
    }
    if failed {
        popup_error(message, "néhány sort nem sikerült betölteni, nézd meg a konzolt");
    }
    puzzles
}

/// Reads a batch of puzzles from the text of a CSV file, and complains on
/// the display if any of its records defined none.
pub fn parse_puzzle_csv(csv_text: &str, message: &mut MessageSlot) -> (r: Vec<PuzzleEntry>)
    ensures
        distinct_keys(r@),
        to_map(r@) == rows_map(csv_records(csv_text@)),
        !some_row_failed(csv_records(csv_text@)) ==> *final(message) == *old(message),
        some_row_failed(csv_records(csv_text@)) ==> shows(
            *final(message),
            Message::MsgErr,
            rows_failed_text(),
        ),
{
    let rows = read_csv_records(csv_text);
    puzzles_from_rows(&rows, message)
}

} // verus!
