//! The place of each record in the bytes of a snapshot.
//!
//! A team is its name and the array of the puzzles it solved; a puzzle is
//! its identifier and a map of two fields, `solution` and `value`; a
//! session is its identifier as sixteen bytes and the name of its team.

use crate::models::{
    Puzzle, PuzzleEntry, PuzzleEntryView, PuzzleView, Session, SessionView, Team, TeamView,
};
use crate::text::str_eq;
use crate::wire::{
    be_bytes, be_value, fit_list, head, lemma_be_bytes_of_value, lemma_be_limits,
    lemma_be_value_of_bytes, lemma_head_unhead, lemma_skip_prefix, lemma_take_split,
    lemma_unhead_head, lemma_unwire_blob, lemma_unwire_list, lemma_wire_blob_unwire,
    lemma_wire_list_unwire, read_be, read_blob, read_head, read_list, unhead, unwire_blob,
    unwire_list, wire_blob, wire_list, write_be, write_blob, write_head, write_list, Wire,
    MAJOR_ARRAY, MAJOR_BYTES, MAJOR_MAP, MAJOR_TEXT, MAJOR_UINT,
};
use vstd::prelude::*;
use vstd::utf8::{is_ascii_chars, is_ascii_chars_encode_utf8};

verus! {

/// The name of the field that holds a puzzle's solution.
pub open spec fn solution_key() -> Seq<char> {
    "solution"@
}

/// The name of the field that holds a puzzle's value.
pub open spec fn value_key() -> Seq<char> {
    "value"@
}

/// The names of the fields are short enough to be written.
pub proof fn lemma_keys_fit()
    ensures
        String::fits(solution_key()),
        String::fits(value_key()),
{
    reveal_strlit("solution");
    reveal_strlit("value");
    assert(is_ascii_chars(solution_key()));
    assert(is_ascii_chars(value_key()));
    is_ascii_chars_encode_utf8(solution_key());
    is_ascii_chars_encode_utf8(value_key());
}

/// A team: its name, then the array of the puzzles it solved.
impl Wire for Team {
    open spec fn fits(v: TeamView) -> bool {
        String::fits(v.name) && fit_list::<String>(v.solved)
    }

    open spec fn wire(v: TeamView) -> Seq<u8> {
        String::wire(v.name) + wire_list::<String>(MAJOR_ARRAY, v.solved)
    }

    open spec fn unwire(bytes: Seq<u8>) -> Option<(TeamView, nat)> {
        match String::unwire(bytes) {
            None => None,
            Some((name, k)) => match unwire_list::<String>(MAJOR_ARRAY, bytes.skip(k as int)) {
                None => None,
                Some((solved, m)) => Some((TeamView { name, solved }, k + m)),
            },
        }
    }

    proof fn lemma_unwire_wire(v: TeamView, rest: Seq<u8>) {
        let a = String::wire(v.name);
        let b = wire_list::<String>(MAJOR_ARRAY, v.solved);
        String::lemma_unwire_wire(v.name, b + rest);
        assert(Self::wire(v) + rest =~= a + (b + rest));
        lemma_skip_prefix(a, b + rest);
        lemma_unwire_list::<String>(MAJOR_ARRAY, v.solved, rest);
    }

    proof fn lemma_wire_unwire(bytes: Seq<u8>) {
        String::lemma_wire_unwire(bytes);
        let (name, k) = String::unwire(bytes)->0;
        lemma_wire_list_unwire::<String>(MAJOR_ARRAY, bytes.skip(k as int));
        let (solved, m) = unwire_list::<String>(MAJOR_ARRAY, bytes.skip(k as int))->0;
        lemma_take_split(bytes, k, m);
    }

    fn write(&self, out: &mut Vec<u8>) {
        self.name.write(out);
        write_list::<String>(MAJOR_ARRAY, &self.solved, out);
        proof {
            let v = self.deep_view();
            assert(final(out)@ =~= old(out)@ + Self::wire(v));
        }
    }

    fn read(bytes: &[u8], pos: usize) -> (r: Option<(Self, usize)>) {
        let (name, mid) = match String::read(bytes, pos) {
            Some(found) => found,
            None => {
                return None;
            },
        };
        proof {
            assert(bytes@.skip(pos as int).skip(mid - pos) =~= bytes@.skip(mid as int));
        }
        let (solved, end) = match read_list::<String>(MAJOR_ARRAY, bytes, mid) {
            Some(found) => found,
            None => {
                return None;
            },
        };
        Some((Team { name, solved }, end))
    }
}

/// The field that holds a puzzle's solution: its name, then the text.
pub open spec fn wire_solution(solution: Seq<char>) -> Seq<u8> {
    String::wire(solution_key()) + String::wire(solution)
}

/// The solution field that `bytes` start with, and the length of its bytes.
pub open spec fn unwire_solution(bytes: Seq<u8>) -> Option<(Seq<char>, nat)> {
    match String::unwire(bytes) {
        None => None,
        Some((name, k)) => if name != solution_key() {
            None
        } else {
            match String::unwire(bytes.skip(k as int)) {
                None => None,
                Some((solution, m)) => Some((solution, k + m)),
            }
        },
    }
}

/// A solution field that was written is read again, whatever follows it.
pub proof fn lemma_unwire_solution(solution: Seq<char>, rest: Seq<u8>)
    requires
        String::fits(solution),
    ensures
        unwire_solution(wire_solution(solution) + rest) == Some(
            (solution, wire_solution(solution).len()),
        ),
{
    lemma_keys_fit();
    let a = String::wire(solution_key());
    let b = String::wire(solution);
    String::lemma_unwire_wire(solution_key(), b + rest);
    assert(wire_solution(solution) + rest =~= a + (b + rest));
    lemma_skip_prefix(a, b + rest);
    String::lemma_unwire_wire(solution, rest);
}

/// A solution field that was read is what is written for the solution.
pub proof fn lemma_wire_solution_unwire(bytes: Seq<u8>)
    requires
        unwire_solution(bytes) is Some,
    ensures
        ({
            let (solution, k) = unwire_solution(bytes)->0;
            &&& String::fits(solution)
            &&& 1 <= k <= bytes.len()
            &&& bytes.take(k as int) == wire_solution(solution)
        }),
{
    String::lemma_wire_unwire(bytes);
    let (name, k) = String::unwire(bytes)->0;
    String::lemma_wire_unwire(bytes.skip(k as int));
    let (solution, m) = String::unwire(bytes.skip(k as int))->0;
    lemma_take_split(bytes, k, m);
}

/// Reads the solution field that starts at `pos`, and where it ends.
fn read_solution(bytes: &[u8], pos: usize) -> (r: Option<(String, usize)>)
    requires
        pos <= bytes.len(),
    ensures
        r matches Some((solution, end)) ==> pos < end <= bytes.len() && unwire_solution(
            bytes@.skip(pos as int),
        ) == Some((solution@, (end - pos) as nat)),
        r is None ==> unwire_solution(bytes@.skip(pos as int)) is None,
{
    let (name, mid) = match String::read(bytes, pos) {
        Some(found) => found,
        None => {
            return None;
        },
    };
    if !str_eq(name.as_str(), "solution") {
        return None;
    }
    proof {
        assert(bytes@.skip(pos as int).skip(mid - pos) =~= bytes@.skip(mid as int));
    }
    String::read(bytes, mid)
}

/// The field that holds a puzzle's value: its name, then the number.
pub open spec fn wire_value(value: u32) -> Seq<u8> {
    String::wire(value_key()) + head(MAJOR_UINT, value as nat)
}

/// The value field that `bytes` start with, and the length of its bytes.
pub open spec fn unwire_value(bytes: Seq<u8>) -> Option<(u32, nat)> {
    match String::unwire(bytes) {
        None => None,
        Some((name, k)) => if name != value_key() {
            None
        } else {
            match unhead(bytes.skip(k as int)) {
                None => None,
                Some((major, n, m)) => if major != MAJOR_UINT || n > u32::MAX {
                    None
                } else {
                    Some((n as u32, k + m))
                },
            }
        },
    }
}

/// A value field that was written is read again, whatever follows it.
pub proof fn lemma_unwire_value(value: u32, rest: Seq<u8>)
    ensures
        unwire_value(wire_value(value) + rest) == Some((value, wire_value(value).len())),
{
    lemma_keys_fit();
    let a = String::wire(value_key());
    let b = head(MAJOR_UINT, value as nat);
    String::lemma_unwire_wire(value_key(), b + rest);
    assert(wire_value(value) + rest =~= a + (b + rest));
    lemma_skip_prefix(a, b + rest);
    lemma_unhead_head(MAJOR_UINT, value as nat, rest);
}

/// A value field that was read is what is written for the value.
pub proof fn lemma_wire_value_unwire(bytes: Seq<u8>)
    requires
        unwire_value(bytes) is Some,
    ensures
        ({
            let (value, k) = unwire_value(bytes)->0;
            &&& 1 <= k <= bytes.len()
            &&& bytes.take(k as int) == wire_value(value)
        }),
{
    String::lemma_wire_unwire(bytes);
    let (name, k) = String::unwire(bytes)->0;
    lemma_head_unhead(bytes.skip(k as int));
    let (major, n, m) = unhead(bytes.skip(k as int))->0;
    lemma_take_split(bytes, k, m);
}

/// Reads the value field that starts at `pos`, and where it ends.
fn read_value(bytes: &[u8], pos: usize) -> (r: Option<(u32, usize)>)
    requires
        pos <= bytes.len(),
    ensures
        r matches Some((value, end)) ==> pos < end <= bytes.len() && unwire_value(
            bytes@.skip(pos as int),
        ) == Some((value, (end - pos) as nat)),
        r is None ==> unwire_value(bytes@.skip(pos as int)) is None,
{
    let (name, mid) = match String::read(bytes, pos) {
        Some(found) => found,
        None => {
            return None;
        },
    };
    if !str_eq(name.as_str(), "value") {
        return None;
    }
    proof {
        assert(bytes@.skip(pos as int).skip(mid - pos) =~= bytes@.skip(mid as int));
    }
    let (major, n, end) = match read_head(bytes, mid) {
        Some(found) => found,
        None => {
            return None;
        },
    };
    if major != MAJOR_UINT || n > u32::MAX as u64 {
        return None;
    }
    Some((n as u32, end))
}

/// A puzzle: a map of two fields, the solution as text and the value as
/// an unsigned number.
impl Wire for Puzzle {
    open spec fn fits(v: PuzzleView) -> bool {
        String::fits(v.solution)
    }

    open spec fn wire(v: PuzzleView) -> Seq<u8> {
        head(MAJOR_MAP, 2) + wire_solution(v.solution) + wire_value(v.value)
    }

    open spec fn unwire(bytes: Seq<u8>) -> Option<(PuzzleView, nat)> {
        match unhead(bytes) {
            None => None,
            Some((major, fields, k)) => if major != MAJOR_MAP || fields != 2 {
                None
            } else {
                match unwire_solution(bytes.skip(k as int)) {
                    None => None,
                    Some((solution, m)) => match unwire_value(bytes.skip(k as int).skip(m as int)) {
                        None => None,
                        Some((value, n)) => Some((PuzzleView { solution, value }, k + m + n)),
                    },
                }
            },
        }
    }

    proof fn lemma_unwire_wire(v: PuzzleView, rest: Seq<u8>) {
        let h = head(MAJOR_MAP, 2);
        let a = wire_solution(v.solution);
        let b = wire_value(v.value);
        assert(Self::wire(v) + rest =~= h + (a + (b + rest)));
        lemma_unhead_head(MAJOR_MAP, 2, a + (b + rest));
        lemma_skip_prefix(h, a + (b + rest));
        lemma_unwire_solution(v.solution, b + rest);
        lemma_skip_prefix(a, b + rest);
        lemma_unwire_value(v.value, rest);
    }

    proof fn lemma_wire_unwire(bytes: Seq<u8>) {
        let (major, fields, k) = unhead(bytes)->0;
        lemma_head_unhead(bytes);
        let b1 = bytes.skip(k as int);
        lemma_wire_solution_unwire(b1);
        let (solution, m) = unwire_solution(b1)->0;
        let b2 = b1.skip(m as int);
        lemma_wire_value_unwire(b2);
        let (value, n) = unwire_value(b2)->0;
        lemma_take_split(b1, m, n);
        lemma_take_split(bytes, k, m + n);
        let v = PuzzleView { solution, value };
        assert(bytes.take((k + m + n) as int) =~= Self::wire(v));
    }

    fn write(&self, out: &mut Vec<u8>) {
        let ghost start = out@;
        write_head(MAJOR_MAP, 2, out);
        write_blob(MAJOR_TEXT, "solution".as_bytes(), out);
        self.solution.write(out);
        write_blob(MAJOR_TEXT, "value".as_bytes(), out);
        write_head(MAJOR_UINT, self.value as u64, out);
        proof {
            assert(out@ =~= start + Self::wire(self.deep_view()));
        }
    }

    #[verifier::rlimit(50)]
    fn read(bytes: &[u8], pos: usize) -> (r: Option<(Self, usize)>) {
        let (major, fields, fields_at) = match read_head(bytes, pos) {
            Some(found) => found,
            None => {
                return None;
            },
        };
        if major != MAJOR_MAP || fields != 2 {
            return None;
        }
        proof {
            assert(bytes@.skip(pos as int).skip(fields_at - pos) =~= bytes@.skip(fields_at as int));
        }
        let (solution, value_at) = match read_solution(bytes, fields_at) {
            Some(found) => found,
            None => {
                return None;
            },
        };
        proof {
            assert(bytes@.skip(fields_at as int).skip(value_at - fields_at) =~= bytes@.skip(
                value_at as int,
            ));
        }
        let (value, end) = match read_value(bytes, value_at) {
            Some(found) => found,
            None => {
                return None;
            },
        };
        Some((Puzzle { solution, value }, end))
    }
}

/// A puzzle of the catalog: its identifier, then the puzzle.
impl Wire for PuzzleEntry {
    open spec fn fits(v: PuzzleEntryView) -> bool {
        String::fits(v.id) && Puzzle::fits(v.puzzle)
    }

    open spec fn wire(v: PuzzleEntryView) -> Seq<u8> {
        String::wire(v.id) + Puzzle::wire(v.puzzle)
    }

    open spec fn unwire(bytes: Seq<u8>) -> Option<(PuzzleEntryView, nat)> {
        match String::unwire(bytes) {
            None => None,
            Some((id, k)) => match Puzzle::unwire(bytes.skip(k as int)) {
                None => None,
                Some((puzzle, m)) => Some((PuzzleEntryView { id, puzzle }, k + m)),
            },
        }
    }

    proof fn lemma_unwire_wire(v: PuzzleEntryView, rest: Seq<u8>) {
        let a = String::wire(v.id);
        let b = Puzzle::wire(v.puzzle);
        String::lemma_unwire_wire(v.id, b + rest);
        assert(Self::wire(v) + rest =~= a + (b + rest));
        lemma_skip_prefix(a, b + rest);
        Puzzle::lemma_unwire_wire(v.puzzle, rest);
    }

    proof fn lemma_wire_unwire(bytes: Seq<u8>) {
        String::lemma_wire_unwire(bytes);
        let (id, k) = String::unwire(bytes)->0;
        Puzzle::lemma_wire_unwire(bytes.skip(k as int));
        let (puzzle, m) = Puzzle::unwire(bytes.skip(k as int))->0;
        lemma_take_split(bytes, k, m);
    }

    fn write(&self, out: &mut Vec<u8>) {
        self.id.write(out);
        self.puzzle.write(out);
        proof {
            assert(final(out)@ =~= old(out)@ + Self::wire(self.deep_view()));
        }
    }

    #[verifier::rlimit(50)]
    fn read(bytes: &[u8], pos: usize) -> (r: Option<(Self, usize)>) {
        let (id, mid) = match String::read(bytes, pos) {
            Some(found) => found,
            None => {
                return None;
            },
        };
        proof {
            assert(bytes@.skip(pos as int).skip(mid - pos) =~= bytes@.skip(mid as int));
        }
        let (puzzle, end) = match Puzzle::read(bytes, mid) {
            Some(found) => found,
            None => {
                return None;
            },
        };
        Some((PuzzleEntry { id, puzzle }, end))
    }
}

/// A session: its identifier as sixteen bytes, most significant first,
/// then the name of its team.
impl Wire for Session {
    open spec fn fits(v: SessionView) -> bool {
        String::fits(v.username)
    }

    open spec fn wire(v: SessionView) -> Seq<u8> {
        wire_blob(MAJOR_BYTES, be_bytes(v.id as nat, 16)) + String::wire(v.username)
    }

    open spec fn unwire(bytes: Seq<u8>) -> Option<(SessionView, nat)> {
        match unwire_blob(MAJOR_BYTES, bytes) {
            None => None,
            Some((raw, k)) => if raw.len() != 16 {
                None
            } else {
                match String::unwire(bytes.skip(k as int)) {
                    None => None,
                    Some((username, m)) => Some(
                        (SessionView { id: be_value(raw) as u128, username }, k + m),
                    ),
                }
            },
        }
    }

    proof fn lemma_unwire_wire(v: SessionView, rest: Seq<u8>) {
        lemma_be_limits();
        lemma_be_value_of_bytes(v.id as nat, 16);
        let raw = be_bytes(v.id as nat, 16);
        let a = wire_blob(MAJOR_BYTES, raw);
        let b = String::wire(v.username);
        lemma_unwire_blob(MAJOR_BYTES, raw, b + rest);
        assert(Self::wire(v) + rest =~= a + (b + rest));
        lemma_skip_prefix(a, b + rest);
        String::lemma_unwire_wire(v.username, rest);
    }

    proof fn lemma_wire_unwire(bytes: Seq<u8>) {
        lemma_be_limits();
        lemma_wire_blob_unwire(MAJOR_BYTES, bytes);
        let (raw, k) = unwire_blob(MAJOR_BYTES, bytes)->0;
        lemma_be_bytes_of_value(raw);
        String::lemma_wire_unwire(bytes.skip(k as int));
        let (username, m) = String::unwire(bytes.skip(k as int))->0;
        lemma_take_split(bytes, k, m);
    }

    fn write(&self, out: &mut Vec<u8>) {
        let mut raw: Vec<u8> = Vec::new();
        write_be(self.id, 16, &mut raw);
        proof {
            assert(raw@ =~= be_bytes(self.id as nat, 16));
        }
        write_blob(MAJOR_BYTES, raw.as_slice(), out);
        self.username.write(out);
        proof {
            assert(final(out)@ =~= old(out)@ + Self::wire(self.deep_view()));
        }
    }

    fn read(bytes: &[u8], pos: usize) -> (r: Option<(Self, usize)>) {
        let (raw, mid) = match read_blob(MAJOR_BYTES, bytes, pos) {
            Some(found) => found,
            None => {
                return None;
            },
        };
        if raw.len() != 16 {
            return None;
        }
        let id = read_be(raw.as_slice(), 0, 16);
        proof {
            assert(raw@.subrange(0, 16) =~= raw@);
            assert(bytes@.skip(pos as int).skip(mid - pos) =~= bytes@.skip(mid as int));
        }
        let (username, end) = match String::read(bytes, mid) {
            Some(found) => found,
            None => {
                return None;
            },
        };
        Some((Session { id, username }, end))
    }
}

} // verus!
