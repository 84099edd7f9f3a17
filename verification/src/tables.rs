//! Searching the lists that the store keeps, and checking what must hold of
//! them.

use crate::assoc::{distinct_keys, has_key, lemma_absent, lemma_same_map, to_map, Keyed};
use crate::models::{PuzzleEntry, PuzzleId, PuzzleValue, Session, SessionId, Team};
use crate::state::{distinct_names, lemma_names_same, names_set, reserved_name, tables_wf};
use crate::text::str_eq;
use vstd::prelude::*;

verus! {

/// The position of `name` in a list of names.
pub fn find_name(names: &Vec<String>, name: &str) -> (r: Option<usize>)
    ensures
        r matches Some(i) ==> i < names.len() && names@[i as int]@ == name@,
        r is None ==> !names_set(names@).contains(name@),
        r is Some ==> names_set(names@).contains(name@),
{
    let mut i: usize = 0;
    while i < names.len()
        invariant
            i <= names.len(),
            forall|j: int| 0 <= j < i ==> (#[trigger] names@[j])@ != name@,
        decreases names.len() - i,
    {
        if str_eq(names[i].as_str(), name) {
            return Some(i);
        }
        i += 1;
    }
    None
}

/// The position of the team called `name`.
pub fn find_team(teams: &Vec<Team>, name: &str) -> (r: Option<usize>)
    ensures
        r matches Some(i) ==> i < teams.len() && teams@[i as int].name@ == name@,
        r is None ==> !has_key(teams@, name@),
{
    let mut i: usize = 0;
    while i < teams.len()
        invariant
            i <= teams.len(),
            forall|j: int| 0 <= j < i ==> (#[trigger] teams@[j]).name@ != name@,
        decreases teams.len() - i,
    {
        if str_eq(teams[i].name.as_str(), name) {
            return Some(i);
        }
        i += 1;
    }
    proof {
        lemma_absent(teams@, name@);
    }
    None
}

/// The position of the puzzle with identifier `id`.
pub fn find_puzzle(puzzles: &Vec<PuzzleEntry>, id: &str) -> (r: Option<usize>)
    ensures
        r matches Some(i) ==> i < puzzles.len() && puzzles@[i as int].id@ == id@,
        r is None ==> !has_key(puzzles@, id@),
{
    let mut i: usize = 0;
    while i < puzzles.len()
        invariant
            i <= puzzles.len(),
            forall|j: int| 0 <= j < i ==> (#[trigger] puzzles@[j]).id@ != id@,
        decreases puzzles.len() - i,
    {
        if str_eq(puzzles[i].id.as_str(), id) {
            return Some(i);
        }
        i += 1;
    }
    proof {
        lemma_absent(puzzles@, id@);
    }
    None
}

/// The position of the session with identifier `sid`.
pub fn find_session(sessions: &Vec<Session>, sid: SessionId) -> (r: Option<usize>)
    ensures
        r matches Some(i) ==> i < sessions.len() && sessions@[i as int].id == sid,
        r is None ==> !has_key(sessions@, sid),
{
    let mut i: usize = 0;
    while i < sessions.len()
        invariant
            i <= sessions.len(),
            forall|j: int| 0 <= j < i ==> (#[trigger] sessions@[j]).id != sid,
        decreases sessions.len() - i,
    {
        if sessions[i].id == sid {
            return Some(i);
        }
        i += 1;
    }
    proof {
        lemma_absent(sessions@, sid);
    }
    None
}

/// The position of the session that is active for the team `name`.
pub fn find_session_of(sessions: &Vec<Session>, name: &str) -> (r: Option<usize>)
    ensures
        r matches Some(i) ==> i < sessions.len() && sessions@[i as int].username@ == name@,
        r is None ==> forall|j: int|
            0 <= j < sessions.len() ==> (#[trigger] sessions@[j]).username@ != name@,
{
    let mut i: usize = 0;
    while i < sessions.len()
        invariant
            i <= sessions.len(),
            forall|j: int| 0 <= j < i ==> (#[trigger] sessions@[j]).username@ != name@,
        decreases sessions.len() - i,
    {
        if str_eq(sessions[i].username.as_str(), name) {
            return Some(i);
        }
        i += 1;
    }
    None
}

/// Whether a batch of puzzles defines a puzzle twice, or one that the
/// catalog already holds.
pub fn batch_clashes(puzzles: &Vec<PuzzleEntry>, batch: &Vec<PuzzleEntry>) -> (r: bool)
    ensures
        r == (!distinct_keys(batch@) || exists|i: int|
            0 <= i < batch.len() && has_key(puzzles@, (#[trigger] batch@[i]).id@)),
{
    let mut i: usize = 0;
    while i < batch.len()
        invariant
            i <= batch.len(),
            forall|a: int, b: int|
                0 <= a < b < i ==> (#[trigger] batch@[a]).id@ != (#[trigger] batch@[b]).id@,
            forall|a: int| 0 <= a < i ==> !has_key(puzzles@, (#[trigger] batch@[a]).id@),
        decreases batch.len() - i,
    {
        if find_puzzle(puzzles, batch[i].id.as_str()).is_some() {
            return true;
        }
        let mut j: usize = 0;
        while j < i
            invariant
                j <= i < batch.len(),
                forall|a: int| 0 <= a < j ==> (#[trigger] batch@[a]).id@ != batch@[i as int].id@,
            decreases i - j,
        {
            if str_eq(batch[j].id.as_str(), batch[i].id.as_str()) {
                assert(batch@[j as int].key() == batch@[i as int].key());
                return true;
            }
            j += 1;
        }
        i += 1;
    }
    false
}

/// A copy of a list of teams.
pub fn clone_teams(teams: &Vec<Team>) -> (r: Vec<Team>)
    ensures
        r.len() == teams.len(),
        r.deep_view() == teams.deep_view(),
        distinct_keys(teams@) ==> distinct_keys(r@) && to_map(r@) == to_map(teams@),
        forall|i: int|
            0 <= i < r.len() ==> distinct_names((#[trigger] r@[i]).solved@) == distinct_names(
                teams@[i].solved@,
            ),
{
    let mut out: Vec<Team> = Vec::new();
    let mut i: usize = 0;
    while i < teams.len()
        invariant
            i <= teams.len(),
            out.len() == i,
            forall|j: int| 0 <= j < i ==> (#[trigger] out@[j]).deep_view() == teams@[j].deep_view(),
        decreases teams.len() - i,
    {
        out.push(teams[i].clone());
        i += 1;
    }
    proof {
        assert(out.deep_view() =~= teams.deep_view());
        assert forall|j: int| 0 <= j < out.len() implies (#[trigger] out@[j]).key()
            == teams@[j].key() && out@[j].value() == teams@[j].value() && distinct_names(
            out@[j].solved@,
        ) == distinct_names(teams@[j].solved@) by {
            let a = out@[j].solved;
            let b = teams@[j].solved;
            assert(out@[j].deep_view().solved == teams@[j].deep_view().solved);
            assert(a.deep_view().len() == b.deep_view().len());
            assert forall|k: int| 0 <= k < a@.len() implies (#[trigger] a@[k])@ == b@[k]@ by {
                assert(a.deep_view()[k] == b.deep_view()[k]);
            }
            lemma_names_same(a@, b@);
        }
        lemma_same_map(teams@, out@);
    }
    out
}

/// A copy of a list of puzzles.
pub fn clone_puzzles(puzzles: &Vec<PuzzleEntry>) -> (r: Vec<PuzzleEntry>)
    ensures
        r.len() == puzzles.len(),
        r.deep_view() == puzzles.deep_view(),
        distinct_keys(puzzles@) ==> distinct_keys(r@) && to_map(r@) == to_map(puzzles@),
{
    let mut out: Vec<PuzzleEntry> = Vec::new();
    let mut i: usize = 0;
    while i < puzzles.len()
        invariant
            i <= puzzles.len(),
            out.len() == i,
            forall|j: int|
                0 <= j < i ==> (#[trigger] out@[j]).deep_view() == puzzles@[j].deep_view(),
        decreases puzzles.len() - i,
    {
        out.push(puzzles[i].clone());
        i += 1;
    }
    proof {
        assert(out.deep_view() =~= puzzles.deep_view());
        lemma_same_map(puzzles@, out@);
    }
    out
}

/// A copy of a list of sessions.
pub fn clone_sessions(sessions: &Vec<Session>) -> (r: Vec<Session>)
    ensures
        r.len() == sessions.len(),
        r.deep_view() == sessions.deep_view(),
        distinct_keys(sessions@) ==> distinct_keys(r@) && to_map(r@) == to_map(sessions@),
        forall|i: int| 0 <= i < r.len() ==> (#[trigger] r@[i]).username@ == sessions@[i].username@,
{
    let mut out: Vec<Session> = Vec::new();
    let mut i: usize = 0;
    while i < sessions.len()
        invariant
            i <= sessions.len(),
            out.len() == i,
            forall|j: int|
                0 <= j < i ==> (#[trigger] out@[j]).deep_view() == sessions@[j].deep_view(),
        decreases sessions.len() - i,
    {
        out.push(sessions[i].clone());
        i += 1;
    }
    proof {
        assert(out.deep_view() =~= sessions.deep_view());
        lemma_same_map(sessions@, out@);
    }
    out
}

/// Each puzzle's identifier and value, without its solution.
pub fn puzzle_values(puzzles: &Vec<PuzzleEntry>) -> (r: Vec<(PuzzleId, PuzzleValue)>)
    ensures
        r.len() == puzzles.len(),
        forall|i: int|
            0 <= i < r.len() ==> (#[trigger] r@[i]).0@ == puzzles@[i].id@ && r@[i].1
                == puzzles@[i].puzzle.value,
{
    let mut out: Vec<(PuzzleId, PuzzleValue)> = Vec::new();
    let mut i: usize = 0;
    while i < puzzles.len()
        invariant
            i <= puzzles.len(),
            out.len() == i,
            forall|j: int|
                0 <= j < i ==> (#[trigger] out@[j]).0@ == puzzles@[j].id@ && out@[j].1
                    == puzzles@[j].puzzle.value,
        decreases puzzles.len() - i,
    {
        out.push((puzzles[i].id.clone(), puzzles[i].puzzle.value));
        i += 1;
    }
    out
}

/// Whether no name occurs twice in the list.
pub fn names_are_distinct(names: &Vec<String>) -> (r: bool)
    ensures
        r == distinct_names(names@),
{
    let mut i: usize = 0;
    while i < names.len()
        invariant
            i <= names.len(),
            forall|a: int, b: int|
                0 <= a < b < i ==> (#[trigger] names@[a])@ != (#[trigger] names@[b])@,
        decreases names.len() - i,
    {
        let mut j: usize = 0;
        while j < i
            invariant
                j <= i < names.len(),
                forall|a: int| 0 <= a < j ==> (#[trigger] names@[a])@ != names@[i as int]@,
            decreases i - j,
        {
            if str_eq(names[j].as_str(), names[i].as_str()) {
                return false;
            }
            j += 1;
        }
        i += 1;
    }
    true
}

/// Whether three lists satisfy together what a store asks of them.
pub fn check_tables(teams: &Vec<Team>, puzzles: &Vec<PuzzleEntry>, sessions: &Vec<Session>) -> (r:
    bool)
    ensures
        r == tables_wf(teams@, puzzles@, sessions@),
{
    let mut i: usize = 0;
    while i < teams.len()
        invariant
            i <= teams.len(),
            forall|a: int, b: int|
                0 <= a < b < i ==> (#[trigger] teams@[a]).name@ != (#[trigger] teams@[b]).name@,
            forall|a: int| 0 <= a < i ==> distinct_names((#[trigger] teams@[a]).solved@),
            forall|a: int| 0 <= a < i ==> (#[trigger] teams@[a]).name@ != reserved_name(),
        decreases teams.len() - i,
    {
        if str_eq(teams[i].name.as_str(), "admin") {
            return false;
        }
        if !names_are_distinct(&teams[i].solved) {
            return false;
        }
        let mut j: usize = 0;
        while j < i
            invariant
                j <= i < teams.len(),
                forall|a: int| 0 <= a < j ==> (#[trigger] teams@[a]).name@ != teams@[i as int].name@,
            decreases i - j,
        {
            if str_eq(teams[j].name.as_str(), teams[i].name.as_str()) {
                assert(teams@[j as int].key() == teams@[i as int].key());
                return false;
            }
            j += 1;
        }
        i += 1;
    }
    let mut i: usize = 0;
    while i < puzzles.len()
        invariant
            i <= puzzles.len(),
            forall|a: int, b: int|
                0 <= a < b < i ==> (#[trigger] puzzles@[a]).id@ != (#[trigger] puzzles@[b]).id@,
        decreases puzzles.len() - i,
    {
        let mut j: usize = 0;
        while j < i
            invariant
                j <= i < puzzles.len(),
                forall|a: int| 0 <= a < j ==> (#[trigger] puzzles@[a]).id@ != puzzles@[i as int].id@,
            decreases i - j,
        {
            if str_eq(puzzles[j].id.as_str(), puzzles[i].id.as_str()) {
                assert(puzzles@[j as int].key() == puzzles@[i as int].key());
                return false;
            }
            j += 1;
        }
        i += 1;
    }
    let mut i: usize = 0;
    while i < sessions.len()
        invariant
            i <= sessions.len(),
            forall|a: int, b: int|
                0 <= a < b < i ==> (#[trigger] sessions@[a]).id != (#[trigger] sessions@[b]).id,
            forall|a: int, b: int|
                0 <= a < b < i ==> (#[trigger] sessions@[a]).username@ != (
                #[trigger] sessions@[b]).username@,
            forall|a: int| 0 <= a < i ==> has_key(teams@, (#[trigger] sessions@[a]).username@),
        decreases sessions.len() - i,
    {
        if find_team(teams, sessions[i].username.as_str()).is_none() {
            return false;
        }
        let mut j: usize = 0;
        while j < i
            invariant
                j <= i < sessions.len(),
                forall|a: int| 0 <= a < j ==> (#[trigger] sessions@[a]).id != sessions@[i as int].id,
                forall|a: int|
                    0 <= a < j ==> (#[trigger] sessions@[a]).username@
                        != sessions@[i as int].username@,
            decreases i - j,
        {
            if sessions[j].id == sessions[i].id {
                assert(sessions@[j as int].key() == sessions@[i as int].key());
                return false;
            }
            if str_eq(sessions[j].username.as_str(), sessions[i].username.as_str()) {
                return false;
            }
            j += 1;
        }
        i += 1;
    }
    true
}

} // verus!
