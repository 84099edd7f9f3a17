//! What follows from the store's operations when several of them are made
//! one after the other.

use crate::assoc::{has_key, position, to_map};
use crate::error::StoreError;
use crate::models::{PuzzleEntry, SessionId};
use crate::state::{StoreState, SubmitOutcome};
use vstd::prelude::*;

verus! {

/// While a team's session is active, a second request to join under the
/// team's name is a conflict, whatever identifier is drawn for it.
pub proof fn lemma_second_join_conflicts(
    s: StoreState,
    name: Seq<char>,
    first: SessionId,
    second: SessionId,
)
    requires
        s.join_outcome(name, first) is Ok,
    ensures
        s.joined(name, first).join_outcome(name, second) == Err::<(), StoreError>(
            StoreError::Conflict,
        ),
{
    let t = s.joined(name, first);
    assert(t.sessions.contains_key(first) && t.sessions[first] == name);
}

/// Once a team has logged out without wiping its progress, it can join
/// again under an unused identifier, and finds every team's solved puzzles
/// as they were.
pub proof fn lemma_rejoin_keeps_progress(s: StoreState, first: SessionId, second: SessionId)
    requires
        s.consistent(),
        s.sessions.contains_key(first),
        second == first || !s.sessions.contains_key(second),
    ensures
        s.logout_outcome(first) is Ok,
        s.logged_out(first, false).join_outcome(s.sessions[first], second) is Ok,
        s.logged_out(first, false).joined(s.sessions[first], second).teams == s.teams,
{
    let name = s.sessions[first];
    let t = s.logged_out(first, false);
    assert(s.teams.contains_key(name));
    assert(!t.active(name)) by {
        if t.active(name) {
            let sid = choose|sid: SessionId| #[trigger]
                t.sessions.contains_key(sid) && t.sessions[sid] == name;
            assert(s.sessions[sid] == s.sessions[first]);
        }
    }
}

/// A right answer is accepted once: the same submission made again is a
/// conflict.
pub proof fn lemma_accepted_once(
    s: StoreState,
    sid: SessionId,
    puzzle: Seq<char>,
    solution: Seq<char>,
)
    requires
        s.submit_outcome(sid, puzzle, solution) == Ok::<SubmitOutcome, StoreError>(
            SubmitOutcome::Accepted,
        ),
    ensures
        s.submitted(sid, puzzle, solution).submit_outcome(sid, puzzle, solution) == Err::<
            SubmitOutcome,
            StoreError,
        >(StoreError::Conflict),
{
}

/// A submission that is not accepted leaves the state as it was; an
/// accepted one adds the puzzle to the team's solved puzzles and changes
/// nothing else.
pub proof fn lemma_submission_effect(
    s: StoreState,
    sid: SessionId,
    puzzle: Seq<char>,
    solution: Seq<char>,
)
    requires
        s.consistent(),
    ensures
        s.submit_outcome(sid, puzzle, solution) != Ok::<SubmitOutcome, StoreError>(
            SubmitOutcome::Accepted,
        ) ==> s.submitted(sid, puzzle, solution) == s,
        s.submit_outcome(sid, puzzle, solution) == Ok::<SubmitOutcome, StoreError>(
            SubmitOutcome::Accepted,
        ) ==> {
            let t = s.submitted(sid, puzzle, solution);
            let name = s.sessions[sid];
            &&& t.teams.dom() == s.teams.dom()
            &&& t.teams[name] == s.teams[name].insert(puzzle)
            &&& forall|other: Seq<char>|
                other != name && s.teams.contains_key(other) ==> t.teams[other] == s.teams[other]
            &&& t.puzzles == s.puzzles
            &&& t.sessions == s.sessions
            &&& t.admin == s.admin
        },
{
    if s.submit_outcome(sid, puzzle, solution) == Ok::<SubmitOutcome, StoreError>(
        SubmitOutcome::Accepted,
    ) {
        let t = s.submitted(sid, puzzle, solution);
        assert(s.teams.contains_key(s.sessions[sid]));
        assert(t.teams.dom() =~= s.teams.dom());
    }
}

/// A team's solved puzzles only grow: joining, submitting, defining
/// puzzles and logging out without a wipe leave every team in place with
/// all that it had solved.
pub proof fn lemma_progress_is_kept(
    s: StoreState,
    sid: SessionId,
    name: Seq<char>,
    puzzle: Seq<char>,
    solution: Seq<char>,
    batch: Seq<PuzzleEntry>,
    team: Seq<char>,
)
    requires
        s.consistent(),
        s.teams.contains_key(team),
    ensures
        s.joined(name, sid).teams.contains_key(team),
        s.teams[team].subset_of(s.joined(name, sid).teams[team]),
        s.submitted(sid, puzzle, solution).teams.contains_key(team),
        s.teams[team].subset_of(s.submitted(sid, puzzle, solution).teams[team]),
        s.with_puzzles(batch).teams == s.teams,
        s.logged_out(sid, false).teams == s.teams,
{
}

/// Once set, the administrator's credential stays: it cannot be set
/// again, and no operation on teams, puzzles or sessions touches it.
pub proof fn lemma_credential_is_kept(
    s: StoreState,
    sid: SessionId,
    name: Seq<char>,
    puzzle: Seq<char>,
    solution: Seq<char>,
    batch: Seq<PuzzleEntry>,
    password: Seq<u8>,
    salt: Seq<u8>,
    wipe: bool,
)
    requires
        s.admin is Some,
    ensures
        s.admin_outcome(password, salt) == Err::<(), StoreError>(StoreError::Conflict),
        s.joined(name, sid).admin == s.admin,
        s.submitted(sid, puzzle, solution).admin == s.admin,
        s.with_puzzles(batch).admin == s.admin,
        s.logged_out(sid, wipe).admin == s.admin,
{
}

/// How many of `n` equal submissions, made one after the other, are
/// accepted.
pub open spec fn accepted_among(
    s: StoreState,
    sid: SessionId,
    puzzle: Seq<char>,
    solution: Seq<char>,
    n: nat,
) -> nat
    decreases n,
{
    if n == 0 {
        0
    } else {
        let first: nat = if s.submit_outcome(sid, puzzle, solution) == Ok::<
            SubmitOutcome,
            StoreError,
        >(SubmitOutcome::Accepted) {
            1
        } else {
            0
        };
        first + accepted_among(
            s.submitted(sid, puzzle, solution),
            sid,
            puzzle,
            solution,
            (n - 1) as nat,
        )
    }
}

/// How many of `n` equal submissions, made one after the other, are
/// conflicts.
pub open spec fn conflicts_among(
    s: StoreState,
    sid: SessionId,
    puzzle: Seq<char>,
    solution: Seq<char>,
    n: nat,
) -> nat
    decreases n,
{
    if n == 0 {
        0
    } else {
        let first: nat = if s.submit_outcome(sid, puzzle, solution) == Err::<
            SubmitOutcome,
            StoreError,
        >(StoreError::Conflict) {
            1
        } else {
            0
        };
        first + conflicts_among(
            s.submitted(sid, puzzle, solution),
            sid,
            puzzle,
            solution,
            (n - 1) as nat,
        )
    }
}

/// Once the puzzle is solved, each of `n` further equal submissions is a
/// conflict.
pub proof fn lemma_all_conflict_once_solved(
    s: StoreState,
    sid: SessionId,
    puzzle: Seq<char>,
    solution: Seq<char>,
    n: nat,
)
    requires
        s.submit_outcome(sid, puzzle, solution) == Err::<SubmitOutcome, StoreError>(
            StoreError::Conflict,
        ),
    ensures
        accepted_among(s, sid, puzzle, solution, n) == 0,
        conflicts_among(s, sid, puzzle, solution, n) == n,
    decreases n,
{
    if n > 0 {
        lemma_all_conflict_once_solved(s, sid, puzzle, solution, (n - 1) as nat);
    }
}

/// Of any number of callers that submit the same right answer for the same
/// team and puzzle, in whatever order the store takes them, exactly one is
/// accepted and every other one meets a conflict.
pub proof fn lemma_exactly_one_accepted(
    s: StoreState,
    sid: SessionId,
    puzzle: Seq<char>,
    solution: Seq<char>,
    n: nat,
)
    requires
        n >= 1,
        s.submit_outcome(sid, puzzle, solution) == Ok::<SubmitOutcome, StoreError>(
            SubmitOutcome::Accepted,
        ),
    ensures
        accepted_among(s, sid, puzzle, solution, n) == 1,
        conflicts_among(s, sid, puzzle, solution, n) == n - 1,
{
    lemma_accepted_once(s, sid, puzzle, solution);
    lemma_all_conflict_once_solved(
        s.submitted(sid, puzzle, solution),
        sid,
        puzzle,
        solution,
        (n - 1) as nat,
    );
}

/// The catalog is write-once: after a batch was defined, a batch that
/// defines one of its puzzles again is a conflict under the same password.
pub proof fn lemma_puzzles_write_once(
    s: StoreState,
    first: Seq<PuzzleEntry>,
    second: Seq<PuzzleEntry>,
    password: Seq<u8>,
    i: int,
    j: int,
)
    requires
        s.set_outcome(first, password) is Ok,
        0 <= i < first.len(),
        0 <= j < second.len(),
        first[i].id@ == second[j].id@,
    ensures
        s.with_puzzles(first).set_outcome(second, password) == Err::<(), StoreError>(
            StoreError::Conflict,
        ),
{
    let t = s.with_puzzles(first);
    assert(has_key(first, first[i].id@));
    assert(to_map(first).contains_key(second[j].id@));
    assert(t.puzzles.contains_key(second[j].id@));
}

/// Defining new puzzles leaves every puzzle that was defined before as it
/// was.
pub proof fn lemma_defined_puzzles_stay(
    s: StoreState,
    batch: Seq<PuzzleEntry>,
    password: Seq<u8>,
    id: Seq<char>,
)
    requires
        s.set_outcome(batch, password) is Ok,
        s.puzzles.contains_key(id),
    ensures
        s.with_puzzles(batch).puzzles.contains_key(id),
        s.with_puzzles(batch).puzzles[id] == s.puzzles[id],
{
    if to_map(batch).contains_key(id) {
        let p = position(batch, id);
        assert(s.puzzles.contains_key(batch[p].id@));
    }
}

} // verus!
