//! The competition store: the in-memory source of truth on teams, puzzles
//! and sessions, and the operations that guard every change to it.

use crate::assoc::{
    distinct_keys, has_key, lemma_concat, lemma_lookup, lemma_present, lemma_push, lemma_remove,
    lemma_update, position, to_map, Keyed,
};
use crate::entropy::os_random;
use crate::error::StoreError;
use crate::kdf::{derive_key, hash_for_verification, hash_of, key_of, verify, KEY_LEN, SALT_LEN};
use crate::models::{
    PuzzleSolutions, PuzzleView, PuzzlesExisting, Session, SessionId, Team, TeamsState,
};
use crate::ranking::{rank, Scoreboard};
use crate::snapshot::Snapshot;
use crate::session::fresh_session_id;
use crate::state::{
    distinct_names, lemma_names_push, lemma_tables_consistent, names_set, password_bytes,
    reserved_name, tables_wf, AdminView, StoreState, SubmitOutcome,
};
use crate::tables::{
    batch_clashes, clone_puzzles, clone_sessions, clone_teams, find_name, find_puzzle,
    find_session, find_session_of, find_team, puzzle_values,
};
use crate::text::str_eq;
use vstd::prelude::*;

verus! {

/// The administrator's credential: the salt and what the password derives
/// with it, the verification hash and the key.
struct Admin {
    salt: Vec<u8>,
    hash: Vec<u8>,
    key: Vec<u8>,
}

/// The store. Its lists are private, and every store that exists satisfies
/// the invariants of the competition: no team, puzzle or session occurs
/// twice, no team solved a puzzle twice, no team bears the reserved name, a
/// team has at most one session, and every session belongs to a team.
pub struct Store {
    teams: TeamsState,
    puzzles: PuzzleSolutions,
    sessions: Vec<Session>,
    admin: Option<Admin>,
}

impl Store {
    #[verifier::type_invariant]
    spec fn inv(self) -> bool {
        &&& tables_wf(self.teams@, self.puzzles@, self.sessions@)
        &&& self.admin matches Some(a) ==> a.salt@.len() == SALT_LEN && a.hash@.len() == KEY_LEN
            && a.key@.len() == KEY_LEN
    }

    /// The state that the store is in.
    pub closed spec fn view(&self) -> StoreState {
        StoreState {
            teams: to_map(self.teams@),
            puzzles: to_map(self.puzzles@),
            sessions: to_map(self.sessions@),
            admin: match self.admin {
                Some(a) => Some(AdminView { salt: a.salt@, hash: a.hash@, key: a.key@ }),
                None => None,
            },
        }
    }

    /// A store with no team, no puzzle, no session and no credential.
    pub fn new() -> (r: Self)
        ensures
            r@ == StoreState::empty(),
    {
        let r = Store { teams: Vec::new(), puzzles: Vec::new(), sessions: Vec::new(), admin: None };
        assert(r@.teams =~= Map::empty());
        assert(r@.puzzles =~= Map::empty());
        assert(r@.sessions =~= Map::empty());
        r
    }

    /// Moves the tables and the credential out of the store, which is
    /// empty until they are put back.
    fn take(&mut self) -> (r: Store)
        ensures
            r == *old(self),
    {
        let mut taken = Store::new();
        core::mem::swap(self, &mut taken);
        taken
    }

    /// Submits a solution as the team of the session `sid`.
    ///
    /// An unknown session is unauthorized, an unknown puzzle not found. The
    /// solution is compared with the stored one by exact equality. A right
    /// answer adds the puzzle to the team's solved puzzles, unless it is
    /// there already, which is a conflict. A wrong answer changes nothing.
    pub fn submit_solution(&mut self, sid: SessionId, puzzle_id: &str, solution: &str) -> (r: Result<
        SubmitOutcome,
        StoreError,
    >)
        ensures
            r == old(self)@.submit_outcome(sid, puzzle_id@, solution@),
            final(self)@ == old(self)@.submitted(sid, puzzle_id@, solution@),
            final(self)@.consistent(),
    {
        proof {
            use_type_invariant(&*self);
            lemma_tables_consistent(self.teams@, self.puzzles@, self.sessions@);
        }
        let s = match find_session(&self.sessions, sid) {
            Some(s) => s,
            None => {
                return Err(StoreError::Unauthorized);
            },
        };
        let p = match find_puzzle(&self.puzzles, puzzle_id) {
            Some(p) => p,
            None => {
                return Err(StoreError::NotFound);
            },
        };
        proof {
            lemma_lookup(self.sessions@, s as int);
            lemma_lookup(self.puzzles@, p as int);
        }
        if !str_eq(self.puzzles[p].puzzle.solution.as_str(), solution) {
            return Ok(SubmitOutcome::WrongAnswer);
        }
        let t = match find_team(&self.teams, self.sessions[s].username.as_str()) {
            Some(t) => t,
            None => {
                // Not reached: every session belongs to a team.
                return Err(StoreError::Internal);
            },
        };
        proof {
            lemma_lookup(self.teams@, t as int);
        }
        if find_name(&self.teams[t].solved, puzzle_id).is_some() {
            return Err(StoreError::Conflict);
        }
        let Store { mut teams, puzzles, sessions, admin } = self.take();
        let ghost before = teams@;
        let id = puzzle_id.to_owned();
        teams[t].solved.push(id);
        proof {
            lemma_names_push(before[t as int].solved@, id);
            lemma_update(before, t as int, teams@[t as int]);
            assert(teams@ =~= before.update(t as int, teams@[t as int]));
            assert forall|i: int| 0 <= i < sessions@.len() implies has_key(
                teams@,
                (#[trigger] sessions@[i]).username@,
            ) by {
                let q = position(before, sessions@[i].username@);
                assert(teams@[q].name@ == sessions@[i].username@);
            }
        }
        *self = Store { teams, puzzles, sessions, admin };
        proof {
            lemma_tables_consistent(self.teams@, self.puzzles@, self.sessions@);
        }
        Ok(SubmitOutcome::Accepted)
    }

    /// Joins the competition as the team `username` under the session
    /// identifier `sid`, which the caller has drawn.
    ///
    /// The reserved name and a name with an active session are a conflict.
    /// An identifier that is already in use is refused as an internal
    /// error. A new team starts with nothing solved; a known team keeps its
    /// progress.
    pub fn join_with(&mut self, username: &str, sid: SessionId) -> (r: Result<(), StoreError>)
        ensures
            r == old(self)@.join_outcome(username@, sid),
            final(self)@ == (if r is Ok {
                old(self)@.joined(username@, sid)
            } else {
                old(self)@
            }),
            final(self)@.consistent(),
    {
        proof {
            use_type_invariant(&*self);
            lemma_tables_consistent(self.teams@, self.puzzles@, self.sessions@);
            lemma_active(self.sessions@, username@);
        }
        if str_eq(username, "admin") || find_session_of(&self.sessions, username).is_some() {
            return Err(StoreError::Conflict);
        }
        if find_session(&self.sessions, sid).is_some() {
            return Err(StoreError::Internal);
        }
        let known = find_team(&self.teams, username).is_some();
        let Store { mut teams, puzzles, mut sessions, admin } = self.take();
        let ghost teams_before = teams@;
        let ghost sessions_before = sessions@;
        if !known {
            let team = Team { name: username.to_owned(), solved: Vec::new() };
            proof {
                lemma_push(teams_before, team);
                assert(names_set(team.solved@) =~= Set::empty());
            }
            teams.push(team);
        }
        let session = Session { id: sid, username: username.to_owned() };
        proof {
            lemma_push(sessions_before, session);
            if known {
                lemma_present(teams_before, username@);
            }
            assert(has_key(teams@, username@)) by {
                if known {
                    assert(teams@[position(teams_before, username@)].name@ == username@);
                } else {
                    assert(teams@[teams_before.len() as int].name@ == username@);
                }
            }
            assert forall|i: int| 0 <= i < sessions_before.len() implies has_key(
                teams@,
                (#[trigger] sessions_before[i]).username@,
            ) by {
                let q = position(teams_before, sessions_before[i].username@);
                assert(teams@[q].name@ == sessions_before[i].username@);
            }
        }
        sessions.push(session);
        *self = Store { teams, puzzles, sessions, admin };
        proof {
            lemma_tables_consistent(self.teams@, self.puzzles@, self.sessions@);
        }
        Ok(())
    }

    /// Joins the competition as the team `username` and returns the new
    /// session's identifier, drawn at random and in use by no other
    /// session.
    ///
    /// Fails with a conflict exactly when the name is reserved or has an
    /// active session. Any other failure is internal: the random source
    /// gave nothing, or only identifiers that are in use.
    pub fn join(&mut self, username: &str) -> (r: Result<SessionId, StoreError>)
        ensures
            old(self)@.join_refused(username@) <==> r == Err::<SessionId, StoreError>(
                StoreError::Conflict,
            ),
            r matches Ok(sid) ==> !old(self)@.sessions.contains_key(sid) && final(self)@ == old(
                self,
            )@.joined(username@, sid),
            r matches Err(e) ==> final(self)@ == old(self)@ && (e == StoreError::Conflict || e
                == StoreError::Internal),
            final(self)@.consistent(),
    {
        proof {
            use_type_invariant(&*self);
            lemma_tables_consistent(self.teams@, self.puzzles@, self.sessions@);
            lemma_active(self.sessions@, username@);
        }
        if str_eq(username, "admin") || find_session_of(&self.sessions, username).is_some() {
            return Err(StoreError::Conflict);
        }
        let mut attempts: usize = 0;
        while attempts < JOIN_ATTEMPTS
            invariant
                self@ == old(self)@,
                !old(self)@.join_refused(username@),
                self@.consistent(),
            decreases JOIN_ATTEMPTS - attempts,
        {
            let sid = match fresh_session_id() {
                Ok(sid) => sid,
                Err(e) => {
                    return Err(e);
                },
            };
            match self.join_with(username, sid) {
                Ok(()) => {
                    return Ok(sid);
                },
                Err(_) => {},
            }
            attempts += 1;
        }
        Err(StoreError::Internal)
    }

    /// Closes the session `sid`, and deletes the team's whole record if
    /// `wipe_progress` is `Some(true)`.
    pub fn logout(&mut self, sid: SessionId, wipe_progress: Option<bool>) -> (r: Result<
        (),
        StoreError,
    >)
        ensures
            r == old(self)@.logout_outcome(sid),
            final(self)@ == (if r is Ok {
                old(self)@.logged_out(sid, wipe_progress == Some(true))
            } else {
                old(self)@
            }),
            final(self)@.consistent(),
    {
        proof {
            use_type_invariant(&*self);
            lemma_tables_consistent(self.teams@, self.puzzles@, self.sessions@);
        }
        let s = match find_session(&self.sessions, sid) {
            Some(s) => s,
            None => {
                return Err(StoreError::NotFound);
            },
        };
        let wipe = match wipe_progress {
            Some(sure) => sure,
            None => false,
        };
        let Store { mut teams, puzzles, mut sessions, admin } = self.take();
        let ghost teams_before = teams@;
        let ghost sessions_before = sessions@;
        proof {
            lemma_lookup(sessions_before, s as int);
            lemma_remove(sessions_before, s as int);
        }
        let session = sessions.remove(s);
        assert forall|i: int| 0 <= i < sessions@.len() implies (#[trigger] sessions@[i])
            == sessions_before[if i < s { i } else { i + 1 }] by {}
        assert forall|i: int| 0 <= i < sessions@.len() implies (#[trigger] sessions@[i]).username@
            != session.username@ by {
            let i2 = if i < s { i } else { i + 1 };
            if i2 < s {
                assert(sessions_before[i2].username@ != sessions_before[s as int].username@);
            } else {
                assert(sessions_before[s as int].username@ != sessions_before[i2].username@);
            }
        }
        if wipe {
            match find_team(&teams, session.username.as_str()) {
                Some(t) => {
                    proof {
                        lemma_remove(teams_before, t as int);
                    }
                    let _ = teams.remove(t);
                    assert forall|i: int| 0 <= i < teams@.len() implies (#[trigger] teams@[i])
                        == teams_before[if i < t { i } else { i + 1 }] by {}
                    assert forall|i: int| 0 <= i < sessions@.len() implies has_key(
                        teams@,
                        (#[trigger] sessions@[i]).username@,
                    ) by {
                        let name = sessions@[i].username@;
                        let i2 = if i < s { i } else { i + 1 };
                        assert(has_key(teams_before, sessions_before[i2].username@));
                        let q = position(teams_before, name);
                        assert(q != t);
                        let q2 = if q < t { q } else { q - 1 };
                        assert(teams@[q2].name@ == name);
                    }
                },
                None => {},
            }
        } else {
            assert forall|i: int| 0 <= i < sessions@.len() implies has_key(
                teams@,
                (#[trigger] sessions@[i]).username@,
            ) by {
                let i2 = if i < s { i } else { i + 1 };
                assert(has_key(teams_before, sessions_before[i2].username@));
            }
        }
        assert forall|i: int, j: int| 0 <= i < j < sessions@.len() implies (
        #[trigger] sessions@[i]).username@ != (#[trigger] sessions@[j]).username@ by {
            let i2 = if i < s { i } else { i + 1 };
            let j2 = if j < s { j } else { j + 1 };
            assert(sessions_before[i2].username@ != sessions_before[j2].username@);
        }
        *self = Store { teams, puzzles, sessions, admin };
        proof {
            lemma_tables_consistent(self.teams@, self.puzzles@, self.sessions@);
        }
        Ok(())
    }

    /// Defines the puzzles of `puzzle_solutions`, as the administrator.
    ///
    /// Unauthorized unless `password` verifies against the stored
    /// credential. A conflict if any puzzle of the batch is already
    /// defined, in the catalog or earlier in the batch: then none is added.
    pub fn set_solution(&mut self, puzzle_solutions: PuzzleSolutions, password: &str) -> (r:
        Result<(), StoreError>)
        ensures
            r == old(self)@.set_outcome(puzzle_solutions@, password_bytes(password@)),
            final(self)@ == (if r is Ok {
                old(self)@.with_puzzles(puzzle_solutions@)
            } else {
                old(self)@
            }),
            final(self)@.consistent(),
    {
        proof {
            use_type_invariant(&*self);
            lemma_tables_consistent(self.teams@, self.puzzles@, self.sessions@);
        }
        let verdict = match &self.admin {
            Some(a) => verify(password.as_bytes(), a.salt.as_slice(), a.hash.as_slice()),
            None => Ok(false),
        };
        match verdict {
            Ok(true) => {},
            Ok(false) => {
                return Err(StoreError::Unauthorized);
            },
            Err(_) => {
                return Err(StoreError::Internal);
            },
        }
        if batch_clashes(&self.puzzles, &puzzle_solutions) {
            return Err(StoreError::Conflict);
        }
        let mut batch = puzzle_solutions;
        let Store { teams, mut puzzles, sessions, admin } = self.take();
        proof {
            lemma_concat(puzzles@, batch@);
        }
        puzzles.append(&mut batch);
        *self = Store { teams, puzzles, sessions, admin };
        proof {
            lemma_tables_consistent(self.teams@, self.puzzles@, self.sessions@);
        }
        Ok(())
    }

    /// Sets the administrator's password, with the salt that the caller
    /// has drawn for it. It can be set once.
    pub fn set_admin_password_with(&mut self, password: &str, salt: Vec<u8>) -> (r: Result<
        (),
        StoreError,
    >)
        ensures
            r == old(self)@.admin_outcome(password_bytes(password@), salt@),
            final(self)@ == (if r is Ok {
                old(self)@.with_admin(
                    salt@,
                    hash_of(password_bytes(password@), salt@),
                    key_of(password_bytes(password@), salt@),
                )
            } else {
                old(self)@
            }),
            final(self)@.consistent(),
    {
        proof {
            use_type_invariant(&*self);
            lemma_tables_consistent(self.teams@, self.puzzles@, self.sessions@);
        }
        if self.admin.is_some() {
            return Err(StoreError::Conflict);
        }
        if salt.len() != SALT_LEN {
            return Err(StoreError::BadRequest);
        }
        let hash = match hash_for_verification(password.as_bytes(), salt.as_slice()) {
            Ok(hash) => hash,
            Err(_) => {
                return Err(StoreError::Internal);
            },
        };
        let key = match derive_key(password.as_bytes(), salt.as_slice()) {
            Ok(key) => key,
            Err(_) => {
                return Err(StoreError::Internal);
            },
        };
        let Store { teams, puzzles, sessions, admin: _ } = self.take();
        *self = Store { teams, puzzles, sessions, admin: Some(Admin { salt, hash, key }) };
        proof {
            lemma_tables_consistent(self.teams@, self.puzzles@, self.sessions@);
        }
        Ok(())
    }

    /// Sets the administrator's password, with a fresh random salt. It can
    /// be set once: a second call is a conflict. Any other failure is
    /// internal: the random source gave nothing, or the key derivation
    /// refused the password.
    pub fn set_admin_password(&mut self, password: &str) -> (r: Result<(), StoreError>)
        ensures
            old(self)@.admin is Some <==> r == Err::<(), StoreError>(StoreError::Conflict),
            old(self)@.admin is None && password_bytes(password@).len() > u32::MAX ==> r == Err::<
                (),
                StoreError,
            >(StoreError::Internal),
            r is Ok ==> exists|salt: Seq<u8>| #[trigger]
                old(self)@.admin_outcome(password_bytes(password@), salt) is Ok && final(self)@
                    == old(self)@.with_admin(
                    salt,
                    hash_of(password_bytes(password@), salt),
                    key_of(password_bytes(password@), salt),
                ),
            r is Ok ==> final(self)@.admin_verifies(password_bytes(password@)),
            r is Ok ==> final(self)@.admin_unlocks(password_bytes(password@)),
            r matches Err(e) ==> final(self)@ == old(self)@ && (e == StoreError::Conflict || e
                == StoreError::Internal),
            final(self)@.consistent(),
    {
        proof {
            use_type_invariant(&*self);
            lemma_tables_consistent(self.teams@, self.puzzles@, self.sessions@);
        }
        if self.admin.is_some() {
            return Err(StoreError::Conflict);
        }
        let salt = match os_random(SALT_LEN) {
            Ok(salt) => salt,
            Err(_) => {
                return Err(StoreError::Internal);
            },
        };
        let ghost drawn = salt@;
        match self.set_admin_password_with(password, salt) {
            Ok(()) => {
                assert(old(self)@.admin_outcome(password_bytes(password@), drawn) is Ok);
                Ok(())
            },
            Err(_) => Err(StoreError::Internal),
        }
    }

    /// The salt and the key of the administrator's credential, once set.
    pub(crate) fn credential(&self) -> (r: Option<(&Vec<u8>, &Vec<u8>)>)
        ensures
            r is None <==> self@.admin is None,
            r matches Some((salt, key)) ==> self@.admin is Some && self@.admin->0.salt == salt@
                && self@.admin->0.key == key@ && salt@.len() == SALT_LEN && key@.len() == KEY_LEN,
    {
        proof {
            use_type_invariant(self);
        }
        match &self.admin {
            Some(a) => Some((&a.salt, &a.key)),
            None => None,
        }
    }

    /// Does nothing; tells the caller what holds of every store.
    pub fn recall_invariant(&self)
        ensures
            self@.consistent(),
    {
        proof {
            use_type_invariant(self);
            lemma_tables_consistent(self.teams@, self.puzzles@, self.sessions@);
        }
    }

    /// A copy of the three tables.
    pub fn snapshot(&self) -> (r: Snapshot)
        ensures
            r.valid(),
            r.state() == self@.with_admin_of(StoreState::empty()),
    {
        proof {
            use_type_invariant(self);
        }
        let teams = clone_teams(&self.teams);
        let puzzles = clone_puzzles(&self.puzzles);
        let sessions = clone_sessions(&self.sessions);
        proof {
            assert forall|i: int| 0 <= i < sessions@.len() implies has_key(
                teams@,
                (#[trigger] sessions@[i]).username@,
            ) by {
                let name = self.sessions@[i].username@;
                assert(has_key(self.teams@, name));
                assert(to_map(self.teams@).contains_key(name));
                assert(to_map(teams@).contains_key(name));
            }
            assert forall|i: int, j: int| 0 <= i < j < sessions@.len() implies (
            #[trigger] sessions@[i]).username@ != (#[trigger] sessions@[j]).username@ by {
                assert(self.sessions@[i].username@ != self.sessions@[j].username@);
            }
            assert forall|i: int| 0 <= i < teams@.len() implies (#[trigger] teams@[i]).name@
                != reserved_name() by {
                assert(teams.deep_view()[i] == self.teams.deep_view()[i]);
                assert(self.teams@[i].name@ != reserved_name());
            }
            assert forall|i: int| 0 <= i < teams@.len() implies distinct_names(
                (#[trigger] teams@[i]).solved@,
            ) by {
                assert(distinct_names(self.teams@[i].solved@));
            }
        }
        Snapshot { teams, puzzles, sessions }
    }

    /// Replaces the three tables by those of a snapshot; the credential
    /// stays. A snapshot that breaks an invariant of the store is refused
    /// as a bad request and changes nothing.
    pub fn restore(&mut self, snapshot: Snapshot) -> (r: Result<(), StoreError>)
        ensures
            r is Ok <==> snapshot.valid(),
            r is Ok ==> final(self)@ == snapshot.state().with_admin_of(old(self)@),
            r matches Err(e) ==> e == StoreError::BadRequest && final(self)@ == old(self)@,
            final(self)@.consistent(),
    {
        proof {
            use_type_invariant(&*self);
            lemma_tables_consistent(self.teams@, self.puzzles@, self.sessions@);
        }
        if !snapshot.is_valid() {
            return Err(StoreError::BadRequest);
        }
        let Store { teams: _, puzzles: _, sessions: _, admin } = self.take();
        let Snapshot { teams, puzzles, sessions } = snapshot;
        *self = Store { teams, puzzles, sessions, admin };
        proof {
            lemma_tables_consistent(self.teams@, self.puzzles@, self.sessions@);
        }
        Ok(())
    }

    /// What the scoreboard shows: each team with its solved puzzles, and
    /// each puzzle with its value. No solution is in it.
    pub fn get_game_state(&self) -> (r: (TeamsState, PuzzlesExisting))
        ensures
            distinct_keys(r.0@),
            to_map(r.0@) == self@.teams,
            forall|i: int| 0 <= i < r.0.len() ==> distinct_names((#[trigger] r.0@[i]).solved@),
            distinct_keys(r.1@),
            to_map(r.1@) == self@.puzzles.map_values(|p: PuzzleView| p.value),
    {
        proof {
            use_type_invariant(self);
        }
        let teams = clone_teams(&self.teams);
        let values = puzzle_values(&self.puzzles);
        proof {
            let shown = self@.puzzles.map_values(|p: PuzzleView| p.value);
            assert forall|i: int, j: int| 0 <= i < j < values@.len() implies (
            #[trigger] values@[i]).key() != (#[trigger] values@[j]).key() by {
                assert(self.puzzles@[i].key() != self.puzzles@[j].key());
            }
            assert forall|k: Seq<char>| to_map(values@).contains_key(k) <==> shown.contains_key(
                k,
            ) by {
                if has_key(values@, k) {
                    let p = position(values@, k);
                    assert(self.puzzles@[p].key() == k);
                }
                if has_key(self.puzzles@, k) {
                    let p = position(self.puzzles@, k);
                    assert(values@[p].key() == k);
                }
            }
            assert forall|k: Seq<char>| to_map(values@).contains_key(k) implies to_map(values@)[k]
                == shown[k] by {
                let p = position(values@, k);
                lemma_lookup(values@, p);
                assert(self.puzzles@[p].key() == k);
                lemma_lookup(self.puzzles@, p);
            }
            assert(to_map(values@) =~= shown);
            assert forall|i: int| 0 <= i < teams@.len() implies distinct_names(
                (#[trigger] teams@[i]).solved@,
            ) by {
                assert(distinct_names(self.teams@[i].solved@));
            }
        }
        (teams, values)
    }

    /// The scoreboard at this moment: the teams ranked by score, ties
    /// broken by name, and the puzzles by identifier. No solution is in it.
    pub fn read_scoreboard(&self) -> (r: Scoreboard)
        ensures
            r.presents(self@.teams, self@.puzzles.map_values(|p: PuzzleView| p.value)),
    {
        let (teams, puzzles) = self.get_game_state();
        rank(&teams, puzzles)
    }

    /// The team that the session `sid` authenticates.
    pub fn auth_state(&self, sid: SessionId) -> (r: Result<String, StoreError>)
        ensures
            r matches Ok(name) ==> self@.sessions.contains_key(sid) && name@
                == self@.sessions[sid],
            r matches Err(e) ==> !self@.sessions.contains_key(sid) && e == StoreError::NotFound,
    {
        proof {
            use_type_invariant(self);
        }
        match find_session(&self.sessions, sid) {
            Some(s) => {
                proof {
                    lemma_lookup(self.sessions@, s as int);
                }
                Ok(self.sessions[s].username.clone())
            },
            None => Err(StoreError::NotFound),
        }
    }
}

/// How often `join` draws a session identifier before it gives up.
pub const JOIN_ATTEMPTS: usize = 4;

/// A team has an active session exactly when some session of the list
/// bears its name.
pub proof fn lemma_active(sessions: Seq<Session>, name: Seq<char>)
    requires
        distinct_keys(sessions),
    ensures
        (exists|sid: SessionId| #[trigger]
            to_map(sessions).contains_key(sid) && to_map(sessions)[sid] == name) <==> (exists|
            i: int,
        |
            0 <= i < sessions.len() && (#[trigger] sessions[i]).username@ == name),
{
    if exists|i: int| 0 <= i < sessions.len() && (#[trigger] sessions[i]).username@ == name {
        let i = choose|i: int| 0 <= i < sessions.len() && (#[trigger] sessions[i]).username@ == name;
        lemma_lookup(sessions, i);
        assert(to_map(sessions).contains_key(sessions[i].id));
    }
    if exists|sid: SessionId| #[trigger]
        to_map(sessions).contains_key(sid) && to_map(sessions)[sid] == name {
        let sid = choose|sid: SessionId| #[trigger]
            to_map(sessions).contains_key(sid) && to_map(sessions)[sid] == name;
        lemma_present(sessions, sid);
        assert(sessions[position(sessions, sid)].username@ == name);
    }
}

} // verus!
