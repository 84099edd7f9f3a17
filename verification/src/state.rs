//! The state of a competition as mathematics: three finite maps and the
//! administrator's credential, and what each operation makes of them.

use crate::assoc::{distinct_keys, has_key, lemma_present, position, to_map, Keyed};
use crate::error::{PersistError, StoreError};
use crate::kdf::{derived, kdf_accepts, verifies, KEY_LEN, SALT_LEN};
use crate::models::{PuzzleEntry, PuzzleId, PuzzleValue, PuzzleView, Session, SessionId, Team};
use vstd::prelude::*;
use vstd::utf8::encode_utf8;

verus! {

/// The set of names that a list holds.
pub open spec fn names_set(names: Seq<String>) -> Set<Seq<char>> {
    Set::new(|n: Seq<char>| exists|i: int| 0 <= i < names.len() && (#[trigger] names[i])@ == n)
}

/// No name occurs twice in the list.
pub open spec fn distinct_names(names: Seq<String>) -> bool {
    forall|i: int, j: int|
        0 <= i < j < names.len() ==> (#[trigger] names[i])@ != (#[trigger] names[j])@
}

/// Lists that hold the same names in the same order hold the same set of
/// names, and one of them repeats a name exactly when the other does.
pub proof fn lemma_names_same(a: Seq<String>, b: Seq<String>)
    requires
        a.len() == b.len(),
        forall|i: int| 0 <= i < a.len() ==> (#[trigger] a[i])@ == b[i]@,
    ensures
        names_set(a) == names_set(b),
        distinct_names(a) == distinct_names(b),
{
    assert forall|n: Seq<char>| names_set(a).contains(n) <==> names_set(b).contains(n) by {
        if names_set(a).contains(n) {
            let i = choose|i: int| 0 <= i < a.len() && (#[trigger] a[i])@ == n;
            assert(b[i]@ == n);
        }
        if names_set(b).contains(n) {
            let i = choose|i: int| 0 <= i < b.len() && (#[trigger] b[i])@ == n;
            assert(a[i]@ == n);
        }
    }
    assert(names_set(a) =~= names_set(b));
    if distinct_names(a) {
        assert forall|i: int, j: int| 0 <= i < j < b.len() implies (#[trigger] b[i])@ != (
        #[trigger] b[j])@ by {
            assert(a[i]@ != a[j]@);
        }
    }
    if distinct_names(b) {
        assert forall|i: int, j: int| 0 <= i < j < a.len() implies (#[trigger] a[i])@ != (
        #[trigger] a[j])@ by {
            assert(b[i]@ != b[j]@);
        }
    }
}

/// Appending a name adds it to the set of names.
pub proof fn lemma_names_push(names: Seq<String>, name: String)
    ensures
        names_set(names.push(name)) == names_set(names).insert(name@),
        distinct_names(names) && !names_set(names).contains(name@) ==> distinct_names(
            names.push(name),
        ),
{
    let t = names.push(name);
    assert forall|n: Seq<char>| names_set(t).contains(n) <==> names_set(names).insert(
        name@,
    ).contains(n) by {
        if names_set(t).contains(n) {
            let i = choose|i: int| 0 <= i < t.len() && (#[trigger] t[i])@ == n;
            if i < names.len() {
                assert(names[i]@ == n);
            }
        }
        if names_set(names).contains(n) {
            let i = choose|i: int| 0 <= i < names.len() && (#[trigger] names[i])@ == n;
            assert(t[i]@ == n);
        }
        if n == name@ {
            assert(t[names.len() as int]@ == n);
        }
    }
    assert(names_set(t) =~= names_set(names).insert(name@));
    if distinct_names(names) && !names_set(names).contains(name@) {
        assert forall|i: int, j: int| 0 <= i < j < t.len() implies (#[trigger] t[i])@ != (
        #[trigger] t[j])@ by {
            if j < names.len() {
                assert(names[i]@ != names[j]@);
            } else {
                assert(names[i]@ == names[i]@);
            }
        }
    }
}

impl Keyed for Team {
    type Key = Seq<char>;

    type Value = Set<Seq<char>>;

    open spec fn key(&self) -> Seq<char> {
        self.name@
    }

    open spec fn value(&self) -> Set<Seq<char>> {
        names_set(self.solved@)
    }
}

impl Keyed for PuzzleEntry {
    type Key = Seq<char>;

    type Value = PuzzleView;

    open spec fn key(&self) -> Seq<char> {
        self.id@
    }

    open spec fn value(&self) -> PuzzleView {
        self.puzzle.deep_view()
    }
}

impl Keyed for Session {
    type Key = SessionId;

    type Value = Seq<char>;

    open spec fn key(&self) -> SessionId {
        self.id
    }

    open spec fn value(&self) -> Seq<char> {
        self.username@
    }
}

impl Keyed for (PuzzleId, PuzzleValue) {
    type Key = Seq<char>;

    type Value = PuzzleValue;

    open spec fn key(&self) -> Seq<char> {
        self.0@
    }

    open spec fn value(&self) -> PuzzleValue {
        self.1
    }
}

/// The name that no team may bear: it is the administrator's.
pub open spec fn reserved_name() -> Seq<char> {
    "admin"@
}

/// The stored credential of the administrator: the salt, the hash that a
/// password is verified against, and the key that seals the snapshot.
pub struct AdminView {
    pub salt: Seq<u8>,
    pub hash: Seq<u8>,
    pub key: Seq<u8>,
}

/// What a submission that reached a puzzle comes to.
#[derive(Clone, Copy, Debug, PartialEq, Eq, Structural)]
pub enum SubmitOutcome {
    /// The answer is right and the puzzle now counts as solved.
    Accepted,
    /// The answer is wrong; nothing changed.
    WrongAnswer,
}

/// The state of a competition.
pub struct StoreState {
    /// Each team's set of solved puzzles.
    pub teams: Map<Seq<char>, Set<Seq<char>>>,
    /// Each puzzle's solution and value.
    pub puzzles: Map<Seq<char>, PuzzleView>,
    /// Each active session's team.
    pub sessions: Map<SessionId, Seq<char>>,
    /// The administrator's credential, once set.
    pub admin: Option<AdminView>,
}

impl StoreState {
    /// The state before anything happened.
    pub open spec fn empty() -> StoreState {
        StoreState {
            teams: Map::empty(),
            puzzles: Map::empty(),
            sessions: Map::empty(),
            admin: None,
        }
    }

    /// What holds of every state that the store can be in.
    pub open spec fn consistent(self) -> bool {
        &&& forall|sid: SessionId| #[trigger]
            self.sessions.contains_key(sid) ==> self.teams.contains_key(self.sessions[sid])
        &&& forall|a: SessionId, b: SessionId|
            #![trigger self.sessions[a], self.sessions[b]]
            self.sessions.contains_key(a) && self.sessions.contains_key(b) && self.sessions[a]
                == self.sessions[b] ==> a == b
        &&& !self.teams.contains_key(reserved_name())
        &&& self.admin matches Some(a) ==> a.salt.len() == SALT_LEN && a.hash.len() == KEY_LEN
            && a.key.len() == KEY_LEN
    }

    /// Some session is active for the team `name`.
    pub open spec fn active(self, name: Seq<char>) -> bool {
        exists|sid: SessionId| #[trigger]
            self.sessions.contains_key(sid) && self.sessions[sid] == name
    }

    /// Whether a request to join as `name` is refused.
    pub open spec fn join_refused(self, name: Seq<char>) -> bool {
        name == reserved_name() || self.active(name)
    }

    /// The outcome of joining as `name` with the candidate session `sid`.
    pub open spec fn join_outcome(self, name: Seq<char>, sid: SessionId) -> Result<
        (),
        StoreError,
    > {
        if self.join_refused(name) {
            Err(StoreError::Conflict)
        } else if self.sessions.contains_key(sid) {
            Err(StoreError::Internal)
        } else {
            Ok(())
        }
    }

    /// The state after `name` joined under the session `sid`: the team is
    /// created if it is new and keeps its progress if it is not.
    pub open spec fn joined(self, name: Seq<char>, sid: SessionId) -> StoreState {
        StoreState {
            teams: if self.teams.contains_key(name) {
                self.teams
            } else {
                self.teams.insert(name, Set::empty())
            },
            sessions: self.sessions.insert(sid, name),
            ..self
        }
    }

    /// The outcome of logging out of the session `sid`.
    pub open spec fn logout_outcome(self, sid: SessionId) -> Result<(), StoreError> {
        if self.sessions.contains_key(sid) {
            Ok(())
        } else {
            Err(StoreError::NotFound)
        }
    }

    /// The state after the session `sid` was closed, and the team's record
    /// deleted if `wipe` says so.
    pub open spec fn logged_out(self, sid: SessionId, wipe: bool) -> StoreState {
        StoreState {
            teams: if wipe {
                self.teams.remove(self.sessions[sid])
            } else {
                self.teams
            },
            sessions: self.sessions.remove(sid),
            ..self
        }
    }

    /// The outcome of submitting `solution` for `puzzle` in the session `sid`.
    pub open spec fn submit_outcome(
        self,
        sid: SessionId,
        puzzle: Seq<char>,
        solution: Seq<char>,
    ) -> Result<SubmitOutcome, StoreError> {
        if !self.sessions.contains_key(sid) {
            Err(StoreError::Unauthorized)
        } else if !self.puzzles.contains_key(puzzle) {
            Err(StoreError::NotFound)
        } else if self.puzzles[puzzle].solution != solution {
            Ok(SubmitOutcome::WrongAnswer)
        } else if self.teams[self.sessions[sid]].contains(puzzle) {
            Err(StoreError::Conflict)
        } else {
            Ok(SubmitOutcome::Accepted)
        }
    }

    /// The state after the team of the session `sid` solved `puzzle`.
    pub open spec fn solved(self, sid: SessionId, puzzle: Seq<char>) -> StoreState {
        let name = self.sessions[sid];
        StoreState { teams: self.teams.insert(name, self.teams[name].insert(puzzle)), ..self }
    }

    /// The state after a submission: changed only by an accepted one.
    pub open spec fn submitted(
        self,
        sid: SessionId,
        puzzle: Seq<char>,
        solution: Seq<char>,
    ) -> StoreState {
        if self.submit_outcome(sid, puzzle, solution) == Ok::<SubmitOutcome, StoreError>(
            SubmitOutcome::Accepted,
        ) {
            self.solved(sid, puzzle)
        } else {
            self
        }
    }

    /// Whether `password` is the administrator's.
    pub open spec fn admin_verifies(self, password: Seq<u8>) -> bool {
        self.admin matches Some(a) && verifies(password, a.salt, a.hash)
    }

    /// Whether `password` derives the key that seals the snapshot.
    pub open spec fn admin_unlocks(self, password: Seq<u8>) -> bool {
        self.admin matches Some(a) && derived(password, a.salt) == Ok::<Seq<u8>, PersistError>(
            a.key,
        )
    }

    /// Some puzzle of the batch is already defined, or defined twice in it.
    pub open spec fn batch_clashes(self, batch: Seq<PuzzleEntry>) -> bool {
        ||| !distinct_keys(batch)
        ||| exists|i: int|
            0 <= i < batch.len() && self.puzzles.contains_key((#[trigger] batch[i]).id@)
    }

    /// The outcome of defining the puzzles of `batch` under `password`.
    pub open spec fn set_outcome(self, batch: Seq<PuzzleEntry>, password: Seq<u8>) -> Result<
        (),
        StoreError,
    > {
        if self.admin is Some && !kdf_accepts(password, self.admin->0.salt) {
            Err(StoreError::Internal)
        } else if !self.admin_verifies(password) {
            Err(StoreError::Unauthorized)
        } else if self.batch_clashes(batch) {
            Err(StoreError::Conflict)
        } else {
            Ok(())
        }
    }

    /// The state after the puzzles of `batch` were added to the catalog.
    pub open spec fn with_puzzles(self, batch: Seq<PuzzleEntry>) -> StoreState {
        StoreState { puzzles: self.puzzles.union_prefer_right(to_map(batch)), ..self }
    }

    /// The outcome of setting the administrator's password, with the salt
    /// that was drawn for it.
    pub open spec fn admin_outcome(self, password: Seq<u8>, salt: Seq<u8>) -> Result<
        (),
        StoreError,
    > {
        if self.admin is Some {
            Err(StoreError::Conflict)
        } else if salt.len() != SALT_LEN {
            Err(StoreError::BadRequest)
        } else if !kdf_accepts(password, salt) {
            Err(StoreError::Internal)
        } else {
            Ok(())
        }
    }

    /// The state after the administrator's credential was set.
    pub open spec fn with_admin(self, salt: Seq<u8>, hash: Seq<u8>, key: Seq<u8>) -> StoreState {
        StoreState { admin: Some(AdminView { salt, hash, key }), ..self }
    }

    /// The same three maps, with the credential of `other`.
    pub open spec fn with_admin_of(self, other: StoreState) -> StoreState {
        StoreState { admin: other.admin, ..self }
    }
}

/// The bytes of a password given as text.
pub open spec fn password_bytes(password: Seq<char>) -> Seq<u8> {
    encode_utf8(password)
}

/// What the three lists of a store must satisfy together.
pub open spec fn tables_wf(
    teams: Seq<Team>,
    puzzles: Seq<PuzzleEntry>,
    sessions: Seq<Session>,
) -> bool {
    &&& distinct_keys(teams)
    &&& distinct_keys(puzzles)
    &&& distinct_keys(sessions)
    &&& forall|i: int| 0 <= i < teams.len() ==> distinct_names((#[trigger] teams[i]).solved@)
    &&& forall|i: int| 0 <= i < teams.len() ==> (#[trigger] teams[i]).name@ != reserved_name()
    &&& forall|i: int, j: int|
        0 <= i < j < sessions.len() ==> (#[trigger] sessions[i]).username@ != (
        #[trigger] sessions[j]).username@
    &&& forall|i: int| 0 <= i < sessions.len() ==> has_key(teams, (#[trigger] sessions[i]).username@)
}

/// The state that three lists stand for, with no credential.
pub open spec fn tables_state(
    teams: Seq<Team>,
    puzzles: Seq<PuzzleEntry>,
    sessions: Seq<Session>,
) -> StoreState {
    StoreState {
        teams: to_map(teams),
        puzzles: to_map(puzzles),
        sessions: to_map(sessions),
        admin: None,
    }
}

/// Well-formed lists stand for a consistent state.
pub proof fn lemma_tables_consistent(
    teams: Seq<Team>,
    puzzles: Seq<PuzzleEntry>,
    sessions: Seq<Session>,
)
    requires
        tables_wf(teams, puzzles, sessions),
    ensures
        tables_state(teams, puzzles, sessions).consistent(),
{
    let s = tables_state(teams, puzzles, sessions);
    assert forall|sid: SessionId| #[trigger]
        s.sessions.contains_key(sid) implies s.teams.contains_key(s.sessions[sid]) by {
        lemma_present(sessions, sid);
        let p = position(sessions, sid);
        assert(has_key(teams, sessions[p].username@));
    }
    assert forall|a: SessionId, b: SessionId|
        #![trigger s.sessions[a], s.sessions[b]]
        s.sessions.contains_key(a) && s.sessions.contains_key(b) && s.sessions[a]
            == s.sessions[b] implies a == b by {
        lemma_present(sessions, a);
        lemma_present(sessions, b);
        let p = position(sessions, a);
        let q = position(sessions, b);
        if p < q {
            assert(sessions[p].username@ != sessions[q].username@);
        } else if q < p {
            assert(sessions[q].username@ != sessions[p].username@);
        }
    }
    if s.teams.contains_key(reserved_name()) {
        lemma_present(teams, reserved_name());
        let p = position(teams, reserved_name());
        assert(teams[p].name@ != reserved_name());
    }
}

} // verus!
