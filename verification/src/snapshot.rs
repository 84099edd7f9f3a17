//! A snapshot: a full copy of the three tables of a store, as it is written
//! to durable storage.

use crate::error::PersistError;
use crate::models::{PuzzleEntry, PuzzleEntryView, Session, SessionView, Team, TeamView};
use crate::assoc::{distinct_keys, has_key, lemma_same_map, to_map, Keyed};
use crate::models::{PuzzleView, SessionId};
use crate::state::{
    distinct_names, names_set, reserved_name, tables_state, tables_wf, StoreState,
};
use crate::tables::check_tables;
use crate::wire::{
    fit_list, head, lemma_head_unhead, lemma_skip_prefix, lemma_take_split, lemma_unhead_head,
    lemma_unwire_list, lemma_wire_list_unwire, read_head, read_list, unhead, unwire_list,
    wire_list, write_head, write_list, MAJOR_ARRAY, MAJOR_MAP,
};
use vstd::prelude::*;

verus! {

/// The three tables of a store.
#[derive(Debug, PartialEq, Eq)]
pub struct Snapshot {
    pub teams: Vec<Team>,
    pub puzzles: Vec<PuzzleEntry>,
    pub sessions: Vec<Session>,
}

/// What a snapshot holds, record by record and in order.
pub struct SnapshotView {
    pub teams: Seq<TeamView>,
    pub puzzles: Seq<PuzzleEntryView>,
    pub sessions: Seq<SessionView>,
}

impl DeepView for Snapshot {
    type V = SnapshotView;

    open spec fn deep_view(&self) -> SnapshotView {
        SnapshotView {
            teams: self.teams.deep_view(),
            puzzles: self.puzzles.deep_view(),
            sessions: self.sessions.deep_view(),
        }
    }
}

impl Keyed for TeamView {
    type Key = Seq<char>;

    type Value = Set<Seq<char>>;

    open spec fn key(&self) -> Seq<char> {
        self.name
    }

    open spec fn value(&self) -> Set<Seq<char>> {
        self.solved.to_set()
    }
}

impl Keyed for PuzzleEntryView {
    type Key = Seq<char>;

    type Value = PuzzleView;

    open spec fn key(&self) -> Seq<char> {
        self.id
    }

    open spec fn value(&self) -> PuzzleView {
        self.puzzle
    }
}

impl Keyed for SessionView {
    type Key = SessionId;

    type Value = Seq<char>;

    open spec fn key(&self) -> SessionId {
        self.id
    }

    open spec fn value(&self) -> Seq<char> {
        self.username
    }
}

impl SnapshotView {
    /// What is held satisfies the invariants of a store: no team, puzzle
    /// or session occurs twice, no team solved a puzzle twice or bears the
    /// reserved name, a team has at most one session, and every session
    /// belongs to a team.
    pub open spec fn valid(self) -> bool {
        &&& distinct_keys(self.teams)
        &&& distinct_keys(self.puzzles)
        &&& distinct_keys(self.sessions)
        &&& forall|i: int|
            0 <= i < self.teams.len() ==> (#[trigger] self.teams[i]).solved.no_duplicates()
        &&& forall|i: int|
            0 <= i < self.teams.len() ==> (#[trigger] self.teams[i]).name != reserved_name()
        &&& forall|i: int, j: int|
            0 <= i < j < self.sessions.len() ==> (#[trigger] self.sessions[i]).username != (
            #[trigger] self.sessions[j]).username
        &&& forall|i: int|
            0 <= i < self.sessions.len() ==> has_key(
                self.teams,
                (#[trigger] self.sessions[i]).username,
            )
    }

    /// The state that is held; it has no credential.
    pub open spec fn state(self) -> StoreState {
        StoreState {
            teams: to_map(self.teams),
            puzzles: to_map(self.puzzles),
            sessions: to_map(self.sessions),
            admin: None,
        }
    }
}

/// A list of names and the list of their texts hold the same set, and one
/// repeats a name exactly when the other does.
pub proof fn lemma_names_view(names: Seq<String>, views: Seq<Seq<char>>)
    requires
        views.len() == names.len(),
        forall|i: int| 0 <= i < names.len() ==> views[i] == (#[trigger] names[i])@,
    ensures
        names_set(names) == views.to_set(),
        distinct_names(names) == views.no_duplicates(),
{
    assert forall|n: Seq<char>| names_set(names).contains(n) <==> views.to_set().contains(n) by {
        if names_set(names).contains(n) {
            let i = choose|i: int| 0 <= i < names.len() && (#[trigger] names[i])@ == n;
            assert(views[i] == n);
        }
        if views.contains(n) {
            let i = choose|i: int| 0 <= i < views.len() && views[i] == n;
            assert(names[i]@ == n);
        }
    }
    assert(names_set(names) =~= views.to_set());
    if distinct_names(names) {
        assert forall|i: int, j: int| 0 <= i < views.len() && 0 <= j < views.len() && i
            != j implies views[i] != views[j] by {
            if i < j {
                assert(names[i]@ != names[j]@);
            } else {
                assert(names[j]@ != names[i]@);
            }
        }
    }
    if views.no_duplicates() {
        assert forall|i: int, j: int| 0 <= i < j < names.len() implies (#[trigger] names[i])@ != (
        #[trigger] names[j])@ by {
            assert(views[i] != views[j]);
        }
    }
}

/// A snapshot is valid exactly when what it holds is, and then both stand
/// for the same state.
pub proof fn lemma_snapshot_view(s: Snapshot)
    ensures
        s.valid() == s.deep_view().valid(),
        s.valid() ==> s.state() == s.deep_view().state(),
{
    let v = s.deep_view();
    assert(v.teams.len() == s.teams@.len());
    assert(v.puzzles.len() == s.puzzles@.len());
    assert(v.sessions.len() == s.sessions@.len());
    assert forall|i: int| 0 <= i < s.teams@.len() implies (#[trigger] s.teams@[i]).key()
        == v.teams[i].key() && s.teams@[i].value() == v.teams[i].value() && distinct_names(
        s.teams@[i].solved@,
    ) == v.teams[i].solved.no_duplicates() by {
        assert(v.teams[i] == s.teams@[i].deep_view());
        lemma_names_view(s.teams@[i].solved@, v.teams[i].solved);
    }
    assert forall|i: int| 0 <= i < s.puzzles@.len() implies (#[trigger] s.puzzles@[i]).key()
        == v.puzzles[i].key() && s.puzzles@[i].value() == v.puzzles[i].value() by {
        assert(v.puzzles[i] == s.puzzles@[i].deep_view());
    }
    assert forall|i: int| 0 <= i < s.sessions@.len() implies (#[trigger] s.sessions@[i]).key()
        == v.sessions[i].key() && s.sessions@[i].value() == v.sessions[i].value() by {
        assert(v.sessions[i] == s.sessions@[i].deep_view());
    }
    lemma_same_map(s.teams@, v.teams);
    lemma_same_map(s.puzzles@, v.puzzles);
    lemma_same_map(s.sessions@, v.sessions);
    lemma_same_map(v.teams, s.teams@);
    lemma_same_map(v.puzzles, s.puzzles@);
    lemma_same_map(v.sessions, s.sessions@);
    if s.valid() {
        assert forall|i: int| 0 <= i < v.teams.len() implies (
        #[trigger] v.teams[i]).solved.no_duplicates() by {
            assert(distinct_names(s.teams@[i].solved@));
        }
        assert forall|i: int| 0 <= i < v.teams.len() implies (#[trigger] v.teams[i]).name
            != reserved_name() by {
            assert(s.teams@[i].name@ != reserved_name());
        }
        assert forall|i: int, j: int| 0 <= i < j < v.sessions.len() implies (
        #[trigger] v.sessions[i]).username != (#[trigger] v.sessions[j]).username by {
            assert(s.sessions@[i].username@ != s.sessions@[j].username@);
        }
        assert forall|i: int| 0 <= i < v.sessions.len() implies has_key(
            v.teams,
            (#[trigger] v.sessions[i]).username,
        ) by {
            assert(has_key(s.teams@, s.sessions@[i].username@));
            assert(to_map(s.teams@).contains_key(v.sessions[i].username));
        }
        assert(v.valid());
    }
    if v.valid() {
        assert forall|i: int| 0 <= i < s.teams@.len() implies distinct_names(
            (#[trigger] s.teams@[i]).solved@,
        ) by {
            assert(v.teams[i].solved.no_duplicates());
        }
        assert forall|i: int| 0 <= i < s.teams@.len() implies (#[trigger] s.teams@[i]).name@
            != reserved_name() by {
            assert(v.teams[i].name != reserved_name());
        }
        assert forall|i: int, j: int| 0 <= i < j < s.sessions@.len() implies (
        #[trigger] s.sessions@[i]).username@ != (#[trigger] s.sessions@[j]).username@ by {
            assert(v.sessions[i].username != v.sessions[j].username);
        }
        assert forall|i: int| 0 <= i < s.sessions@.len() implies has_key(
            s.teams@,
            (#[trigger] s.sessions@[i]).username@,
        ) by {
            assert(has_key(v.teams, v.sessions[i].username));
            assert(to_map(v.teams).contains_key(s.sessions@[i].username@));
        }
        assert(s.valid());
    }
}

impl Snapshot {
    /// The snapshot satisfies the invariants of a store.
    pub open spec fn valid(&self) -> bool {
        tables_wf(self.teams@, self.puzzles@, self.sessions@)
    }

    /// The state that the snapshot stands for; it holds no credential.
    pub open spec fn state(&self) -> StoreState {
        tables_state(self.teams@, self.puzzles@, self.sessions@)
    }

    /// Whether the snapshot satisfies the invariants of a store.
    pub fn is_valid(&self) -> (r: bool)
        ensures
            r == self.valid(),
    {
        check_tables(&self.teams, &self.puzzles, &self.sessions)
    }
}

/// The snapshot's lengths fit the heads that announce them.
pub open spec fn encodable(v: SnapshotView) -> bool {
    &&& fit_list::<Team>(v.teams)
    &&& fit_list::<PuzzleEntry>(v.puzzles)
    &&& fit_list::<Session>(v.sessions)
}

/// The bytes of the three tables, after the head of the array that holds
/// them.
pub open spec fn encoded_tables(v: SnapshotView) -> Seq<u8> {
    wire_list::<Team>(MAJOR_MAP, v.teams) + wire_list::<PuzzleEntry>(MAJOR_MAP, v.puzzles)
        + wire_list::<Session>(MAJOR_MAP, v.sessions)
}

/// The bytes of a snapshot: an array of three maps, the teams, the puzzles
/// and the sessions, in this order.
pub open spec fn encoded(v: SnapshotView) -> Seq<u8> {
    head(MAJOR_ARRAY, 3) + encoded_tables(v)
}

/// The three tables that `bytes` start with, and the length of their bytes.
#[verifier::opaque]
pub open spec fn decoded_tables(bytes: Seq<u8>) -> Option<(SnapshotView, nat)> {
    match unwire_list::<Team>(MAJOR_MAP, bytes) {
        None => None,
        Some((teams, a)) => match unwire_list::<PuzzleEntry>(MAJOR_MAP, bytes.skip(a as int)) {
            None => None,
            Some((puzzles, b)) => match unwire_list::<Session>(
                MAJOR_MAP,
                bytes.skip(a as int).skip(b as int),
            ) {
                None => None,
                Some((sessions, c)) => Some((SnapshotView { teams, puzzles, sessions }, a + b + c)),
            },
        },
    }
}

/// The snapshot that `bytes` are the bytes of, if they are those of any.
pub open spec fn decoded(bytes: Seq<u8>) -> Option<SnapshotView> {
    match unhead(bytes) {
        None => None,
        Some((major, n, k)) => if major != MAJOR_ARRAY || n != 3 {
            None
        } else {
            match decoded_tables(bytes.skip(k as int)) {
                None => None,
                Some((v, len)) => if k + len == bytes.len() {
                    Some(v)
                } else {
                    None
                },
            }
        },
    }
}

/// Three tables that were written are read again, whatever follows them.
pub proof fn lemma_decoded_tables(v: SnapshotView, rest: Seq<u8>)
    requires
        encodable(v),
    ensures
        decoded_tables(encoded_tables(v) + rest) == Some((v, encoded_tables(v).len())),
{
    reveal(decoded_tables);
    let a = wire_list::<Team>(MAJOR_MAP, v.teams);
    let b = wire_list::<PuzzleEntry>(MAJOR_MAP, v.puzzles);
    let c = wire_list::<Session>(MAJOR_MAP, v.sessions);
    assert(encoded_tables(v) + rest =~= a + (b + (c + rest)));
    lemma_unwire_list::<Team>(MAJOR_MAP, v.teams, b + (c + rest));
    lemma_skip_prefix(a, b + (c + rest));
    lemma_unwire_list::<PuzzleEntry>(MAJOR_MAP, v.puzzles, c + rest);
    lemma_skip_prefix(b, c + rest);
    lemma_unwire_list::<Session>(MAJOR_MAP, v.sessions, rest);
}

/// Three tables that were read are what is written for them.
pub proof fn lemma_encoded_tables(bytes: Seq<u8>)
    requires
        decoded_tables(bytes) is Some,
    ensures
        ({
            let (v, k) = decoded_tables(bytes)->0;
            &&& encodable(v)
            &&& k <= bytes.len()
            &&& bytes.take(k as int) == encoded_tables(v)
        }),
{
    reveal(decoded_tables);
    lemma_wire_list_unwire::<Team>(MAJOR_MAP, bytes);
    let (teams, a) = unwire_list::<Team>(MAJOR_MAP, bytes)->0;
    let second = bytes.skip(a as int);
    lemma_wire_list_unwire::<PuzzleEntry>(MAJOR_MAP, second);
    let (puzzles, b) = unwire_list::<PuzzleEntry>(MAJOR_MAP, second)->0;
    let third = second.skip(b as int);
    lemma_wire_list_unwire::<Session>(MAJOR_MAP, third);
    let (sessions, c) = unwire_list::<Session>(MAJOR_MAP, third)->0;
    lemma_take_split(second, b, c);
    lemma_take_split(bytes, a, b + c);
    let v = SnapshotView { teams, puzzles, sessions };
    assert(bytes.take((a + b + c) as int) =~= encoded_tables(v));
}

/// Deserializing what was serialized gives the snapshot back, whatever it
/// holds: no team, no puzzle and no session included.
pub proof fn lemma_decode_encode(v: SnapshotView)
    requires
        encodable(v),
    ensures
        decoded(encoded(v)) == Some(v),
{
    let h = head(MAJOR_ARRAY, 3);
    let body = encoded_tables(v);
    lemma_unhead_head(MAJOR_ARRAY, 3, body);
    lemma_skip_prefix(h, body);
    lemma_decoded_tables(v, Seq::empty());
    assert(body + Seq::<u8>::empty() =~= body);
}

/// Only the bytes of a snapshot deserialize to it.
pub proof fn lemma_encode_decode(bytes: Seq<u8>)
    requires
        decoded(bytes) is Some,
    ensures
        encodable(decoded(bytes)->0),
        encoded(decoded(bytes)->0) == bytes,
{
    let (major, n, k) = unhead(bytes)->0;
    lemma_head_unhead(bytes);
    let body = bytes.skip(k as int);
    lemma_encoded_tables(body);
    let (v, len) = decoded_tables(body)->0;
    assert(body.take(len as int) =~= body);
    assert(bytes =~= bytes.take(k as int) + body);
}

/// Serializes a snapshot.
pub fn serialize(snapshot: &Snapshot) -> (r: Vec<u8>)
    ensures
        encodable(snapshot.deep_view()),
        r@ == encoded(snapshot.deep_view()),
        decoded(r@) == Some(snapshot.deep_view()),
{
    let mut out: Vec<u8> = Vec::new();
    write_head(MAJOR_ARRAY, 3, &mut out);
    write_list::<Team>(MAJOR_MAP, &snapshot.teams, &mut out);
    write_list::<PuzzleEntry>(MAJOR_MAP, &snapshot.puzzles, &mut out);
    write_list::<Session>(MAJOR_MAP, &snapshot.sessions, &mut out);
    proof {
        assert(out@ =~= encoded(snapshot.deep_view()));
        lemma_decode_encode(snapshot.deep_view());
    }
    out
}

/// Deserializes a snapshot. It succeeds on the bytes that `serialize`
/// gives for some snapshot, and on no others.
#[verifier::rlimit(50)]
pub fn deserialize(bytes: &[u8]) -> (r: Result<Snapshot, PersistError>)
    ensures
        r matches Ok(snapshot) ==> decoded(bytes@) == Some(snapshot.deep_view()) && encoded(
            snapshot.deep_view(),
        ) == bytes@,
        r matches Err(e) ==> e == PersistError::Malformed && decoded(bytes@) is None,
        r is Err ==> forall|v: SnapshotView| encodable(v) ==> #[trigger] encoded(v) != bytes@,
{
    proof {
        reveal(decoded_tables);
        assert(bytes@.skip(0) =~= bytes@);
        if decoded(bytes@) is Some {
            lemma_encode_decode(bytes@);
        } else {
            assert forall|v: SnapshotView| encodable(v) implies #[trigger] encoded(v)
                != bytes@ by {
                lemma_decode_encode(v);
            }
        }
    }
    let (major, n, start) = match read_head(bytes, 0) {
        Some(found) => found,
        None => {
            return Err(PersistError::Malformed);
        },
    };
    if major != MAJOR_ARRAY || n != 3 {
        return Err(PersistError::Malformed);
    }
    let (teams, after_teams) = match read_list::<Team>(MAJOR_MAP, bytes, start) {
        Some(found) => found,
        None => {
            return Err(PersistError::Malformed);
        },
    };
    proof {
        assert(bytes@.skip(start as int).skip(after_teams - start) =~= bytes@.skip(
            after_teams as int,
        ));
    }
    let (puzzles, after_puzzles) = match read_list::<PuzzleEntry>(MAJOR_MAP, bytes, after_teams) {
        Some(found) => found,
        None => {
            return Err(PersistError::Malformed);
        },
    };
    proof {
        assert(bytes@.skip(after_teams as int).skip(after_puzzles - after_teams) =~= bytes@.skip(
            after_puzzles as int,
        ));
    }
    let (sessions, end) = match read_list::<Session>(MAJOR_MAP, bytes, after_puzzles) {
        Some(found) => found,
        None => {
            return Err(PersistError::Malformed);
        },
    };
    if end != bytes.len() {
        return Err(PersistError::Malformed);
    }
    Ok(Snapshot { teams, puzzles, sessions })
}

} // verus!
