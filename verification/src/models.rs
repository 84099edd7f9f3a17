//! The records of a competition and their mathematical views.

use vstd::prelude::*;

verus! {

pub type PuzzleId = String;

pub type PuzzleValue = u32;

pub type PuzzleSolution = String;

/// A session identifier: 128 random bits.
pub type SessionId = u128;

/// What the administrator defines for one puzzle.
#[derive(Debug, PartialEq, Eq)]
pub struct Puzzle {
    /// The authoritative answer.
    pub solution: PuzzleSolution,
    /// How many points it is worth.
    pub value: PuzzleValue,
}

/// A puzzle together with its identifier.
#[derive(Debug, PartialEq, Eq)]
pub struct PuzzleEntry {
    pub id: PuzzleId,
    pub puzzle: Puzzle,
}

/// A team and the puzzles it has solved.
#[derive(Debug, PartialEq, Eq)]
pub struct Team {
    pub name: String,
    pub solved: SolvedPuzzles,
}

/// An active session and the team it authenticates.
#[derive(Debug, PartialEq, Eq)]
pub struct Session {
    pub id: SessionId,
    pub username: String,
}

/// The puzzles with their values, as everybody may see them.
pub type PuzzlesExisting = Vec<(PuzzleId, PuzzleValue)>;

/// The puzzles with their solutions: the catalog, or a batch for it. No
/// identifier occurs twice in a catalog.
pub type PuzzleSolutions = Vec<PuzzleEntry>;

/// The puzzles that a team has solved, each once.
pub type SolvedPuzzles = Vec<PuzzleId>;

/// The teams with their solved puzzles. No name occurs twice.
pub type TeamsState = Vec<Team>;

pub struct PuzzleView {
    pub solution: Seq<char>,
    pub value: u32,
}

pub struct PuzzleEntryView {
    pub id: Seq<char>,
    pub puzzle: PuzzleView,
}

pub struct TeamView {
    pub name: Seq<char>,
    pub solved: Seq<Seq<char>>,
}

pub struct SessionView {
    pub id: u128,
    pub username: Seq<char>,
}

impl DeepView for Puzzle {
    type V = PuzzleView;

    open spec fn deep_view(&self) -> PuzzleView {
        PuzzleView { solution: self.solution@, value: self.value }
    }
}

impl DeepView for PuzzleEntry {
    type V = PuzzleEntryView;

    open spec fn deep_view(&self) -> PuzzleEntryView {
        PuzzleEntryView { id: self.id@, puzzle: self.puzzle.deep_view() }
    }
}

impl DeepView for Team {
    type V = TeamView;

    open spec fn deep_view(&self) -> TeamView {
        TeamView { name: self.name@, solved: self.solved.deep_view() }
    }
}

impl DeepView for Session {
    type V = SessionView;

    open spec fn deep_view(&self) -> SessionView {
        SessionView { id: self.id, username: self.username@ }
    }
}

impl Clone for Puzzle {
    fn clone(&self) -> (r: Self)
        ensures
            r.deep_view() == self.deep_view(),
    {
        Puzzle { solution: self.solution.clone(), value: self.value }
    }
}

impl Clone for PuzzleEntry {
    fn clone(&self) -> (r: Self)
        ensures
            r.deep_view() == self.deep_view(),
    {
        PuzzleEntry { id: self.id.clone(), puzzle: self.puzzle.clone() }
    }
}

impl Clone for Session {
    fn clone(&self) -> (r: Self)
        ensures
            r.deep_view() == self.deep_view(),
    {
        Session { id: self.id, username: self.username.clone() }
    }
}

/// A copy of a list of names.
pub fn clone_names(names: &Vec<String>) -> (r: Vec<String>)
    ensures
        r.deep_view() == names.deep_view(),
{
    let mut out: Vec<String> = Vec::new();
    let mut i: usize = 0;
    while i < names.len()
        invariant
            i <= names.len(),
            out.len() == i,
            forall|j: int| 0 <= j < i ==> out@[j]@ == names@[j]@,
        decreases names.len() - i,
    {
        out.push(names[i].clone());
        i += 1;
    }
    assert(out.deep_view() =~= names.deep_view());
    out
}

impl Clone for Team {
    fn clone(&self) -> (r: Self)
        ensures
            r.deep_view() == self.deep_view(),
    {
        Team { name: self.name.clone(), solved: clone_names(&self.solved) }
    }
}

} // verus!
