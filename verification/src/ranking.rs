//! The order of presentation: teams by score, best first, and by name among
//! equal scores; puzzles by identifier.

use crate::assoc::{distinct_keys, has_key, lemma_lookup, lemma_same_map, position, to_map, Keyed};
use crate::models::{PuzzleId, PuzzleValue, Team};
use crate::state::{distinct_names, lemma_names_push, lemma_names_same, names_set};
use crate::tables::names_are_distinct;
use crate::text::{
    lemma_bytes_le_antisymmetric, lemma_bytes_le_reflexive, lemma_bytes_le_total,
    lemma_bytes_le_transitive, lemma_utf8_injective, name_le, name_le_exec, str_eq,
};
use vstd::multiset::Multiset;
use vstd::prelude::*;
use vstd::set::fold::{is_fun_commutative, lemma_fold_empty, lemma_fold_insert};
use vstd::utf8::encode_utf8;

verus! {

/// Records with an order of presentation.
pub trait Ranked: Sized {
    /// `self` is shown before `other`, or either may come first.
    spec fn precedes(&self, other: &Self) -> bool;

    /// Whether `self` is shown before `other`, or either may come first.
    fn comes_first(&self, other: &Self) -> (r: bool)
        ensures
            r == self.precedes(other),
    ;

    /// Of two records one precedes the other.
    proof fn lemma_total(a: &Self, b: &Self)
        ensures
            a.precedes(b) || b.precedes(a),
    ;

    /// What precedes a record precedes all that it precedes.
    proof fn lemma_transitive(a: &Self, b: &Self, c: &Self)
        requires
            a.precedes(b),
            b.precedes(c),
        ensures
            a.precedes(c),
    ;
}

/// Every record of the list precedes all that follow it.
pub open spec fn in_order<T: Ranked>(s: Seq<T>) -> bool {
    forall|i: int, j: int| #![trigger s[i], s[j]] 0 <= i < j < s.len() ==> s[i].precedes(&s[j])
}

/// Inserting a record into a list adds it to what the list holds.
pub proof fn lemma_insert_to_multiset<T>(s: Seq<T>, i: int, x: T)
    requires
        0 <= i <= s.len(),
    ensures
        s.insert(i, x).to_multiset() == s.to_multiset().insert(x),
{
    let t = s.insert(i, x);
    vstd::seq_lib::to_multiset_remove(t, i);
    assert(t.remove(i) =~= s);
    assert(t.to_multiset() =~= s.to_multiset().insert(x)) by {
        assert(t[i] == x);
        t.to_multiset_ensures();
        assert(t.contains(x));
    }
}

/// Puts a list into its order of presentation.
pub fn sort_ranked<T: Ranked>(items: Vec<T>) -> (r: Vec<T>)
    ensures
        in_order(r@),
        r@.to_multiset() == items@.to_multiset(),
{
    let mut rest = items;
    let mut out: Vec<T> = Vec::new();
    proof {
        assert(out@.to_multiset().add(rest@.to_multiset()) =~= items@.to_multiset()) by {
            out@.to_multiset_ensures();
            assert(out@.to_multiset().len() == 0);
        }
    }
    while rest.len() > 0
        invariant
            in_order(out@),
            out@.to_multiset().add(rest@.to_multiset()) == items@.to_multiset(),
        decreases rest.len(),
    {
        let ghost rest_before = rest@;
        let ghost out_before = out@;
        let x = rest.pop().unwrap();
        let mut p: usize = 0;
        while p < out.len() && out[p].comes_first(&x)
            invariant
                p <= out.len(),
                forall|k: int| 0 <= k < p ==> (#[trigger] out@[k]).precedes(&x),
            decreases out.len() - p,
        {
            p += 1;
        }
        out.insert(p, x);
        proof {
            assert(rest_before =~= rest@.push(x));
            vstd::seq_lib::to_multiset_build(rest@, x);
            lemma_insert_to_multiset(out_before, p as int, x);
            assert(out@.to_multiset().add(rest@.to_multiset()) =~= out_before.to_multiset().add(
                rest_before.to_multiset(),
            ));
            assert forall|i: int, j: int|
                #![trigger out@[i], out@[j]]
                0 <= i < j < out@.len() implies out@[i].precedes(&out@[j]) by {
                if i == p {
                    let first = out_before[p as int];
                    T::lemma_total(&first, &x);
                    if j - 1 > p {
                        assert(out_before[p as int].precedes(&out_before[j - 1]));
                        T::lemma_transitive(&x, &first, &out_before[j - 1]);
                    }
                } else if j == p {
                    assert(out_before[i].precedes(&x));
                } else {
                    let i2 = if i < p { i } else { i - 1 };
                    let j2 = if j < p { j } else { j - 1 };
                    assert(out_before[i2].precedes(&out_before[j2]));
                }
            }
        }
    }
    proof {
        assert(rest@.to_multiset() =~= Multiset::empty()) by {
            rest@.to_multiset_ensures();
            assert(rest@.to_multiset().len() == 0);
        }
        assert(out@.to_multiset() =~= out@.to_multiset().add(rest@.to_multiset()));
    }
    out
}

/// A list that holds the same records as one without repeated keys, in
/// whatever order, has no repeated key either and stands for the same map.
pub proof fn lemma_reordered_same_map<E: Keyed>(s: Seq<E>, t: Seq<E>)
    requires
        s.to_multiset() == t.to_multiset(),
        distinct_keys(s),
    ensures
        distinct_keys(t),
        to_map(t) == to_map(s),
{
    s.to_multiset_ensures();
    t.to_multiset_ensures();
    assert(s.no_duplicates()) by {
        assert forall|i: int, j: int| 0 <= i < s.len() && 0 <= j < s.len() && i != j implies s[i]
            != s[j] by {
            if i < j {
                assert(s[i].key() != s[j].key());
            } else {
                assert(s[j].key() != s[i].key());
            }
        }
    }
    s.lemma_multiset_has_no_duplicates();
    t.lemma_multiset_has_no_duplicates_conv();
    assert forall|j: int| 0 <= j < t.len() implies s.contains(#[trigger] t[j]) by {
        assert(t.contains(t[j]));
        assert(t.to_multiset().count(t[j]) > 0);
    }
    assert forall|i: int| 0 <= i < s.len() implies t.contains(#[trigger] s[i]) by {
        assert(s.contains(s[i]));
        assert(s.to_multiset().count(s[i]) > 0);
    }
    assert forall|i: int, j: int| 0 <= i < j < t.len() implies (#[trigger] t[i]).key() != (
    #[trigger] t[j]).key() by {
        let a = choose|a: int| 0 <= a < s.len() && s[a] == t[i];
        let b = choose|b: int| 0 <= b < s.len() && s[b] == t[j];
        assert(t[i] != t[j]);
        if a < b {
            assert(s[a].key() != s[b].key());
        } else if b < a {
            assert(s[b].key() != s[a].key());
        }
    }
    assert forall|k: E::Key| to_map(t).contains_key(k) <==> to_map(s).contains_key(k) by {
        if has_key(t, k) {
            let p = position(t, k);
            let a = choose|a: int| 0 <= a < s.len() && s[a] == t[p];
            assert(s[a].key() == k);
        }
        if has_key(s, k) {
            let p = position(s, k);
            let a = choose|a: int| 0 <= a < t.len() && t[a] == s[p];
            assert(t[a].key() == k);
        }
    }
    assert forall|k: E::Key| to_map(t).contains_key(k) implies to_map(t)[k] == to_map(s)[k] by {
        let p = position(t, k);
        lemma_lookup(t, p);
        let a = choose|a: int| 0 <= a < s.len() && s[a] == t[p];
        lemma_lookup(s, a);
    }
    assert(to_map(t) =~= to_map(s));
}

/// What a puzzle counts for: its value, or nothing if it is not defined.
pub open spec fn value_of(values: Map<Seq<char>, PuzzleValue>, id: Seq<char>) -> nat {
    if values.contains_key(id) {
        values[id] as nat
    } else {
        0
    }
}

/// Adds what a puzzle counts for to a running total.
pub open spec fn add_value(values: Map<Seq<char>, PuzzleValue>) -> spec_fn(nat, Seq<char>) -> nat {
    |total: nat, id: Seq<char>| total + value_of(values, id)
}

/// A team's score: the sum of the values of the puzzles it solved.
pub open spec fn score(solved: Set<Seq<char>>, values: Map<Seq<char>, PuzzleValue>) -> nat {
    solved.fold(0nat, add_value(values))
}

/// The names of a list are finitely many.
pub proof fn lemma_names_finite(names: Seq<String>)
    ensures
        names_set(names).finite(),
    decreases names.len(),
{
    if names.len() == 0 {
        assert(names_set(names) =~= Set::empty());
    } else {
        lemma_names_finite(names.drop_last());
        lemma_names_push(names.drop_last(), names.last());
        assert(names =~= names.drop_last().push(names.last()));
    }
}

/// A puzzle solved in addition adds what it counts for to the score.
pub proof fn lemma_score_push(names: Seq<String>, name: String, values: Map<Seq<char>, PuzzleValue>)
    requires
        !names_set(names).contains(name@),
    ensures
        score(names_set(names.push(name)), values) == score(names_set(names), values) + value_of(
            values,
            name@,
        ),
{
    lemma_names_finite(names);
    lemma_names_push(names, name);
    let f = add_value(values);
    assert(is_fun_commutative(f));
    lemma_fold_insert(names_set(names), 0nat, f, name@);
}

/// The value listed for the puzzle `id`.
pub fn find_value(puzzles: &Vec<(PuzzleId, PuzzleValue)>, id: &str) -> (r: Option<PuzzleValue>)
    requires
        distinct_keys(puzzles@),
    ensures
        r matches Some(v) ==> to_map(puzzles@).contains_key(id@) && to_map(puzzles@)[id@] == v,
        r is None ==> !to_map(puzzles@).contains_key(id@),
{
    let mut i: usize = 0;
    while i < puzzles.len()
        invariant
            i <= puzzles.len(),
            distinct_keys(puzzles@),
            forall|j: int| 0 <= j < i ==> (#[trigger] puzzles@[j]).0@ != id@,
        decreases puzzles.len() - i,
    {
        if str_eq(puzzles[i].0.as_str(), id) {
            proof {
                lemma_lookup(puzzles@, i as int);
            }
            return Some(puzzles[i].1);
        }
        i += 1;
    }
    None
}

/// The score of a team that solved the puzzles of `solved`.
pub fn team_score(solved: &Vec<PuzzleId>, puzzles: &Vec<(PuzzleId, PuzzleValue)>) -> (r: u128)
    requires
        distinct_names(solved@),
        distinct_keys(puzzles@),
    ensures
        r == score(names_set(solved@), to_map(puzzles@)),
{
    let ghost values = to_map(puzzles@);
    let mut total: u128 = 0;
    let mut i: usize = 0;
    proof {
        assert(names_set(solved@.take(0)) =~= Set::empty());
        lemma_fold_empty::<Seq<char>, nat>(0nat, add_value(values));
    }
    while i < solved.len()
        invariant
            i <= solved.len(),
            distinct_names(solved@),
            distinct_keys(puzzles@),
            values == to_map(puzzles@),
            total == score(names_set(solved@.take(i as int)), values),
            total <= i * u32::MAX,
        decreases solved.len() - i,
    {
        let worth: u32 = match find_value(puzzles, solved[i].as_str()) {
            Some(v) => v,
            None => 0,
        };
        proof {
            let before = solved@.take(i as int);
            let name = solved@[i as int];
            assert(solved@.take(i + 1) =~= before.push(name));
            assert(!names_set(before).contains(name@)) by {
                if names_set(before).contains(name@) {
                    let j = choose|j: int| 0 <= j < before.len() && (#[trigger] before[j])@ == name@;
                    assert(solved@[j]@ != solved@[i as int]@);
                }
            }
            lemma_score_push(before, name, values);
            assert((i + 1) * u32::MAX == i * u32::MAX + u32::MAX) by (nonlinear_arith);
            assert(i * u32::MAX <= usize::MAX * u32::MAX) by (nonlinear_arith)
                requires
                    i <= usize::MAX,
            ;
        }
        total = total + worth as u128;
        i += 1;
    }
    proof {
        assert(solved@.take(solved.len() as int) =~= solved@);
    }
    total
}

/// One line of the scoreboard.
#[derive(Debug, PartialEq, Eq)]
pub struct Standing {
    pub team: String,
    pub solved: Vec<PuzzleId>,
    pub score: u128,
}

impl Keyed for Standing {
    type Key = Seq<char>;

    type Value = Set<Seq<char>>;

    open spec fn key(&self) -> Seq<char> {
        self.team@
    }

    open spec fn value(&self) -> Set<Seq<char>> {
        names_set(self.solved@)
    }
}

impl Ranked for Standing {
    /// The higher score first; among equal scores, by name.
    open spec fn precedes(&self, other: &Self) -> bool {
        self.score > other.score || (self.score == other.score && name_le(self.team@, other.team@))
    }

    fn comes_first(&self, other: &Self) -> (r: bool) {
        self.score > other.score || (self.score == other.score && name_le_exec(
            self.team.as_str(),
            other.team.as_str(),
        ))
    }

    proof fn lemma_total(a: &Self, b: &Self) {
        lemma_bytes_le_total(encode_utf8(a.team@), encode_utf8(b.team@));
    }

    proof fn lemma_transitive(a: &Self, b: &Self, c: &Self) {
        if a.score == b.score && b.score == c.score {
            lemma_bytes_le_transitive(
                encode_utf8(a.team@),
                encode_utf8(b.team@),
                encode_utf8(c.team@),
            );
        }
    }
}

impl Ranked for (PuzzleId, PuzzleValue) {
    /// By identifier; among equal identifiers, the lower value first.
    open spec fn precedes(&self, other: &Self) -> bool {
        name_le(self.0@, other.0@) && (self.0@ == other.0@ ==> self.1 <= other.1)
    }

    fn comes_first(&self, other: &Self) -> (r: bool) {
        name_le_exec(self.0.as_str(), other.0.as_str()) && (!str_eq(
            self.0.as_str(),
            other.0.as_str(),
        ) || self.1 <= other.1)
    }

    proof fn lemma_total(a: &Self, b: &Self) {
        lemma_bytes_le_total(encode_utf8(a.0@), encode_utf8(b.0@));
        lemma_bytes_le_reflexive(encode_utf8(a.0@));
    }

    proof fn lemma_transitive(a: &Self, b: &Self, c: &Self) {
        lemma_bytes_le_transitive(encode_utf8(a.0@), encode_utf8(b.0@), encode_utf8(c.0@));
        if a.0@ == c.0@ {
            lemma_bytes_le_antisymmetric(encode_utf8(a.0@), encode_utf8(b.0@));
            lemma_utf8_injective(a.0@, b.0@);
        }
    }
}

/// The teams with their scores, best first.
pub fn rank_teams(teams: &Vec<Team>, puzzles: &Vec<(PuzzleId, PuzzleValue)>) -> (r: Vec<Standing>)
    requires
        distinct_keys(teams@),
        forall|i: int| 0 <= i < teams.len() ==> distinct_names((#[trigger] teams@[i]).solved@),
        distinct_keys(puzzles@),
    ensures
        in_order(r@),
        distinct_keys(r@),
        to_map(r@) == to_map(teams@),
        forall|i: int|
            0 <= i < r.len() ==> (#[trigger] r@[i]).score == score(
                names_set(r@[i].solved@),
                to_map(puzzles@),
            ),
{
    let mut lines: Vec<Standing> = Vec::new();
    let mut i: usize = 0;
    while i < teams.len()
        invariant
            i <= teams.len(),
            lines.len() == i,
            distinct_keys(puzzles@),
            forall|j: int| 0 <= j < teams.len() ==> distinct_names((#[trigger] teams@[j]).solved@),
            forall|j: int|
                0 <= j < i ==> (#[trigger] lines@[j]).key() == teams@[j].key() && lines@[j].value()
                    == teams@[j].value() && lines@[j].score == score(
                    names_set(lines@[j].solved@),
                    to_map(puzzles@),
                ),
        decreases teams.len() - i,
    {
        let team = teams[i].clone();
        proof {
            let a = team.solved;
            let b = teams@[i as int].solved;
            assert(team.deep_view().solved == teams@[i as int].deep_view().solved);
            assert(a.deep_view().len() == b.deep_view().len());
            assert forall|k: int| 0 <= k < a@.len() implies (#[trigger] a@[k])@ == b@[k]@ by {
                assert(a.deep_view()[k] == b.deep_view()[k]);
            }
            lemma_names_same(a@, b@);
        }
        let points = team_score(&team.solved, puzzles);
        lines.push(Standing { team: team.name, solved: team.solved, score: points });
        i += 1;
    }
    proof {
        lemma_same_map(teams@, lines@);
    }
    let ranked = sort_ranked(lines);
    proof {
        lemma_reordered_same_map(lines@, ranked@);
        ranked@.to_multiset_ensures();
        lines@.to_multiset_ensures();
        assert forall|k: int| 0 <= k < ranked.len() implies (#[trigger] ranked@[k]).score == score(
            names_set(ranked@[k].solved@),
            to_map(puzzles@),
        ) by {
            assert(ranked@.contains(ranked@[k]));
            assert(lines@.to_multiset().count(ranked@[k]) > 0);
            assert(lines@.contains(ranked@[k]));
        }
    }
    ranked
}

/// What is shown to everybody: the teams, best first, and the puzzles by
/// identifier.
#[derive(Debug, PartialEq, Eq)]
pub struct Scoreboard {
    pub teams: Vec<Standing>,
    pub puzzles: Vec<(PuzzleId, PuzzleValue)>,
}

impl Scoreboard {
    /// The scoreboard shows exactly the given teams and puzzle values, each
    /// team with its score, all in their order of presentation.
    pub open spec fn presents(
        &self,
        teams: Map<Seq<char>, Set<Seq<char>>>,
        values: Map<Seq<char>, PuzzleValue>,
    ) -> bool {
        &&& distinct_keys(self.teams@)
        &&& to_map(self.teams@) == teams
        &&& forall|i: int|
            0 <= i < self.teams.len() ==> (#[trigger] self.teams@[i]).score == score(
                names_set(self.teams@[i].solved@),
                values,
            )
        &&& in_order(self.teams@)
        &&& distinct_keys(self.puzzles@)
        &&& to_map(self.puzzles@) == values
        &&& in_order(self.puzzles@)
    }
}

/// The lists can be shown: no team and no puzzle occurs twice, and no
/// team solved a puzzle twice.
pub open spec fn presentable(teams: Seq<Team>, puzzles: Seq<(PuzzleId, PuzzleValue)>) -> bool {
    &&& distinct_keys(teams)
    &&& forall|i: int| 0 <= i < teams.len() ==> distinct_names((#[trigger] teams[i]).solved@)
    &&& distinct_keys(puzzles)
}

/// Whether the lists can be shown.
pub fn is_presentable(teams: &Vec<Team>, puzzles: &Vec<(PuzzleId, PuzzleValue)>) -> (r: bool)
    ensures
        r == presentable(teams@, puzzles@),
{
    let mut i: usize = 0;
    while i < teams.len()
        invariant
            i <= teams.len(),
            forall|a: int, b: int|
                0 <= a < b < i ==> (#[trigger] teams@[a]).name@ != (#[trigger] teams@[b]).name@,
            forall|a: int| 0 <= a < i ==> distinct_names((#[trigger] teams@[a]).solved@),
        decreases teams.len() - i,
    {
        if !names_are_distinct(&teams[i].solved) {
            return false;
        }
        let mut j: usize = 0;
        while j < i
            invariant
                j <= i < teams.len(),
                forall|a: int| 0 <= a < j ==> (#[trigger] teams@[a]).name@ != teams@[i as int].name@,
            decreases i - j,
        {
            if str_eq(teams[j].name.as_str(), teams[i].name.as_str()) {
                assert(teams@[j as int].key() == teams@[i as int].key());
                return false;
            }
            j += 1;
        }
        i += 1;
    }
    let mut i: usize = 0;
    while i < puzzles.len()
        invariant
            i <= puzzles.len(),
            distinct_keys(teams@),
            forall|a: int| 0 <= a < teams.len() ==> distinct_names((#[trigger] teams@[a]).solved@),
            forall|a: int, b: int|
                0 <= a < b < i ==> (#[trigger] puzzles@[a]).0@ != (#[trigger] puzzles@[b]).0@,
        decreases puzzles.len() - i,
    {
        let mut j: usize = 0;
        while j < i
            invariant
                j <= i < puzzles.len(),
                forall|a: int| 0 <= a < j ==> (#[trigger] puzzles@[a]).0@ != puzzles@[i as int].0@,
            decreases i - j,
        {
            if str_eq(puzzles[j].0.as_str(), puzzles[i].0.as_str()) {
                assert(puzzles@[j as int].key() == puzzles@[i as int].key());
                return false;
            }
            j += 1;
        }
        i += 1;
    }
    true
}

/// Puts lists into their order of presentation, if they can be shown.
pub fn try_rank(teams: &Vec<Team>, puzzles: Vec<(PuzzleId, PuzzleValue)>) -> (r: Option<
    Scoreboard,
>)
    ensures
        r is Some <==> presentable(teams@, puzzles@),
        r matches Some(board) ==> board.presents(to_map(teams@), to_map(puzzles@)),
{
    if is_presentable(teams, &puzzles) {
        Some(rank(teams, puzzles))
    } else {
        None
    }
}

/// Puts what the store reports into its order of presentation.
pub fn rank(teams: &Vec<Team>, puzzles: Vec<(PuzzleId, PuzzleValue)>) -> (r: Scoreboard)
    requires
        presentable(teams@, puzzles@),
    ensures
        r.presents(to_map(teams@), to_map(puzzles@)),
{
    let lines = rank_teams(teams, &puzzles);
    let listed = sort_puzzles(puzzles);
    Scoreboard { teams: lines, puzzles: listed }
}

/// The points that a list of standings shows for a name: the score of the
/// first line that bears it, and nothing where no line does.
pub open spec fn points_shown(teams: Seq<Standing>, name: Seq<char>) -> u128
    decreases teams.len(),
{
    if teams.len() == 0 {
        0
    } else if teams[0].team@ == name {
        teams[0].score
    } else {
        points_shown(teams.drop_first(), name)
    }
}

/// The points of the user's own team on the scoreboard: the score of the
/// team that bears the name, and nothing where no team does.
pub fn points_of(username: &str, board: &Scoreboard) -> (r: u128)
    ensures
        r == points_shown(board.teams@, username@),
        !has_key(board.teams@, username@) ==> r == 0,
        distinct_keys(board.teams@) && has_key(board.teams@, username@) ==> r
            == board.teams@[position(board.teams@, username@)].score,
{
    let mut i: usize = 0;
    proof {
        assert(board.teams@.skip(0) =~= board.teams@);
    }
    while i < board.teams.len()
        invariant
            i <= board.teams.len(),
            points_shown(board.teams@, username@) == points_shown(
                board.teams@.skip(i as int),
                username@,
            ),
            forall|j: int| 0 <= j < i ==> (#[trigger] board.teams@[j]).team@ != username@,
        decreases board.teams.len() - i,
    {
        proof {
            assert(board.teams@.skip(i as int).drop_first() =~= board.teams@.skip(i + 1));
        }
        if str_eq(board.teams[i].team.as_str(), username) {
            proof {
                assert(board.teams@[i as int].key() == username@);
                if distinct_keys(board.teams@) {
                    lemma_lookup(board.teams@, i as int);
                }
            }
            return board.teams[i].score;
        }
        i += 1;
    }
    0
}

/// The puzzles by identifier.
pub fn sort_puzzles(puzzles: Vec<(PuzzleId, PuzzleValue)>) -> (r: Vec<(PuzzleId, PuzzleValue)>)
    ensures
        in_order(r@),
        r@.to_multiset() == puzzles@.to_multiset(),
        distinct_keys(puzzles@) ==> distinct_keys(r@) && to_map(r@) == to_map(puzzles@),
{
    let sorted = sort_ranked(puzzles);
    proof {
        if distinct_keys(puzzles@) {
            lemma_reordered_same_map(puzzles@, sorted@);
        }
    }
    sorted
}

} // verus!
