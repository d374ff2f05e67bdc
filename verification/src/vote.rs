//! Ranked-choice votes.

use std::collections::HashMap;
use vstd::prelude::*;
use vstd::std_specs::iter::IteratorSpec;
use crate::error::BookingError;

verus! {

broadcast use vstd::std_specs::hash::group_hash_axioms;

/// One vote: a user ranks a candidate for a position. A user gives a
/// candidate at most one vote per position.
#[derive(Clone, Copy, Debug, PartialEq, Eq, Structural)]
pub struct Vote {
    /// Who votes.
    pub user_id: i32,
    /// The position that the vote is for.
    pub position_id: i32,
    /// The candidate that the vote goes to.
    pub candidate_id: i32,
    /// The rank that the user gives the candidate; lower is better.
    pub ranking: i32,
}

/// A user stands for a position.
#[derive(Clone, Copy, Debug, PartialEq, Eq, Structural)]
pub struct Nomination {
    /// The position.
    pub position_id: i32,
    /// Who stands for it.
    pub user_id: i32,
}

/// A candidate's name. Candidates are keyed by user: where a user stands
/// twice in a list, the first row counts.
#[derive(Clone, Debug, PartialEq, Eq)]
pub struct Candidate {
    /// The candidate.
    pub user_id: i32,
    /// The name on the ballot.
    pub name: String,
}

/// The table of votes.
pub struct Ballots {
    pub(crate) votes: Vec<Vote>,
}

impl View for Ballots {
    type V = Seq<Vote>;

    open(crate) spec fn view(&self) -> Seq<Vote> {
        self.votes@
    }
}

/// Whether two votes have the same key: user, position and candidate.
pub open spec fn same_key(a: Vote, b: Vote) -> bool {
    a.user_id == b.user_id && a.position_id == b.position_id && a.candidate_id == b.candidate_id
}

/// Whether some vote of the table has the key of `vote`.
pub open spec fn key_taken(votes: Seq<Vote>, vote: Vote) -> bool {
    exists|i: int| 0 <= i < votes.len() && same_key(#[trigger] votes[i], vote)
}

/// The invariant of the table: no key stands twice.
pub open spec fn distinct_votes(votes: Seq<Vote>) -> bool {
    forall|i: int, j: int|
        0 <= i < j < votes.len() ==> !same_key(#[trigger] votes[i], #[trigger] votes[j])
}

/// Whether the vote is one of the user's for the position.
pub open spec fn cast_by(vote: Vote, user_id: i32, position_id: i32) -> bool {
    vote.user_id == user_id && vote.position_id == position_id
}

/// The first `n` votes without those of the user for the position.
pub open spec fn others_upto(votes: Seq<Vote>, n: int, user_id: i32, position_id: i32) -> Seq<Vote>
    decreases n,
{
    if n <= 0 {
        Seq::empty()
    } else {
        let rest = others_upto(votes, n - 1, user_id, position_id);
        if cast_by(votes[n - 1], user_id, position_id) {
            rest
        } else {
            rest.push(votes[n - 1])
        }
    }
}

/// The table without the votes of the user for the position.
pub open spec fn others(votes: Seq<Vote>, user_id: i32, position_id: i32) -> Seq<Vote> {
    others_upto(votes, votes.len() as int, user_id, position_id)
}

/// Whether `cast` is the ballot that the map from ranking to candidate
/// describes: one vote of the user for the position per ranking, each for
/// the candidate that the map gives, in some order.
pub open spec fn lists_ballot(
    cast: Seq<Vote>,
    map: Map<i32, i32>,
    user_id: i32,
    position_id: i32,
) -> bool {
    &&& cast.len() == map.len()
    &&& forall|i: int|
        0 <= i < cast.len() ==> cast_by(#[trigger] cast[i], user_id, position_id)
            && map.contains_key(cast[i].ranking) && map[cast[i].ranking] == cast[i].candidate_id
    &&& forall|i: int, j: int|
        0 <= i < j < cast.len() ==> (#[trigger] cast[i]).ranking != (#[trigger] cast[j]).ranking
    &&& forall|k: i32|
        map.contains_key(k) ==> exists|i: int|
            0 <= i < cast.len() && (#[trigger] cast[i]).ranking == k
}

/// Whether no candidate is given two rankings.
pub open spec fn one_ranking_each(map: Map<i32, i32>) -> bool {
    forall|a: i32, b: i32|
        map.contains_key(a) && map.contains_key(b) && a != b ==> #[trigger] map[a]
            != #[trigger] map[b]
}

/// Whether the user stands for the position.
pub open spec fn nominated(nominations: Seq<Nomination>, position_id: i32, user_id: i32) -> bool {
    exists|i: int|
        0 <= i < nominations.len() && #[trigger] nominations[i] == (Nomination {
            position_id,
            user_id,
        })
}

/// The name of the first candidate row, from the `i`-th on, with this user.
pub open spec fn name_from(candidates: Seq<Candidate>, user_id: i32, i: int) -> Option<Seq<char>>
    decreases candidates.len() - i,
{
    if i < 0 || i >= candidates.len() {
        None
    } else if candidates[i].user_id == user_id {
        Some(candidates[i].name@)
    } else {
        name_from(candidates, user_id, i + 1)
    }
}

/// A name on a ballot, with the rank that the voter gave it.
pub struct RankedName {
    pub ranking: int,
    pub name: Seq<char>,
}

/// The first place, from `i` on, whose rank is above `ranking`; the end where there is none.
pub open spec fn slot(rows: Seq<RankedName>, ranking: int, i: int) -> int
    decreases rows.len() - i,
{
    if i < 0 || i >= rows.len() || rows[i].ranking > ranking {
        i
    } else {
        slot(rows, ranking, i + 1)
    }
}

/// `rows` with `row` put behind every row of its rank or a better one.
pub open spec fn placed(rows: Seq<RankedName>, row: RankedName) -> Seq<RankedName> {
    rows.insert(slot(rows, row.ranking, 0), row)
}

/// The ballot that the first `n` votes of the table give for the user and
/// the position: the votes for candidates who stand for the position and
/// have a name, best rank first, equal ranks in table order.
pub open spec fn ballot_upto(
    votes: Seq<Vote>,
    n: int,
    user_id: i32,
    position_id: i32,
    nominations: Seq<Nomination>,
    candidates: Seq<Candidate>,
) -> Seq<RankedName>
    decreases n,
{
    if n <= 0 {
        Seq::empty()
    } else {
        let rest = ballot_upto(votes, n - 1, user_id, position_id, nominations, candidates);
        let vote = votes[n - 1];
        if cast_by(vote, user_id, position_id) && nominated(
            nominations,
            position_id,
            vote.candidate_id,
        ) {
            match name_from(candidates, vote.candidate_id, 0) {
                Some(name) => placed(rest, RankedName { ranking: vote.ranking as int, name }),
                None => rest,
            }
        } else {
            rest
        }
    }
}

/// The user's ballot for the position.
pub open spec fn ballot(
    votes: Seq<Vote>,
    user_id: i32,
    position_id: i32,
    nominations: Seq<Nomination>,
    candidates: Seq<Candidate>,
) -> Seq<RankedName> {
    ballot_upto(votes, votes.len() as int, user_id, position_id, nominations, candidates)
}

/// The names of a ballot, in its order.
pub open spec fn names_of(rows: Seq<RankedName>) -> Seq<Seq<char>> {
    rows.map_values(|row: RankedName| row.name)
}

/// The texts of a list of strings.
pub open spec fn texts(names: Seq<String>) -> Seq<Seq<char>> {
    names.map_values(|name: String| name@)
}

/// Whether the ranks never fall along the rows.
pub open spec fn ranked(rows: Seq<RankedName>) -> bool {
    forall|a: int, b: int|
        0 <= a < b < rows.len() ==> (#[trigger] rows[a]).ranking <= (#[trigger] rows[b]).ranking
}

/// The slot lies within the rows, behind rows of the same rank or a better
/// one and before a row of a worse one.
pub proof fn lemma_slot(rows: Seq<RankedName>, ranking: int, i: int)
    requires
        0 <= i <= rows.len(),
    ensures
        i <= slot(rows, ranking, i) <= rows.len(),
        forall|k: int| i <= k < slot(rows, ranking, i) ==> (#[trigger] rows[k]).ranking <= ranking,
        slot(rows, ranking, i) < rows.len() ==> rows[slot(rows, ranking, i)].ranking > ranking,
    decreases rows.len() - i,
{
    if i < rows.len() && rows[i].ranking <= ranking {
        lemma_slot(rows, ranking, i + 1);
    }
}

/// Placing a row keeps the ranks in order.
pub proof fn lemma_placed_ranked(rows: Seq<RankedName>, row: RankedName)
    requires
        ranked(rows),
    ensures
        ranked(placed(rows, row)),
{
    lemma_slot(rows, row.ranking, 0);
    let p = slot(rows, row.ranking, 0);
    let out = placed(rows, row);
    assert forall|a: int, b: int| 0 <= a < b < out.len() implies (#[trigger] out[a]).ranking <= (
    #[trigger] out[b]).ranking by {
        let x = if a < p { a } else { a - 1 };
        let y = if b < p { b } else { b - 1 };
        if a != p && b != p {
            assert(rows[x].ranking <= rows[y].ranking);
        } else if a == p {
            assert(rows[p].ranking <= rows[y].ranking);
        } else {
            assert(rows[x].ranking <= row.ranking);
        }
    }
}

/// A ballot comes out best rank first.
pub proof fn lemma_ballot_ranked(
    votes: Seq<Vote>,
    n: int,
    user_id: i32,
    position_id: i32,
    nominations: Seq<Nomination>,
    candidates: Seq<Candidate>,
)
    ensures
        ranked(ballot_upto(votes, n, user_id, position_id, nominations, candidates)),
    decreases n,
{
    if n > 0 {
        lemma_ballot_ranked(votes, n - 1, user_id, position_id, nominations, candidates);
        let rest = ballot_upto(votes, n - 1, user_id, position_id, nominations, candidates);
        let vote = votes[n - 1];
        if name_from(candidates, vote.candidate_id, 0) is Some {
            lemma_placed_ranked(
                rest,
                RankedName {
                    ranking: vote.ranking as int,
                    name: name_from(candidates, vote.candidate_id, 0).unwrap(),
                },
            );
        }
    }
}

/// What is left of a table of distinct votes, once a user's votes for a
/// position are taken out, is a table of distinct votes, none of them the
/// user's for the position.
pub proof fn lemma_others(votes: Seq<Vote>, n: int, user_id: i32, position_id: i32)
    requires
        n <= votes.len(),
    ensures
        forall|a: int|
            0 <= a < others_upto(votes, n, user_id, position_id).len() ==> !cast_by(
                #[trigger] others_upto(votes, n, user_id, position_id)[a],
                user_id,
                position_id,
            ) && exists|k: int|
                0 <= k < n && #[trigger] votes[k] == others_upto(votes, n, user_id, position_id)[a],
        distinct_votes(votes) ==> distinct_votes(others_upto(votes, n, user_id, position_id)),
    decreases n,
{
    if n > 0 {
        lemma_others(votes, n - 1, user_id, position_id);
        let rest = others_upto(votes, n - 1, user_id, position_id);
        let whole = others_upto(votes, n, user_id, position_id);
        assert forall|a: int| 0 <= a < whole.len() implies !cast_by(
            #[trigger] whole[a],
            user_id,
            position_id,
        ) && exists|k: int| 0 <= k < n && #[trigger] votes[k] == whole[a] by {
            if a < rest.len() {
                assert(whole[a] == rest[a]);
                let k = choose|k: int| 0 <= k < n - 1 && #[trigger] votes[k] == rest[a];
                assert(votes[k] == whole[a]);
            } else {
                assert(votes[n - 1] == whole[a]);
            }
        }
        if distinct_votes(votes) {
            assert forall|i: int, j: int| 0 <= i < j < whole.len() implies !same_key(
                #[trigger] whole[i],
                #[trigger] whole[j],
            ) by {
                if j < rest.len() {
                    assert(whole[i] == rest[i] && whole[j] == rest[j]);
                } else {
                    assert(whole[i] == rest[i]);
                    let k = choose|k: int| 0 <= k < n - 1 && #[trigger] votes[k] == rest[i];
                    assert(!same_key(votes[k], votes[n - 1]));
                }
            }
        }
    }
}

/// The rows of a map from ranking to candidate, in the order in which the
/// map hands them out. That order is the map's own affair: only what holds
/// of every order is stated.
pub fn entries_of(map: &HashMap<i32, i32>) -> (pairs: Vec<(i32, i32)>)
    ensures
        pairs.len() == map@.len(),
        forall|i: int|
            0 <= i < pairs.len() ==> map@.contains_key((#[trigger] pairs[i]).0) && map@[pairs[i].0]
                == pairs[i].1,
        forall|i: int, j: int|
            0 <= i < j < pairs.len() ==> (#[trigger] pairs[i]).0 != (#[trigger] pairs[j]).0,
        forall|k: i32|
            map@.contains_key(k) ==> exists|i: int|
                0 <= i < pairs.len() && (#[trigger] pairs[i]).0 == k,
{
    let mut pairs: Vec<(i32, i32)> = Vec::new();
    for entry in it: map.iter()
        invariant
            pairs.len() == it.index(),
            it.seq() == vstd::std_specs::hash::spec_hash_map_iter(map).remaining(),
            it.seq().no_duplicates(),
            forall|j: int|
                0 <= j < pairs.len() ==> (#[trigger] pairs[j]) == (*it.seq()[j].0, *it.seq()[j].1),
    {
        pairs.push((*entry.0, *entry.1));
    }
    proof {
        let listing = vstd::std_specs::hash::spec_hash_map_iter(map).remaining();
        assert forall|i: int, j: int| 0 <= i < j < pairs.len() implies (#[trigger] pairs[i]).0 != (
        #[trigger] pairs[j]).0 by {
            if pairs[i].0 == pairs[j].0 {
                assert(map@[pairs[i].0] == pairs[i].1);
                assert(map@[pairs[j].0] == pairs[j].1);
                assert(listing[i] == listing[j]);
            }
        }
        assert forall|k: i32| map@.contains_key(k) implies exists|i: int|
            0 <= i < pairs.len() && (#[trigger] pairs[i]).0 == k by {
            assert(listing.contains((&k, &map@[k])));
            let i = choose|i: int| 0 <= i < listing.len() && listing[i] == (&k, &map@[k]);
            assert(pairs[i].0 == k);
        }
    }
    pairs
}

impl From<(i32, i32, i32, i32)> for Vote {
    /// The vote that a row of (position, user, candidate, ranking) stands for.
    fn from(row: (i32, i32, i32, i32)) -> (vote: Vote) {
        Vote { user_id: row.1, position_id: row.0, candidate_id: row.2, ranking: row.3 }
    }
}

impl vstd::std_specs::convert::FromSpecImpl<(i32, i32, i32, i32)> for Vote {
    open spec fn obeys_from_spec() -> bool {
        true
    }

    open spec fn from_spec(row: (i32, i32, i32, i32)) -> Vote {
        Vote { user_id: row.1, position_id: row.0, candidate_id: row.2, ranking: row.3 }
    }
}

fn holds_key(votes: &Vec<Vote>, upto: usize, vote: &Vote) -> (held: bool)
    requires
        upto <= votes.len(),
    ensures
        held == key_taken(votes@.take(upto as int), *vote),
{
    let mut i: usize = 0;
    while i < upto
        invariant
            i <= upto <= votes.len(),
            forall|j: int| 0 <= j < i ==> !same_key(#[trigger] votes@[j], *vote),
        decreases upto - i,
    {
        if votes[i].user_id == vote.user_id && votes[i].position_id == vote.position_id
            && votes[i].candidate_id == vote.candidate_id {
            assert(same_key(votes@.take(upto as int)[i as int], *vote));
            return true;
        }
        i += 1;
    }
    assert forall|j: int| 0 <= j < upto implies !same_key(
        #[trigger] votes@.take(upto as int)[j],
        *vote,
    ) by {
        assert(!same_key(votes@[j], *vote));
    }
    false
}

fn is_nominated(nominations: &Vec<Nomination>, position_id: i32, user_id: i32) -> (stands: bool)
    ensures
        stands == nominated(nominations@, position_id, user_id),
{
    let mut i: usize = 0;
    while i < nominations.len()
        invariant
            i <= nominations.len(),
            forall|j: int|
                0 <= j < i ==> #[trigger] nominations@[j] != (Nomination { position_id, user_id }),
        decreases nominations.len() - i,
    {
        if nominations[i].position_id == position_id && nominations[i].user_id == user_id {
            assert(nominations@[i as int] == (Nomination { position_id, user_id }));
            return true;
        }
        i += 1;
    }
    false
}

fn find_name(candidates: &Vec<Candidate>, user_id: i32) -> (name: Option<String>)
    ensures
        match name {
            Some(text) => name_from(candidates@, user_id, 0) == Some(text@),
            None => name_from(candidates@, user_id, 0) is None,
        },
{
    let mut i: usize = 0;
    while i < candidates.len()
        invariant
            i <= candidates.len(),
            name_from(candidates@, user_id, 0) == name_from(candidates@, user_id, i as int),
        decreases candidates.len() - i,
    {
        if candidates[i].user_id == user_id {
            return Some(candidates[i].name.clone());
        }
        i += 1;
    }
    None
}

/// The ranks and names of a ballot, held side by side.
pub open spec fn paired(ranks: Seq<i32>, names: Seq<String>) -> Seq<RankedName> {
    Seq::new(ranks.len(), |i: int| RankedName { ranking: ranks[i] as int, name: names[i]@ })
}

fn find_slot(ranks: &Vec<i32>, ranking: i32, Ghost(rows): Ghost<Seq<RankedName>>) -> (at: usize)
    requires
        rows.len() == ranks.len(),
        forall|i: int| 0 <= i < rows.len() ==> (#[trigger] rows[i]).ranking == ranks[i],
    ensures
        at == slot(rows, ranking as int, 0),
        at <= ranks.len(),
{
    let mut i: usize = 0;
    while i < ranks.len() && ranks[i] <= ranking
        invariant
            i <= ranks.len(),
            rows.len() == ranks.len(),
            forall|k: int| 0 <= k < rows.len() ==> (#[trigger] rows[k]).ranking == ranks[k],
            slot(rows, ranking as int, 0) == slot(rows, ranking as int, i as int),
        decreases ranks.len() - i,
    {
        i += 1;
    }
    i
}

impl Ballots {
    /// A table without votes.
    pub fn new() -> (ballots: Ballots)
        ensures
            ballots@ == Seq::<Vote>::empty(),
    {
        Ballots { votes: Vec::new() }
    }
}

impl Vote {
    /// Adds the vote at the end of the table. Where the user has a vote
    /// for the candidate and the position already, `Duplicate`, and nothing
    /// changes.
    pub fn insert(&self, ballots: &mut Ballots) -> (added: Result<usize, BookingError>)
        ensures
            match added {
                Ok(n) => n == 1 && !key_taken(old(ballots)@, *self) && final(ballots)@ == old(ballots)@.push(*self),
                Err(e) => e == BookingError::Duplicate && key_taken(old(ballots)@, *self) && final(ballots)@ == old(ballots)@,
            },
            distinct_votes(old(ballots)@) ==> distinct_votes(final(ballots)@),
    {
        assert(ballots@.take(ballots@.len() as int) =~= ballots@);
        if holds_key(&ballots.votes, ballots.votes.len(), self) {
            return Err(BookingError::Duplicate);
        }
        ballots.votes.push(*self);
        Ok(1)
    }

    /// Every vote of the table, in table order.
    pub fn get_results(ballots: &Ballots) -> (votes: Vec<Vote>)
        ensures
            votes@ == ballots@,
    {
        let mut votes: Vec<Vote> = Vec::new();
        let mut i: usize = 0;
        while i < ballots.votes.len()
            invariant
                i <= ballots.votes.len(),
                votes@ == ballots@.take(i as int),
            decreases ballots.votes.len() - i,
        {
            votes.push(ballots.votes[i]);
            assert(ballots@.take(i as int).push(ballots@[i as int]) =~= ballots@.take(i + 1));
            i += 1;
        }
        assert(ballots@.take(i as int) =~= ballots@);
        votes
    }

    /// Replaces the user's ballot for the position by the one that the map
    /// from ranking to candidate describes, and says how many votes it
    /// holds. The votes of other users and for other positions stay, in
    /// their order, and the new votes follow them in the order in which the
    /// map hands them out. A map that gives one candidate two rankings is
    /// refused as `Duplicate`, and nothing changes.
    pub fn insert_all(
        user_id: i32,
        position_id: i32,
        map: &HashMap<i32, i32>,
        ballots: &mut Ballots,
    ) -> (replaced: Result<usize, BookingError>)
        ensures
            match replaced {
                Ok(n) => {
                    &&& one_ranking_each(map@)
                    &&& n == map@.len()
                    &&& exists|cast: Seq<Vote>| #[trigger]
                        lists_ballot(cast, map@, user_id, position_id) && final(ballots)@
                            == others(old(ballots)@, user_id, position_id) + cast
                },
                Err(e) => {
                    &&& e == BookingError::Duplicate
                    &&& !one_ranking_each(map@)
                    &&& final(ballots)@ == old(ballots)@
                },
            },
            distinct_votes(old(ballots)@) ==> distinct_votes(final(ballots)@),
    {
        let pairs: Vec<(i32, i32)> = entries_of(map);
        let mut cast: Vec<Vote> = Vec::new();
        let mut j: usize = 0;
        while j < pairs.len()
            invariant
                j <= pairs.len(),
                cast.len() == j,
                forall|i: int|
                    0 <= i < j ==> (#[trigger] cast@[i]) == (Vote {
                        user_id,
                        position_id,
                        candidate_id: pairs@[i].1,
                        ranking: pairs@[i].0,
                    }),
                distinct_votes(cast@),
                pairs.len() == map@.len(),
                forall|i: int|
                    0 <= i < pairs.len() ==> map@.contains_key((#[trigger] pairs[i]).0)
                        && map@[pairs[i].0] == pairs[i].1,
                forall|a: int, b: int|
                    0 <= a < b < pairs.len() ==> (#[trigger] pairs[a]).0 != (#[trigger] pairs[b]).0,
            decreases pairs.len() - j,
        {
            let vote: Vote = Vote {
                user_id,
                position_id,
                candidate_id: pairs[j].1,
                ranking: pairs[j].0,
            };
            assert(cast@.take(cast@.len() as int) =~= cast@);
            if holds_key(&cast, cast.len(), &vote) {
                proof {
                    let i = choose|i: int| 0 <= i < cast@.len() && same_key(#[trigger] cast@[i], vote);
                    assert(pairs[i].0 != pairs[j as int].0);
                    assert(map@[pairs[i].0] == map@[pairs[j as int].0]);
                }
                return Err(BookingError::Duplicate);
            }
            cast.push(vote);
            j += 1;
        }
        proof {
            assert forall|a: i32, b: i32|
                map@.contains_key(a) && map@.contains_key(b) && a != b implies #[trigger] map@[a]
                != #[trigger] map@[b] by {
                let x = choose|x: int| 0 <= x < pairs.len() && (#[trigger] pairs[x]).0 == a;
                let y = choose|y: int| 0 <= y < pairs.len() && (#[trigger] pairs[y]).0 == b;
                if x < y {
                    assert(!same_key(cast@[x], cast@[y]));
                } else {
                    assert(!same_key(cast@[y], cast@[x]));
                }
            }
        }
        let mut kept: Vec<Vote> = Vec::new();
        let mut i: usize = 0;
        while i < ballots.votes.len()
            invariant
                i <= ballots.votes.len(),
                ballots@ == old(ballots)@,
                kept@ == others_upto(ballots@, i as int, user_id, position_id),
            decreases ballots.votes.len() - i,
        {
            if !(ballots.votes[i].user_id == user_id && ballots.votes[i].position_id
                == position_id) {
                kept.push(ballots.votes[i]);
            }
            i += 1;
        }
        let ghost rest = kept@;
        let mut k: usize = 0;
        while k < cast.len()
            invariant
                k <= cast.len(),
                kept@ == rest + cast@.take(k as int),
            decreases cast.len() - k,
        {
            kept.push(cast[k]);
            assert(rest + cast@.take(k as int).push(cast@[k as int]) =~= rest + cast@.take(k + 1));
            assert(kept@ =~= rest + cast@.take(k + 1));
            k += 1;
        }
        let n: usize = cast.len();
        proof {
            assert(cast@.take(k as int) =~= cast@);
            assert(lists_ballot(cast@, map@, user_id, position_id)) by {
                assert forall|k: i32| map@.contains_key(k) implies exists|i: int|
                    0 <= i < cast@.len() && (#[trigger] cast@[i]).ranking == k by {
                    let x = choose|x: int| 0 <= x < pairs.len() && (#[trigger] pairs[x]).0 == k;
                    assert(cast@[x].ranking == k);
                }
            }
            lemma_others(old(ballots)@, old(ballots)@.len() as int, user_id, position_id);
            if distinct_votes(old(ballots)@) {
                let whole = rest + cast@;
                assert forall|a: int, b: int| 0 <= a < b < whole.len() implies !same_key(
                    #[trigger] whole[a],
                    #[trigger] whole[b],
                ) by {
                    if b < rest.len() {
                        assert(!same_key(rest[a], rest[b]));
                    } else if a >= rest.len() {
                        assert(!same_key(cast@[a - rest.len()], cast@[b - rest.len()]));
                    } else {
                        assert(!cast_by(rest[a], user_id, position_id));
                        assert(cast_by(cast@[b - rest.len()], user_id, position_id));
                    }
                }
            }
        }
        ballots.votes = kept;
        Ok(n)
    }

    /// The user's ballot for the position: the names of the candidates
    /// that the user voted for, best rank first, or `None` where the user
    /// has cast no such vote. A vote counts where its candidate stands for
    /// the position and has a name.
    pub fn get_current_ballot(
        user_id: i32,
        position_id: i32,
        ballots: &Ballots,
        nominations: &Vec<Nomination>,
        candidates: &Vec<Candidate>,
    ) -> (names: Option<Vec<String>>)
        ensures
            ranked(ballot(ballots@, user_id, position_id, nominations@, candidates@)),
            match names {
                Some(list) => list.len() > 0 && texts(list@) == names_of(
                    ballot(ballots@, user_id, position_id, nominations@, candidates@),
                ),
                None => ballot(ballots@, user_id, position_id, nominations@, candidates@).len()
                    == 0,
            },
    {
        let mut ranks: Vec<i32> = Vec::new();
        let mut names: Vec<String> = Vec::new();
        let mut i: usize = 0;
        assert(paired(ranks@, names@) =~= Seq::empty());
        while i < ballots.votes.len()
            invariant
                i <= ballots.votes.len(),
                ranks.len() == names.len(),
                paired(ranks@, names@) == ballot_upto(
                    ballots@,
                    i as int,
                    user_id,
                    position_id,
                    nominations@,
                    candidates@,
                ),
            decreases ballots.votes.len() - i,
        {
            let vote: Vote = ballots.votes[i];
            if vote.user_id == user_id && vote.position_id == position_id && is_nominated(
                nominations,
                position_id,
                vote.candidate_id,
            ) {
                match find_name(candidates, vote.candidate_id) {
                    Some(name) => {
                        let ghost rows = paired(ranks@, names@);
                        let at: usize = find_slot(&ranks, vote.ranking, Ghost(rows));
                        ranks.insert(at, vote.ranking);
                        names.insert(at, name);
                        assert(paired(ranks@, names@) =~= placed(
                            rows,
                            RankedName { ranking: vote.ranking as int, name: name@ },
                        ));
                    },
                    None => {},
                }
            }
            i += 1;
        }
        proof {
            lemma_ballot_ranked(
                ballots@,
                ballots@.len() as int,
                user_id,
                position_id,
                nominations@,
                candidates@,
            );
            assert(texts(names@) =~= names_of(paired(ranks@, names@)));
        }
        if names.len() == 0 {
            None
        } else {
            Some(names)
        }
    }
}

} // verus!
