//! Collecting a ballot step by step: a voter starts, confirms where an
//! earlier ballot exists, ranks one candidate per step in canonical order,
//! and at the end the ballot replaces what the election held for them.

use vstd::prelude::*;
use crate::actions::{
    Action, ActionId, ElectionAction, ElectionActionType, Target, VoteAction, VoteActionType,
    VoteId,
};
use crate::election::{Election, Name, Region};
use crate::guild::V2Elections;
use crate::store::{resolved, StoreError, VoteInProgress};
use crate::tally::{ascending_scores, is_tally_of};
use crate::text::{all_digits, chars_of, digit_of, digit_value, digits_value, read_digits};

verus! {

/// The highest rank that a voter can give.
pub const MAX_RANK: usize = 5;

/// Why a step could not be taken.
#[derive(Debug, Copy, Clone, PartialEq, Eq, Structural)]
pub enum VoteError {
    /// The action is not one that the step handles.
    InvalidAction,
    /// The election could not be found.
    ElectionNotFound,
    /// The vote session could not be found: it has ended or expired.
    SessionExpired,
    /// The election has no candidates to rank.
    NoCandidates,
    /// The rank is not between 1 and the highest rank.
    InvalidRank,
}

/// The error of a step for the error of a store.
pub open spec fn vote_error(e: StoreError) -> VoteError {
    match e {
        StoreError::ElectionNotFound => VoteError::ElectionNotFound,
        StoreError::SessionExpired => VoteError::SessionExpired,
    }
}

fn from_store(e: StoreError) -> (r: VoteError)
    ensures
        r == vote_error(e),
{
    match e {
        StoreError::ElectionNotFound => VoteError::ElectionNotFound,
        StoreError::SessionExpired => VoteError::SessionExpired,
    }
}

/// What the voter is asked next.
#[derive(Debug)]
pub enum VotePrompt {
    /// They have a ballot already: rank again, or keep it?
    Confirm { vote_id: VoteId },
    /// Rank this candidate.
    Rank { vote_id: VoteId, name: Name, region: Region },
}

/// Where a session stands after a candidate was ranked.
#[derive(Debug)]
pub enum VoteStep {
    /// Another candidate waits to be ranked.
    Next { name: Name, region: Region },
    /// Every candidate is ranked: the ballot is cast and the session, here
    /// as it was when it ended, is gone.
    Complete { session: VoteInProgress },
}

/// What the owner, or someone else, gets to see of a result.
#[derive(Debug)]
pub enum ResultView {
    /// Only the creator of an election sees its result.
    Denied,
    /// The winners, in canonical order.
    Elected(Vec<Name>),
    /// Too few candidates could be seated to fill the offices.
    Infeasible,
}

/// The index of the first of `names` from `from` on that `ballot` does not
/// rank; the length of `names` where it ranks them all.
pub open spec fn first_unranked(names: Seq<Seq<char>>, ballot: Map<Seq<char>, usize>, from: int) -> int
    decreases names.len() - from,
{
    if from < 0 || from >= names.len() {
        names.len() as int
    } else if !ballot.contains_key(names[from]) {
        from
    } else {
        first_unranked(names, ballot, from + 1)
    }
}

/// The rank that a step records: the rank picked, 0 for a skip, and none
/// where the action is neither.
pub open spec fn rank_given(ty: VoteActionType, picked: Option<usize>) -> Option<usize> {
    match picked {
        Some(rank) => Some(rank),
        None => if ty == VoteActionType::SkipVote {
            Some(0usize)
        } else {
            None
        },
    }
}

/// `after` is `before` with the ballot of `user` in election `id` removed.
pub open spec fn ballot_removed(
    before: Map<usize, Election>,
    after: Map<usize, Election>,
    id: usize,
    user: u64,
) -> bool {
    &&& after.dom() == before.dom()
    &&& forall|other: usize|
        other != id && #[trigger] before.contains_key(other) ==> after[other] == before[other]
    &&& after[id].same_setup(before[id])
    &&& after[id].ballot_map() == before[id].ballot_map().remove(user)
}

/// `after` is `before` with `ballot` as the ballot of `user` in election
/// `id`.
pub open spec fn ballot_cast(
    before: Map<usize, Election>,
    after: Map<usize, Election>,
    id: usize,
    user: u64,
    ballot: Map<Seq<char>, usize>,
) -> bool {
    &&& after.dom() == before.dom()
    &&& forall|other: usize|
        other != id && #[trigger] before.contains_key(other) ==> after[other] == before[other]
    &&& after[id].same_setup(before[id])
    &&& after[id].ballot_map() == before[id].ballot_map().insert(user, ballot)
}

/// `prompt` asks to rank the candidate at index `index` of `election`, in
/// session `vote`.
pub open spec fn asks_for(prompt: VotePrompt, vote: VoteId, election: Election, index: int) -> bool {
    prompt matches VotePrompt::Rank { vote_id, name, region } && vote_id == vote && name@
        == election.candidate_names()[index] && region@ == election.candidate_map()[name@]
}

/// The first candidate of `election`, if it has one.
fn candidate_at(election: &Election, index: usize) -> (r: (Name, Region))
    requires
        election.wf(),
        index < election.candidate_names().len(),
    ensures
        r.0@ == election.candidate_names()[index as int],
        election.candidate_map().contains_key(r.0@),
        r.1@ == election.candidate_map()[r.0@],
{
    let candidates = election.candidates();
    proof {
        candidates.lemma_entry(index as int);
    }
    (candidates.name_at(index).clone(), candidates.value_at(index).clone())
}

/// The index of the first candidate of `election` from `from` on that
/// `ballot` does not rank.
fn next_unranked(election: &Election, ballot: &crate::election::Ballot, from: usize) -> (r: usize)
    requires
        election.wf(),
        ballot.wf(),
        from <= election.candidate_names().len(),
    ensures
        r == first_unranked(election.candidate_names(), ballot@, from as int),
        from <= r <= election.candidate_names().len(),
{
    let candidates = election.candidates();
    let mut i: usize = from;
    while i < candidates.len()
        invariant
            from <= i <= candidates.names().len(),
            candidates.names() == election.candidate_names(),
            ballot.wf(),
            first_unranked(election.candidate_names(), ballot@, from as int) == first_unranked(
                election.candidate_names(),
                ballot@,
                i as int,
            ),
        decreases candidates.names().len() - i,
    {
        if ballot.rank(candidates.name_at(i)).is_none() {
            return i;
        }
        i += 1;
    }
    i
}

/// Starts or restarts the ranking for `user`.
///
/// An `InitiateVote` on an election starts a session (also where the
/// election then proves to be missing); a `ConfirmInitiateVote` on a session
/// continues it.  Where the voter has a ballot in the election and has not
/// confirmed, they are asked to confirm and nothing else changes.
/// Otherwise their ballot in the election is dropped and they are asked to
/// rank the first candidate.
pub fn initiate_vote(
    guild: &mut V2Elections,
    action: Action,
    user: u64,
    token: String,
    election_message: u64,
    now: i64,
) -> (r: Result<VotePrompt, VoteError>)
    requires
        old(guild).wf(),
        action is Election ==> old(guild).votes.next_id() < usize::MAX,
    ensures
        final(guild).wf(),
        final(guild).elections.next_id() == old(guild).elections.next_id(),
        match action {
            Action::Election(ElectionAction { election_id, ty: ElectionActionType::InitiateVote }) => {
                let vote = VoteId(old(guild).votes.next_id());
                let elections = old(guild).elections.elections();
                &&& final(guild).votes.next_id() == old(guild).votes.next_id() + 1
                &&& !old(guild).votes.sessions().contains_key(vote.0)
                &&& final(guild).votes.sessions().contains_key(vote.0)
                &&& final(guild).votes.sessions()[vote.0].is_fresh(
                    election_id,
                    user,
                    token@,
                    election_message,
                    now,
                )
                &&& final(guild).votes.sessions().remove(vote.0) == old(guild).votes.sessions()
                &&& final(guild).elections.elections() == elections
                &&& if !elections.contains_key(election_id.0) {
                    r == Err::<VotePrompt, VoteError>(VoteError::ElectionNotFound)
                } else if elections[election_id.0].ballot_map().contains_key(user) {
                    r matches Ok(VotePrompt::Confirm { vote_id }) && vote_id == vote
                } else if elections[election_id.0].candidate_names().len() == 0 {
                    r == Err::<VotePrompt, VoteError>(VoteError::NoCandidates)
                } else {
                    r matches Ok(prompt) && asks_for(prompt, vote, elections[election_id.0], 0)
                }
            },
            Action::Vote(VoteAction { vote_id, ty: VoteActionType::ConfirmInitiateVote }) => {
                let elections = old(guild).elections.elections();
                &&& final(guild).votes.next_id() == old(guild).votes.next_id()
                &&& final(guild).votes.sessions() == old(guild).votes.sessions()
                &&& match resolved(Target::Vote(vote_id), elections, old(guild).votes.sessions()) {
                    Err(e) => r == Err::<VotePrompt, VoteError>(vote_error(e)) && final(guild).elections.elections() == elections,
                    Ok(id) => {
                        &&& ballot_removed(elections, final(guild).elections.elections(), id, user)
                        &&& if elections[id].candidate_names().len() == 0 {
                            r == Err::<VotePrompt, VoteError>(VoteError::NoCandidates)
                        } else {
                            r matches Ok(prompt) && asks_for(prompt, vote_id, elections[id], 0)
                        }
                    },
                }
            },
            _ => r == Err::<VotePrompt, VoteError>(VoteError::InvalidAction) && final(guild).elections.elections() == old(guild).elections.elections() && final(guild).votes.sessions() == old(guild).votes.sessions() && final(guild).votes.next_id()
                == old(guild).votes.next_id(),
        },
{
    let (vote_id, confirmed) = match action {
        Action::Election(ElectionAction { election_id, ty: ElectionActionType::InitiateVote }) => (
            guild.votes.start_at(election_id, user, token, election_message, now),
            false,
        ),
        Action::Vote(VoteAction { vote_id, ty: VoteActionType::ConfirmInitiateVote }) => (
            vote_id,
            true,
        ),
        _ => {
            return Err(VoteError::InvalidAction);
        },
    };
    let election_id = match guild.elections.resolve(&action, &guild.votes) {
        Ok(id) => id,
        Err(e) => {
            return Err(from_store(e));
        },
    };
    let ghost elections = old(guild).elections.elections();
    assert(elections.contains_key(election_id.0));
    let has_ballot = match guild.elections.get(election_id, &guild.votes) {
        Ok(election) => election.has_ballot(user),
        Err(e) => {
            return Err(from_store(e));
        },
    };
    if has_ballot && !confirmed {
        return Ok(VotePrompt::Confirm { vote_id });
    }
    if has_ballot {
        match guild.elections.remove_ballot(election_id, user) {
            Ok(_) => {},
            Err(e) => {
                return Err(from_store(e));
            },
        }
    } else if confirmed {
        proof {
            assert(elections[election_id.0].ballot_map().remove(user)
                =~= elections[election_id.0].ballot_map());
        }
    }
    match guild.elections.get(election_id, &guild.votes) {
        Ok(election) => {
            if election.candidates().len() == 0 {
                Err(VoteError::NoCandidates)
            } else {
                let (name, region) = candidate_at(election, 0);
                Ok(VotePrompt::Rank { vote_id, name, region })
            }
        },
        Err(e) => Err(from_store(e)),
    }
}

/// The ballot of a session after a step that found the first unranked
/// candidate at `first`.
pub open spec fn recorded(
    names: Seq<Seq<char>>,
    partial: Map<Seq<char>, usize>,
    first: int,
    given: Option<usize>,
) -> Map<Seq<char>, usize> {
    match given {
        Some(rank) => if first < names.len() {
            partial.insert(names[first], rank)
        } else {
            partial
        },
        None => partial,
    }
}

/// Whether a step with this pick is refused for its rank: a picked rank
/// must lie between 1 and the highest rank.
pub open spec fn rank_refused(picked: Option<usize>) -> bool {
    picked matches Some(rank) && !(1 <= rank <= MAX_RANK)
}

/// Takes one step in session `action.vote_id`: records the rank given for
/// the first candidate, in canonical order, that the partial ballot does
/// not rank yet, and asks for the next such candidate.  Where none is left,
/// the partial ballot becomes the voter's ballot in the election, in place
/// of any they had, and the session ends.
pub fn select_vote(guild: &mut V2Elections, action: VoteAction, picked: Option<usize>) -> (r: Result<
    VoteStep,
    VoteError,
>)
    requires
        old(guild).wf(),
    ensures
        final(guild).wf(),
        final(guild).elections.next_id() == old(guild).elections.next_id(),
        final(guild).votes.next_id() == old(guild).votes.next_id(),
        ({
            let vote = action.vote_id.0;
            let sessions = old(guild).votes.sessions();
            let elections = old(guild).elections.elections();
            match resolved(Target::Vote(action.vote_id), elections, sessions) {
                Err(e) => {
                    &&& r matches Err(error) && error == vote_error(e)
                    &&& final(guild).votes.sessions() == sessions
                    &&& final(guild).elections.elections() == elections
                },
                Ok(id) => {
                    let session = sessions[vote];
                    let names = elections[id].candidate_names();
                    let first = first_unranked(names, session.partial_ballot@, 0);
                    let given = rank_given(action.ty, picked);
                    let ballot = recorded(names, session.partial_ballot@, first, given);
                    let next = first_unranked(names, ballot, first + 1);
                    if first < names.len() && rank_refused(picked) {
                        &&& r matches Err(error) && error == VoteError::InvalidRank
                        &&& final(guild).votes.sessions() == sessions
                        &&& final(guild).elections.elections() == elections
                    } else if next < names.len() {
                        &&& r matches Ok(VoteStep::Next { name, region }) && name@ == names[next]
                            && region@ == elections[id].candidate_map()[name@]
                        &&& final(guild).elections.elections() == elections
                        &&& final(guild).votes.sessions().contains_key(vote)
                        &&& final(guild).votes.sessions().remove(vote) == sessions.remove(vote)
                        &&& final(guild).votes.sessions()[vote].is_same_session(session)
                        &&& final(guild).votes.sessions()[vote].partial_ballot@ == ballot
                    } else {
                        &&& r matches Ok(VoteStep::Complete { session: ended })
                            && ended.is_same_session(session)
                        &&& final(guild).votes.sessions() == sessions.remove(vote)
                        &&& ballot_cast(
                            elections,
                            final(guild).elections.elections(),
                            id,
                            session.user,
                            ballot,
                        )
                    }
                },
            }
        }),
{
    let vote = action.vote_id;
    let ghost sessions = old(guild).votes.sessions();
    let ghost elections = old(guild).elections.elections();
    let election_id = match guild.elections.resolve(&action, &guild.votes) {
        Ok(id) => id,
        Err(e) => {
            return Err(from_store(e));
        },
    };
    assert(elections.contains_key(election_id.0) && sessions.contains_key(vote.0));
    let ghost names = elections[election_id.0].candidate_names();
    let ghost partial = sessions[vote.0].partial_ballot@;
    let given: Option<usize> = match picked {
        Some(rank) => Some(rank),
        None => if action.ty == VoteActionType::SkipVote {
            Some(0)
        } else {
            None
        },
    };
    let (first, count, named) = match guild.elections.get(election_id, &guild.votes) {
        Ok(election) => match guild.votes.get(vote) {
            Ok(session) => {
                let count = election.candidates().len();
                let first = next_unranked(election, &session.partial_ballot, 0);
                let named = if first < count {
                    Some(candidate_at(election, first).0)
                } else {
                    None
                };
                (first, count, named)
            },
            Err(e) => {
                return Err(from_store(e));
            },
        },
        Err(e) => {
            return Err(from_store(e));
        },
    };
    match named {
        Some(name) => {
            match picked {
                Some(rank) => {
                    if rank < 1 || rank > MAX_RANK {
                        return Err(VoteError::InvalidRank);
                    }
                },
                None => {},
            }
            match given {
                Some(rank) => {
                    match guild.votes.record(vote, name, rank) {
                        Ok(()) => {},
                        Err(e) => {
                            return Err(from_store(e));
                        },
                    }
                },
                None => {},
            }
        },
        None => {
            assert(guild.votes.sessions() == sessions);
        },
    }
    let ghost ballot = recorded(names, partial, first as int, given);
    assert(guild.votes.sessions().contains_key(vote.0));
    assert(guild.votes.sessions()[vote.0].partial_ballot@ == ballot);
    assert(guild.votes.sessions()[vote.0].election == sessions[vote.0].election);
    let step = match guild.elections.get(election_id, &guild.votes) {
        Ok(election) => match guild.votes.get(vote) {
            Ok(session) => {
                let next = if first < count {
                    next_unranked(election, &session.partial_ballot, first + 1)
                } else {
                    count
                };
                if next < count {
                    let (name, region) = candidate_at(election, next);
                    Some((name, region))
                } else {
                    None
                }
            },
            Err(e) => {
                return Err(from_store(e));
            },
        },
        Err(e) => {
            return Err(from_store(e));
        },
    };
    match step {
        Some((name, region)) => {
            proof {
                if named is None || given is None {
                    assert(guild.votes.sessions().remove(vote.0) == sessions.remove(vote.0));
                }
            }
            Ok(VoteStep::Next { name, region })
        },
        None => {
            let ghost held = guild.votes.sessions();
            match guild.votes.save_ballot(vote, &mut guild.elections) {
                Ok(()) => {},
                Err(e) => {
                    return Err(from_store(e));
                },
            }
            match guild.votes.remove(vote) {
                Some(session) => {
                    proof {
                        assert(guild.votes.sessions() =~= sessions.remove(vote.0));
                    }
                    Ok(VoteStep::Complete { session })
                },
                None => Err(VoteError::SessionExpired),
            }
        },
    }
}

/// Ends session `action.vote_id`.  A `VoidBallot` also removes the ballot
/// that `user` has in the session's election; any other kind leaves the
/// election as it is.  Returns the session as it was.
pub fn stop_vote(guild: &mut V2Elections, action: VoteAction, user: u64) -> (r: Result<
    VoteInProgress,
    VoteError,
>)
    requires
        old(guild).wf(),
    ensures
        final(guild).wf(),
        final(guild).elections.next_id() == old(guild).elections.next_id(),
        final(guild).votes.next_id() == old(guild).votes.next_id(),
        ({
            let vote = action.vote_id.0;
            let sessions = old(guild).votes.sessions();
            let elections = old(guild).elections.elections();
            match resolved(Target::Vote(action.vote_id), elections, sessions) {
                Err(e) => {
                    &&& r matches Err(error) && error == vote_error(e)
                    &&& final(guild).votes.sessions() == sessions
                    &&& final(guild).elections.elections() == elections
                },
                Ok(id) => {
                    &&& r matches Ok(ended) && ended == sessions[vote]
                    &&& final(guild).votes.sessions() == sessions.remove(vote)
                    &&& if action.ty == VoteActionType::VoidBallot {
                        ballot_removed(elections, final(guild).elections.elections(), id, user)
                    } else {
                        final(guild).elections.elections() == elections
                    }
                },
            }
        }),
{
    let election_id = match guild.elections.resolve(&action, &guild.votes) {
        Ok(id) => id,
        Err(e) => {
            return Err(from_store(e));
        },
    };
    if action.ty == VoteActionType::VoidBallot {
        match guild.elections.remove_ballot(election_id, user) {
            Ok(_) => {},
            Err(e) => {
                return Err(from_store(e));
            },
        }
    }
    match guild.votes.remove(action.vote_id) {
        Some(session) => Ok(session),
        None => Err(VoteError::SessionExpired),
    }
}

/// What `user` gets to see of the result of election `action.election_id`:
/// the owner sees the winners of a tally, or that the offices could not be
/// filled; everyone else is denied.  Which of the candidates with equal
/// scores comes first is left to chance, so the contract speaks of some
/// tally of the ballots.
pub fn get_result(guild: &V2Elections, action: ElectionAction, user: u64) -> (r: Result<
    ResultView,
    VoteError,
>)
    requires
        guild.wf(),
    ensures
        ({
            let elections = guild.elections.elections();
            let id = action.election_id.0;
            if !elections.contains_key(id) {
                r matches Err(error) && error == VoteError::ElectionNotFound
            } else if elections[id].owner_id() != user {
                r matches Ok(ResultView::Denied)
            } else {
                exists|results: Seq<(u128, Seq<char>)>|
                    {
                        &&& is_tally_of(elections[id].ballot_map(), results)
                        &&& ascending_scores(results)
                        &&& #[trigger] shows(elections[id], results, r)
                    }
            }
        }),
{
    let election = match guild.elections.get(action, &guild.votes) {
        Ok(election) => election,
        Err(e) => {
            return Err(from_store(e));
        },
    };
    assert(guild.elections.elections().contains_key(action.election_id.0));
    if *election.owner() != user {
        return Ok(ResultView::Denied);
    }
    let winners = election.run();
    let ghost results = choose|results: Seq<(u128, Seq<char>)>|
        {
            &&& is_tally_of(election.ballot_map(), results)
            &&& ascending_scores(results)
            &&& #[trigger] election.is_outcome(results, winners)
        };
    let view = match winners {
        Some(list) => Ok(ResultView::Elected(list)),
        None => Ok(ResultView::Infeasible),
    };
    assert(shows(*election, results, view));
    view
}

/// `r` shows what the walk of `election` over `results` comes to.
pub open spec fn shows(
    election: Election,
    results: Seq<(u128, Seq<char>)>,
    r: Result<ResultView, VoteError>,
) -> bool {
    match r {
        Ok(ResultView::Elected(winners)) => election.is_outcome(results, Some(winners)),
        Ok(ResultView::Infeasible) => election.is_outcome(results, None),
        _ => false,
    }
}

/// The step that handles an action.
#[derive(Debug, Copy, Clone, PartialEq, Eq, Structural)]
pub enum Route {
    /// `initiate_vote`.
    InitiateVote,
    /// `select_vote`.
    SelectVote,
    /// `stop_vote`.
    StopVote,
    /// `get_result`.
    GetResult,
}

impl Route {
    /// The step that handles `action`.
    pub open spec fn of(action: Action) -> Route {
        match action {
            Action::Election(a) => match a.ty {
                ElectionActionType::InitiateVote => Route::InitiateVote,
                ElectionActionType::GetResult => Route::GetResult,
            },
            Action::Vote(a) => match a.ty {
                VoteActionType::ConfirmInitiateVote => Route::InitiateVote,
                VoteActionType::SelectVote | VoteActionType::SkipVote => Route::SelectVote,
                VoteActionType::CancelVote | VoteActionType::VoidBallot => Route::StopVote,
            },
        }
    }

    /// The step that handles `action`.
    pub fn route(action: Action) -> (r: Route)
        ensures
            r == Route::of(action),
    {
        match action {
            Action::Vote(vote_action) => match vote_action.ty {
                VoteActionType::ConfirmInitiateVote => Route::InitiateVote,
                VoteActionType::SelectVote | VoteActionType::SkipVote => Route::SelectVote,
                VoteActionType::CancelVote | VoteActionType::VoidBallot => Route::StopVote,
            },
            Action::Election(election_action) => match election_action.ty {
                ElectionActionType::InitiateVote => Route::InitiateVote,
                ElectionActionType::GetResult => Route::GetResult,
            },
        }
    }

    /// Whether the step changes the data, so that it must run under the
    /// write lock and be followed by a write of the data file.  Only the
    /// query for a result does not.
    pub fn writes(self) -> (w: bool)
        ensures
            w == (self != Route::GetResult),
    {
        match self {
            Route::GetResult => false,
            _ => true,
        }
    }
}

/// The step that handles the action whose token `token` is; none for a
/// token of no action, which is to be ignored.
pub fn route_token(token: &str) -> (r: Option<(Action, Route)>)
    ensures
        match r {
            Some((action, route)) => action.token() == token@ && route == Route::of(action),
            None => forall|a: Action| #[trigger] a.token() != token@,
        },
{
    match Action::decode(token) {
        Ok(action) => Some((action, Route::route(action))),
        Err(_) => None,
    }
}

/// What the text of a picked rank stands for.
pub open spec fn rank_of_text(text: Seq<char>) -> Option<usize> {
    if text.len() >= 1 && all_digits(text) && 1 <= digits_value(text) <= MAX_RANK {
        Some(digits_value(text) as usize)
    } else {
        None
    }
}

/// The rank that `text` picks: a number in base ten between 1 and the
/// highest rank.
pub fn parse_rank(text: &str) -> (r: Result<usize, VoteError>)
    ensures
        match r {
            Ok(rank) => rank_of_text(text@) == Some(rank),
            Err(e) => e == VoteError::InvalidRank && rank_of_text(text@) is None,
        },
{
    let chars = chars_of(text);
    if chars.len() == 0 {
        return Err(VoteError::InvalidRank);
    }
    let mut i: usize = 0;
    while i < chars.len()
        invariant
            i <= chars.len(),
            chars@ == text@,
            forall|k: int| 0 <= k < i ==> digit_of(#[trigger] chars@[k]) is Some,
        decreases chars.len() - i,
    {
        if digit_value(chars[i]).is_none() {
            return Err(VoteError::InvalidRank);
        }
        i += 1;
    }
    assert(chars@.subrange(0, chars@.len() as int) =~= chars@);
    match read_digits(&chars, 0, chars.len()) {
        Some(rank) => {
            if 1 <= rank && rank <= MAX_RANK {
                Ok(rank)
            } else {
                Err(VoteError::InvalidRank)
            }
        },
        None => Err(VoteError::InvalidRank),
    }
}

} // verus!
