use std::collections::HashMap;

use tea_house_election::actions::{
    Action, ElectionAction, ElectionActionType, ElectionId, VoteAction, VoteActionType, VoteId,
};
use tea_house_election::data::{GlobalData, Migrate};
use tea_house_election::election::{Election, Name, Region};
use tea_house_election::guild::{Elections, V1Elections, V2Elections};
use tea_house_election::session::{
    get_result, initiate_vote, parse_rank, select_vote, stop_vote, ResultView, VoteError,
    VotePrompt, VoteStep,
};
use tea_house_election::store::{ElectionMap, StoreError, VoteInProgress, VoteMap};

const OWNER: u64 = 1;
const VOTER: u64 = 42;

fn guild_with_election(candidates: &[(&str, &str)]) -> (V2Elections, ElectionId) {
    let mut guild = V2Elections::new();
    let mut election = Election::new(OWNER, 2);
    assert!(election.reserve_office(Region::from("EMEA")));
    for (name, region) in candidates {
        election.add_candidate(Name::from(*name), Region::from(*region));
    }
    let id = guild.elections.insert(election);
    (guild, id)
}

fn start(id: ElectionId) -> Action {
    Action::Election(ElectionAction { election_id: id, ty: ElectionActionType::InitiateVote })
}

fn on_vote(id: VoteId, ty: VoteActionType) -> VoteAction {
    VoteAction { vote_id: id, ty }
}

fn expect_rank(prompt: VotePrompt, expected: (&str, &str)) -> VoteId {
    match prompt {
        VotePrompt::Rank { vote_id, name, region } => {
            assert_eq!(name, Name::from(expected.0));
            assert_eq!(region, Region::from(expected.1));
            vote_id
        }
        other => panic!("expected a candidate to rank, got {other:?}"),
    }
}

fn expect_next(step: VoteStep, expected: (&str, &str)) {
    match step {
        VoteStep::Next { name, region } => {
            assert_eq!(name, Name::from(expected.0));
            assert_eq!(region, Region::from(expected.1));
        }
        other => panic!("expected another candidate, got {other:?}"),
    }
}

fn ballot_of(guild: &V2Elections, id: ElectionId, user: u64) -> Option<Vec<(String, usize)>> {
    let election = guild.elections.get(id, &guild.votes).unwrap();
    election.ballot(user).map(|b| {
        let votes = b.votes();
        (0..votes.len()).map(|i| (votes.name_at(i).to_string(), *votes.value_at(i))).collect()
    })
}

#[test]
fn a_first_vote_goes_straight_to_the_first_candidate() {
    let (mut guild, id) = guild_with_election(&[("bob", "AMER"), ("ann", "EMEA"), ("cy", "EMEA")]);
    let prompt = initiate_vote(&mut guild, start(id), VOTER, "tok".to_string(), 77, 1000).unwrap();
    let vote = expect_rank(prompt, ("ann", "EMEA"));
    assert_eq!(vote, VoteId(0));
    let session = guild.votes.get(vote).unwrap();
    assert_eq!(session.user, VOTER);
    assert_eq!(session.token, "tok");
    assert_eq!(session.election, id);
    assert_eq!(session.election_message, 77);
    assert_eq!(session.expires_at, 1000 + 3600);
    assert!(session.partial_ballot.votes().is_empty());
}

#[test]
fn ranking_advances_one_candidate_per_step_and_ends_with_the_ballot_cast() {
    let (mut guild, id) = guild_with_election(&[("bob", "AMER"), ("ann", "EMEA"), ("cy", "EMEA")]);
    let prompt = initiate_vote(&mut guild, start(id), VOTER, "tok".to_string(), 77, 1000).unwrap();
    let vote = expect_rank(prompt, ("ann", "EMEA"));

    let step = select_vote(&mut guild, on_vote(vote, VoteActionType::SelectVote), Some(5)).unwrap();
    expect_next(step, ("bob", "AMER"));
    assert_eq!(ballot_of(&guild, id, VOTER), None);

    let step = select_vote(&mut guild, on_vote(vote, VoteActionType::SkipVote), None).unwrap();
    expect_next(step, ("cy", "EMEA"));

    let step = select_vote(&mut guild, on_vote(vote, VoteActionType::SelectVote), Some(1)).unwrap();
    match step {
        VoteStep::Complete { session } => {
            assert_eq!(session.user, VOTER);
            assert_eq!(session.token, "tok");
            assert_eq!(session.election, id);
            assert_eq!(session.election_message, 77);
        }
        other => panic!("expected the end, got {other:?}"),
    }
    assert_eq!(
        ballot_of(&guild, id, VOTER),
        Some(vec![("ann".to_string(), 5), ("bob".to_string(), 0), ("cy".to_string(), 1)])
    );
    assert_eq!(guild.votes.len(), 0);
    assert_eq!(guild.votes.get(vote).err(), Some(StoreError::SessionExpired));
    assert_eq!(
        select_vote(&mut guild, on_vote(vote, VoteActionType::SkipVote), None).err(),
        Some(VoteError::SessionExpired)
    );
}

#[test]
fn a_voter_with_a_ballot_is_asked_to_confirm_and_cancel_keeps_the_ballot() {
    let (mut guild, id) = guild_with_election(&[("ann", "EMEA"), ("bob", "AMER")]);
    let vote = expect_rank(
        initiate_vote(&mut guild, start(id), VOTER, "t1".to_string(), 7, 0).unwrap(),
        ("ann", "EMEA"),
    );
    select_vote(&mut guild, on_vote(vote, VoteActionType::SelectVote), Some(4)).unwrap();
    select_vote(&mut guild, on_vote(vote, VoteActionType::SelectVote), Some(2)).unwrap();
    let cast = Some(vec![("ann".to_string(), 4), ("bob".to_string(), 2)]);
    assert_eq!(ballot_of(&guild, id, VOTER), cast);

    let prompt = initiate_vote(&mut guild, start(id), VOTER, "t2".to_string(), 7, 10).unwrap();
    let again = match prompt {
        VotePrompt::Confirm { vote_id } => vote_id,
        other => panic!("expected a confirmation, got {other:?}"),
    };
    assert_eq!(again, VoteId(1));
    assert_eq!(ballot_of(&guild, id, VOTER), cast);

    let ended = stop_vote(&mut guild, on_vote(again, VoteActionType::CancelVote), VOTER).unwrap();
    assert_eq!(ended.token, "t2");
    assert_eq!(ballot_of(&guild, id, VOTER), cast);
    assert_eq!(guild.votes.len(), 0);
}

#[test]
fn confirming_discards_the_old_ballot_and_starts_ranking() {
    let (mut guild, id) = guild_with_election(&[("ann", "EMEA"), ("bob", "AMER")]);
    let vote = expect_rank(
        initiate_vote(&mut guild, start(id), VOTER, "t1".to_string(), 7, 0).unwrap(),
        ("ann", "EMEA"),
    );
    select_vote(&mut guild, on_vote(vote, VoteActionType::SelectVote), Some(4)).unwrap();
    select_vote(&mut guild, on_vote(vote, VoteActionType::SelectVote), Some(2)).unwrap();

    let prompt = initiate_vote(&mut guild, start(id), VOTER, "t2".to_string(), 7, 10).unwrap();
    let again = match prompt {
        VotePrompt::Confirm { vote_id } => vote_id,
        other => panic!("expected a confirmation, got {other:?}"),
    };
    let confirm = Action::Vote(on_vote(again, VoteActionType::ConfirmInitiateVote));
    let prompt = initiate_vote(&mut guild, confirm, VOTER, String::new(), 0, 20).unwrap();
    assert_eq!(expect_rank(prompt, ("ann", "EMEA")), again);
    assert_eq!(ballot_of(&guild, id, VOTER), None);
    assert_eq!(guild.votes.len(), 1);

    expect_next(
        select_vote(&mut guild, on_vote(again, VoteActionType::SelectVote), Some(1)).unwrap(),
        ("bob", "AMER"),
    );
    select_vote(&mut guild, on_vote(again, VoteActionType::SelectVote), Some(5)).unwrap();
    assert_eq!(
        ballot_of(&guild, id, VOTER),
        Some(vec![("ann".to_string(), 1), ("bob".to_string(), 5)])
    );
}

#[test]
fn voiding_removes_the_ballot_and_the_session() {
    let (mut guild, id) = guild_with_election(&[("ann", "EMEA")]);
    let vote = expect_rank(
        initiate_vote(&mut guild, start(id), VOTER, "t".to_string(), 7, 0).unwrap(),
        ("ann", "EMEA"),
    );
    select_vote(&mut guild, on_vote(vote, VoteActionType::SelectVote), Some(3)).unwrap();
    assert!(ballot_of(&guild, id, VOTER).is_some());

    let prompt = initiate_vote(&mut guild, start(id), VOTER, "t".to_string(), 7, 0).unwrap();
    let again = match prompt {
        VotePrompt::Confirm { vote_id } => vote_id,
        other => panic!("expected a confirmation, got {other:?}"),
    };
    stop_vote(&mut guild, on_vote(again, VoteActionType::VoidBallot), VOTER).unwrap();
    assert_eq!(ballot_of(&guild, id, VOTER), None);
    assert_eq!(guild.votes.len(), 0);
    assert_eq!(
        stop_vote(&mut guild, on_vote(again, VoteActionType::VoidBallot), VOTER).err(),
        Some(VoteError::SessionExpired)
    );
}

#[test]
fn ranks_outside_the_menu_are_refused() {
    let (mut guild, id) = guild_with_election(&[("ann", "EMEA")]);
    let vote = expect_rank(
        initiate_vote(&mut guild, start(id), VOTER, "t".to_string(), 7, 0).unwrap(),
        ("ann", "EMEA"),
    );
    for rank in [0usize, 6, 100] {
        assert_eq!(
            select_vote(&mut guild, on_vote(vote, VoteActionType::SelectVote), Some(rank)).err(),
            Some(VoteError::InvalidRank)
        );
        assert!(guild.votes.get(vote).unwrap().partial_ballot.votes().is_empty());
    }
    assert!(select_vote(&mut guild, on_vote(vote, VoteActionType::SelectVote), Some(5)).is_ok());
}

#[test]
fn missing_elections_and_sessions_are_told_apart() {
    let (mut guild, id) = guild_with_election(&[("ann", "EMEA")]);
    let missing = ElectionId(id.0 + 5);
    assert_eq!(
        initiate_vote(&mut guild, start(missing), VOTER, "t".to_string(), 7, 0).err(),
        Some(VoteError::ElectionNotFound)
    );
    // the session was started all the same
    assert_eq!(guild.votes.len(), 1);
    assert_eq!(
        select_vote(&mut guild, on_vote(VoteId(0), VoteActionType::SkipVote), None).err(),
        Some(VoteError::ElectionNotFound)
    );
    assert_eq!(
        select_vote(&mut guild, on_vote(VoteId(9), VoteActionType::SkipVote), None).err(),
        Some(VoteError::SessionExpired)
    );
    let confirm = Action::Vote(on_vote(VoteId(9), VoteActionType::ConfirmInitiateVote));
    assert_eq!(
        initiate_vote(&mut guild, confirm, VOTER, String::new(), 0, 0).err(),
        Some(VoteError::SessionExpired)
    );
    let wrong = Action::Vote(on_vote(VoteId(0), VoteActionType::SkipVote));
    assert_eq!(
        initiate_vote(&mut guild, wrong, VOTER, String::new(), 0, 0).err(),
        Some(VoteError::InvalidAction)
    );
    let wrong = Action::Election(ElectionAction {
        election_id: id,
        ty: ElectionActionType::GetResult,
    });
    assert_eq!(
        initiate_vote(&mut guild, wrong, VOTER, String::new(), 0, 0).err(),
        Some(VoteError::InvalidAction)
    );
}

#[test]
fn an_election_without_candidates_cannot_be_voted_in() {
    let (mut guild, id) = guild_with_election(&[]);
    assert_eq!(
        initiate_vote(&mut guild, start(id), VOTER, "t".to_string(), 7, 0).err(),
        Some(VoteError::NoCandidates)
    );
}

#[test]
fn results_are_for_the_owner_only() {
    let (mut guild, id) = guild_with_election(&[("ann", "EMEA"), ("bob", "AMER"), ("cy", "AMER")]);
    for (voter, ranks) in [(10u64, [5usize, 1, 3]), (11, [4, 2, 3])] {
        let vote = expect_rank(
            initiate_vote(&mut guild, start(id), voter, "t".to_string(), 7, 0).unwrap(),
            ("ann", "EMEA"),
        );
        for rank in ranks {
            select_vote(&mut guild, on_vote(vote, VoteActionType::SelectVote), Some(rank)).unwrap();
        }
    }
    let ask = ElectionAction { election_id: id, ty: ElectionActionType::GetResult };
    assert!(matches!(get_result(&guild, ask, VOTER), Ok(ResultView::Denied)));
    match get_result(&guild, ask, OWNER) {
        Ok(ResultView::Elected(winners)) => {
            assert_eq!(winners, vec![Name::from("ann"), Name::from("cy")]);
        }
        other => panic!("expected winners, got {other:?}"),
    }
    let gone = ElectionAction { election_id: ElectionId(99), ty: ElectionActionType::GetResult };
    assert_eq!(get_result(&guild, gone, OWNER).err(), Some(VoteError::ElectionNotFound));
}

#[test]
fn too_few_candidates_is_a_result_not_an_error() {
    let (mut guild, id) = guild_with_election(&[("bob", "AMER")]);
    let vote = expect_rank(
        initiate_vote(&mut guild, start(id), VOTER, "t".to_string(), 7, 0).unwrap(),
        ("bob", "AMER"),
    );
    select_vote(&mut guild, on_vote(vote, VoteActionType::SelectVote), Some(3)).unwrap();
    let ask = ElectionAction { election_id: id, ty: ElectionActionType::GetResult };
    assert!(matches!(get_result(&guild, ask, OWNER), Ok(ResultView::Infeasible)));
}

#[test]
fn a_sweep_drops_what_has_expired_and_nothing_else() {
    let mut votes = VoteMap::new();
    let a = votes.start_at(ElectionId(0), 1, "a".to_string(), 0, 100);
    let b = votes.start_at(ElectionId(0), 2, "b".to_string(), 0, 200);
    let c = votes.start_at(ElectionId(0), 3, "c".to_string(), 0, 300);
    assert_eq!((a, b, c), (VoteId(0), VoteId(1), VoteId(2)));
    votes.expire_at(3699);
    assert_eq!(votes.len(), 3);
    // a session is dropped at its expiry, not only after it
    votes.expire_at(3700);
    assert!(votes.get(a).is_err());
    assert!(votes.get(b).is_ok());
    votes.expire_at(3850);
    assert!(votes.get(b).is_err());
    assert_eq!(votes.get(c).unwrap().user, 3);
    assert_eq!(votes.next_vote_id(), VoteId(3));
    votes.expire_at(i64::MAX);
    assert_eq!(votes.len(), 0);
    // identifiers are not reused
    assert_eq!(votes.start_at(ElectionId(0), 4, "d".to_string(), 0, 0), VoteId(3));
}

#[test]
fn sessions_started_now_expire_in_an_hour() {
    let mut votes = VoteMap::new();
    let id = votes.start(ElectionId(3), 9, "tok".to_string(), 5);
    let expires_at = votes.get(id).unwrap().expires_at;
    // later than the day this was written, and not yet expired
    assert!(expires_at > 1_700_000_000);
    votes.expire();
    assert!(votes.get(id).is_ok());
    assert_eq!(votes.start_at(ElectionId(3), 9, "t".to_string(), 5, i64::MAX), VoteId(1));
    assert_eq!(votes.get(VoteId(1)).unwrap().expires_at, i64::MAX);
}

#[test]
fn the_store_records_and_saves_ballots() {
    let (mut guild, id) = guild_with_election(&[("ann", "EMEA")]);
    let vote = guild.votes.start_at(id, VOTER, "t".to_string(), 1, 0);
    assert_eq!(guild.votes.record(vote, Name::from("ann"), 2), Ok(()));
    assert_eq!(guild.votes.record(VoteId(9), Name::from("ann"), 2), Err(StoreError::SessionExpired));
    assert_eq!(guild.votes.save_ballot(vote, &mut guild.elections), Ok(()));
    assert_eq!(ballot_of(&guild, id, VOTER), Some(vec![("ann".to_string(), 2)]));
    assert!(guild.votes.get(vote).unwrap().partial_ballot.votes().is_empty());
    assert_eq!(
        guild.votes.save_ballot(VoteId(9), &mut guild.elections),
        Err(StoreError::SessionExpired)
    );
    let orphan = guild.votes.start_at(ElectionId(50), VOTER, "t".to_string(), 1, 0);
    assert_eq!(
        guild.votes.save_ballot(orphan, &mut guild.elections),
        Err(StoreError::ElectionNotFound)
    );
    assert_eq!(guild.elections.resolve(&vote, &guild.votes), Ok(id));
    assert_eq!(guild.elections.resolve(&orphan, &guild.votes), Err(StoreError::ElectionNotFound));
    assert_eq!(
        guild.elections.set_ballot(ElectionId(50), 1, Default::default()),
        Err(StoreError::ElectionNotFound)
    );
    assert!(guild.elections.remove_ballot(id, VOTER).unwrap().is_some());
    assert!(guild.elections.remove_ballot(id, VOTER).unwrap().is_none());
    let (user, ballot) = guild.votes.take_ballot(vote).unwrap();
    assert_eq!(user, VOTER);
    assert!(ballot.votes().is_empty());
    assert_eq!(guild.elections.ids(), vec![id.0]);
    let mut ids = guild.votes.ids();
    ids.sort();
    assert_eq!(ids, vec![vote.0, orphan.0]);
    assert_eq!(guild.elections.len(), 1);
    assert_eq!(guild.elections.next_election_id(), ElectionId(id.0 + 1));
}

fn session(election: usize, expires_at: i64) -> VoteInProgress {
    VoteInProgress {
        user: 5,
        token: "t".to_string(),
        election: ElectionId(election),
        election_message: 1,
        partial_ballot: Default::default(),
        expires_at,
    }
}

fn first_shape() -> V1Elections {
    let mut elections = HashMap::new();
    elections.insert(0, Election::new(OWNER, 1));
    elections.insert(3, Election::new(OWNER, 2));
    let mut votes = HashMap::new();
    votes.insert(6, session(3, 50));
    votes.insert(7, session(3, 500));
    V1Elections::restore(ElectionId(4), elections, VoteId(8), votes).unwrap()
}

#[test]
fn older_data_is_carried_over_as_it_is() {
    let mut data = Elections::V1(first_shape());
    assert!(data.try_latest().is_none());
    data.migrate();
    let v2 = data.try_latest().expect("the latest shape");
    assert_eq!(v2.elections.next_election_id(), ElectionId(4));
    assert_eq!(v2.votes.next_vote_id(), VoteId(8));
    let mut ids = v2.elections.ids();
    ids.sort();
    assert_eq!(ids, vec![0, 3]);
    assert_eq!(v2.elections.get(ElectionId(3), &v2.votes).unwrap().offices(), 2);
    assert_eq!(v2.votes.len(), 2);
    assert_eq!(v2.votes.get(VoteId(7)).unwrap().expires_at, 500);

    let v2 = Elections::V1(first_shape()).into_latest();
    assert_eq!(v2.votes.len(), 2);
    assert!(matches!(Elections::default(), Elections::V2(_)));
}

#[test]
fn access_brings_data_up_to_date_and_sweeps() {
    let mut data = Elections::V1(first_shape());
    data.latest_at(100);
    let v2 = data.try_latest().expect("the latest shape");
    assert_eq!(v2.votes.len(), 1);
    assert!(v2.votes.get(VoteId(6)).is_err());
    assert!(v2.votes.get(VoteId(7)).is_ok());
    assert_eq!(v2.elections.len(), 2);
    data.latest_at(500);
    assert_eq!(data.try_latest().unwrap().votes.len(), 0);
}

#[test]
fn identifiers_in_use_must_have_been_issued() {
    let mut elections = HashMap::new();
    elections.insert(4, Election::new(OWNER, 1));
    assert!(ElectionMap::restore(ElectionId(4), elections, ).is_none());
    let mut elections = HashMap::new();
    elections.insert(4, Election::new(OWNER, 1));
    let restored = ElectionMap::restore(ElectionId(5), elections).unwrap();
    let (next, map) = restored.into_parts();
    assert_eq!((next, map.len()), (ElectionId(5), 1));

    let mut votes = HashMap::new();
    votes.insert(2, session(0, 0));
    assert!(VoteMap::restore(VoteId(2), votes).is_none());
    let mut votes = HashMap::new();
    votes.insert(2, session(0, 0));
    let (next, map) = VoteMap::restore(VoteId(3), votes).unwrap().into_parts();
    assert_eq!((next, map.len()), (VoteId(3), 1));

    let mut votes = HashMap::new();
    votes.insert(2, session(0, 0));
    assert!(V1Elections::restore(ElectionId(0), HashMap::new(), VoteId(1), votes).is_none());
}

#[test]
fn the_dataset_keeps_guilds_apart() {
    let mut data: GlobalData<Elections> = GlobalData::new();
    assert!(data.guild(1).is_none());
    data.put_guild(2, Elections::V1(first_shape()));
    data.put_guild(1, Elections::default());
    assert_eq!(data.guild_ids(), vec![1, 2]);
    assert!(data.guild(2).unwrap().try_latest().is_none());
    data.migrate();
    assert_eq!(data.guild_ids(), vec![1, 2]);
    assert_eq!(data.guild(2).unwrap().try_latest().unwrap().elections.len(), 2);
    assert_eq!(data.guild(1).unwrap().try_latest().unwrap().elections.len(), 0);
    let guild = data.guild_mut(2).latest_at(100);
    assert_eq!(guild.votes.len(), 1);
    guild.votes.start_at(ElectionId(0), 5, "t".to_string(), 0, 100);
    assert_eq!(data.guild(2).unwrap().try_latest().unwrap().votes.len(), 2);
    // a guild that is asked for is made, empty and in the latest shape
    let fresh = data.guild_mut(9).latest();
    assert_eq!((fresh.elections.len(), fresh.votes.len()), (0, 0));
    fresh.elections.insert(Election::new(OWNER, 1));
    assert_eq!(data.guild_ids(), vec![1, 2, 9]);
    assert_eq!(data.guild(9).unwrap().try_latest().unwrap().elections.len(), 1);
}

#[test]
fn picked_ranks_are_read_from_their_text() {
    for (text, rank) in [("1", 1usize), ("2", 2), ("5", 5), ("03", 3)] {
        assert_eq!(parse_rank(text), Ok(rank));
    }
    for text in ["", "0", "6", "10", "-1", "+1", " 1", "1 ", "one", "99999999999999999999999", "٣"] {
        assert_eq!(parse_rank(text), Err(VoteError::InvalidRank), "{text:?}");
    }
}

#[test]
fn the_voters_of_an_election_are_listed() {
    let mut election = Election::new(OWNER, 1);
    assert!(election.voters().is_empty());
    election.vote(30, Name::from("a"), 1);
    election.vote(10, Name::from("a"), 2);
    election.vote(30, Name::from("b"), 3);
    let mut voters = election.voters();
    voters.sort();
    assert_eq!(voters, vec![10, 30]);
}
