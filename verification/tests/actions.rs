use tea_house_election::actions::{
    Action, ActionId, DecodeError, ElectionAction, ElectionActionType, ElectionId, Target,
    VoteAction, VoteActionType, VoteId,
};
use tea_house_election::session::{route_token, Route};

fn election(id: usize, ty: ElectionActionType) -> Action {
    Action::Election(ElectionAction { election_id: ElectionId(id), ty })
}

fn vote(id: usize, ty: VoteActionType) -> Action {
    Action::Vote(VoteAction { vote_id: VoteId(id), ty })
}

fn all_actions(id: usize) -> Vec<Action> {
    vec![
        election(id, ElectionActionType::InitiateVote),
        election(id, ElectionActionType::GetResult),
        vote(id, VoteActionType::ConfirmInitiateVote),
        vote(id, VoteActionType::SelectVote),
        vote(id, VoteActionType::SkipVote),
        vote(id, VoteActionType::CancelVote),
        vote(id, VoteActionType::VoidBallot),
    ]
}

#[test]
fn ids_are_issued_in_order() {
    let mut next = ElectionId(0);
    assert_eq!(next.next(), ElectionId(0));
    assert_eq!(next.next(), ElectionId(1));
    assert_eq!(next, ElectionId(2));
    let mut next = VoteId(41);
    assert_eq!(next.next(), VoteId(41));
    assert_eq!(next, VoteId(42));
}

#[test]
fn tokens_are_compact_json() {
    assert_eq!(
        election(0, ElectionActionType::InitiateVote).encode(),
        "{\"Election\":{\"election_id\":0,\"ty\":\"InitiateVote\"}}"
    );
    assert_eq!(
        election(17, ElectionActionType::GetResult).encode(),
        "{\"Election\":{\"election_id\":17,\"ty\":\"GetResult\"}}"
    );
    assert_eq!(
        vote(12345, VoteActionType::ConfirmInitiateVote).encode(),
        "{\"Vote\":{\"vote_id\":12345,\"ty\":\"ConfirmInitiateVote\"}}"
    );
    assert_eq!(
        vote(9, VoteActionType::SelectVote).encode(),
        "{\"Vote\":{\"vote_id\":9,\"ty\":\"SelectVote\"}}"
    );
    assert_eq!(
        vote(10, VoteActionType::SkipVote).encode(),
        "{\"Vote\":{\"vote_id\":10,\"ty\":\"SkipVote\"}}"
    );
    assert_eq!(
        vote(100, VoteActionType::CancelVote).encode(),
        "{\"Vote\":{\"vote_id\":100,\"ty\":\"CancelVote\"}}"
    );
    assert_eq!(
        vote(usize::MAX, VoteActionType::VoidBallot).encode(),
        format!("{{\"Vote\":{{\"vote_id\":{},\"ty\":\"VoidBallot\"}}}}", usize::MAX)
    );
}

#[test]
fn tokens_read_as_json_objects() {
    for action in all_actions(7024) {
        let value: serde_json::Value = serde_json::from_str(&action.encode()).unwrap();
        let object = value.as_object().unwrap();
        assert_eq!(object.len(), 1);
        let (tag, inner) = object.iter().next().unwrap();
        let inner = inner.as_object().unwrap();
        assert_eq!(inner.len(), 2);
        match action {
            Action::Election(a) => {
                assert_eq!(tag, "Election");
                assert_eq!(inner["election_id"].as_u64(), Some(7024));
                assert_eq!(inner["ty"].as_str(), Some(a.ty.name()));
            }
            Action::Vote(a) => {
                assert_eq!(tag, "Vote");
                assert_eq!(inner["vote_id"].as_u64(), Some(7024));
                assert_eq!(inner["ty"].as_str(), Some(a.ty.name()));
            }
        }
    }
}

#[test]
fn decode_gives_back_what_encode_took() {
    for id in [0usize, 1, 9, 10, 99, 100, 4711, usize::MAX - 1, usize::MAX] {
        for action in all_actions(id) {
            assert_eq!(Action::decode(&action.encode()), Ok(action));
        }
    }
}

#[test]
fn tokens_fit_a_custom_id() {
    for action in all_actions(usize::MAX) {
        assert!(action.encode().len() <= 100);
    }
}

#[test]
fn foreign_tokens_are_errors() {
    let malformed = [
        "",
        "{}",
        "vote",
        "{\"Election\":{\"election_id\":",
        "{\"Election\":{\"election_id\":,\"ty\":\"GetResult\"}}",
        "{\"Election\":{\"election_id\":01,\"ty\":\"GetResult\"}}",
        "{\"Election\":{\"election_id\":-1,\"ty\":\"GetResult\"}}",
        "{\"Election\":{\"election_id\":+1,\"ty\":\"GetResult\"}}",
        "{\"Election\":{\"election_id\":1,\"ty\":\"GetResult\"}} ",
        " {\"Election\":{\"election_id\":1,\"ty\":\"GetResult\"}}",
        "{\"Election\":{\"election_id\":1,\"ty\":\"GetResult\"}",
        "{\"Election\":{\"election_id\":1,\"ty\":\"Recount\"}}",
        "{\"Election\":{\"election_id\":1,\"ty\":\"SkipVote\"}}",
        "{\"Election\":{\"vote_id\":1,\"ty\":\"GetResult\"}}",
        "{\"Vote\":{\"vote_id\":1,\"ty\":\"GetResult\"}}",
        "{\"Vote\":{\"vote_id\":1,\"ty\":\"skipvote\"}}",
        "{\"Vote\":{\"vote_id\":1, \"ty\":\"SkipVote\"}}",
        "{\"Vote\":{\"vote_id\":1x,\"ty\":\"SkipVote\"}}",
        "{\"Vote\":{\"vote_id\":99999999999999999999999999,\"ty\":\"SkipVote\"}}",
        "{\"Vote\":{\"vote_id\":١,\"ty\":\"SkipVote\"}}",
        "{\"Poll\":{\"poll_id\":1,\"ty\":\"SkipVote\"}}",
        "{\"Vote\":{\"vote_id\":1,\"ty\":\"SkipVote\"}}é",
    ];
    for token in malformed {
        assert_eq!(Action::decode(token), Err(DecodeError), "{token}");
    }
}

#[test]
fn actions_say_what_they_are_about() {
    assert_eq!(ElectionId(3).get_id(), Target::Election(ElectionId(3)));
    assert_eq!(VoteId(4).get_id(), Target::Vote(VoteId(4)));
    assert_eq!(
        election(5, ElectionActionType::GetResult).get_id(),
        Target::Election(ElectionId(5))
    );
    assert_eq!(vote(6, VoteActionType::SkipVote).get_id(), Target::Vote(VoteId(6)));
    let a = ElectionAction { election_id: ElectionId(7), ty: ElectionActionType::InitiateVote };
    assert_eq!(a.get_id(), Target::Election(ElectionId(7)));
    let v = VoteAction { vote_id: VoteId(8), ty: VoteActionType::VoidBallot };
    assert_eq!(v.get_id(), Target::Vote(VoteId(8)));
}

#[test]
fn every_action_has_its_step() {
    assert_eq!(Route::route(election(1, ElectionActionType::InitiateVote)), Route::InitiateVote);
    assert_eq!(Route::route(election(1, ElectionActionType::GetResult)), Route::GetResult);
    assert_eq!(Route::route(vote(1, VoteActionType::ConfirmInitiateVote)), Route::InitiateVote);
    assert_eq!(Route::route(vote(1, VoteActionType::SelectVote)), Route::SelectVote);
    assert_eq!(Route::route(vote(1, VoteActionType::SkipVote)), Route::SelectVote);
    assert_eq!(Route::route(vote(1, VoteActionType::CancelVote)), Route::StopVote);
    assert_eq!(Route::route(vote(1, VoteActionType::VoidBallot)), Route::StopVote);
    assert!(Route::InitiateVote.writes());
    assert!(Route::SelectVote.writes());
    assert!(Route::StopVote.writes());
    assert!(!Route::GetResult.writes());
}

#[test]
fn tokens_are_routed() {
    let token = vote(3, VoteActionType::SkipVote).encode();
    assert_eq!(
        route_token(&token),
        Some((vote(3, VoteActionType::SkipVote), Route::SelectVote))
    );
    assert_eq!(route_token("stale"), None);
}

#[test]
fn actions_convert_to_their_identifier_and_token() {
    let a = ElectionAction { election_id: ElectionId(7), ty: ElectionActionType::InitiateVote };
    assert_eq!(ElectionId::from(a), ElectionId(7));
    let v = VoteAction { vote_id: VoteId(8), ty: VoteActionType::VoidBallot };
    assert_eq!(VoteId::from(v), VoteId(8));
    assert_eq!(String::from(Action::Vote(v)), "{\"Vote\":{\"vote_id\":8,\"ty\":\"VoidBallot\"}}");
}
