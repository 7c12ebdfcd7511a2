use tea_house_election::actions::ElectionId;
use tea_house_election::election::{Name, Region};
use tea_house_election::setup::{build_election, SetupError};
use tea_house_election::store::{ElectionMap, VoteMap};

fn candidates_of(offices: usize, reserved: &str, candidates: &str) -> Vec<(String, String)> {
    let election = build_election(1, offices, reserved, candidates).unwrap();
    let map = election.candidates();
    (0..map.len()).map(|i| (map.name_at(i).to_string(), map.value_at(i).to_string())).collect()
}

fn pair(name: &str, region: &str) -> (String, String) {
    (name.to_string(), region.to_string())
}

#[test]
fn an_election_is_set_up_from_the_texts() {
    let election =
        build_election(7, 4, "AMER, EMEA", "a;AMER,b;EMEA, c ; EMEA ,d;EMEA,e;AMER").unwrap();
    assert_eq!(*election.owner(), 7);
    assert_eq!(election.offices(), 4);
    assert_eq!(election.reserved_offices(), &vec![Region::from("AMER"), Region::from("EMEA")]);
    assert_eq!(election.voter_count(), 0);
    let candidates = election.candidates();
    assert_eq!(candidates.len(), 5);
    assert_eq!(candidates.get(&Name::from("c")), Some(&Region::from("EMEA")));
    assert_eq!(candidates.get(&Name::from("e")), Some(&Region::from("AMER")));
}

#[test]
fn a_candidate_without_separator_is_malformed() {
    assert_eq!(build_election(1, 1, "AMER", "a-AMER").err(), Some(SetupError::MalformedCandidateList));
    let mut elections = ElectionMap::new();
    assert_eq!(
        elections.create(1, 1, "AMER", "a-AMER"),
        Err(SetupError::MalformedCandidateList)
    );
    assert_eq!(elections.len(), 0);
    assert_eq!(elections.next_election_id(), ElectionId(0));
}

#[test]
fn candidate_entries_need_exactly_two_parts_that_are_not_empty() {
    for list in ["", "a", "a;", ";AMER", " ; ", "a;AMER;x", "a;AMER,", "a;AMER,,b;EMEA", "a;AMER,b", "a; \t"] {
        assert_eq!(
            build_election(1, 1, "AMER", list).err(),
            Some(SetupError::MalformedCandidateList),
            "{list:?}"
        );
    }
}

#[test]
fn too_many_reservations_are_refused_first() {
    assert_eq!(
        build_election(1, 1, "AMER,EMEA", "a;AMER").err(),
        Some(SetupError::TooManyReservations)
    );
    assert_eq!(
        build_election(1, 1, "AMER,EMEA", "a-AMER").err(),
        Some(SetupError::TooManyReservations)
    );
    assert_eq!(build_election(1, 0, "", "a;AMER").err(), Some(SetupError::TooManyReservations));
    let mut elections = ElectionMap::new();
    assert_eq!(
        elections.create(1, 2, "A,B,C", "a;A"),
        Err(SetupError::TooManyReservations)
    );
    assert_eq!(elections.len(), 0);
}

#[test]
fn every_piece_of_the_reservations_is_an_office() {
    let election = build_election(1, 3, "", "a;AMER").unwrap();
    assert_eq!(election.reserved_offices(), &vec![Region::from("")]);
    let election = build_election(1, 3, " AMER ,, EMEA\n", "a;AMER").unwrap();
    assert_eq!(
        election.reserved_offices(),
        &vec![Region::from("AMER"), Region::from(""), Region::from("EMEA")]
    );
}

#[test]
fn names_and_regions_are_trimmed_of_white_space() {
    assert_eq!(
        candidates_of(1, "x", " \u{a0}Zoë Q.\t; North\u{2003}West \n,b;\u{3000}S"),
        vec![pair("Zoë Q.", "North\u{2003}West"), pair("b", "S")]
    );
}

#[test]
fn a_later_entry_for_a_name_replaces_an_earlier_one() {
    assert_eq!(
        candidates_of(1, "x", "b;ONE,a;TWO,b;THREE"),
        vec![pair("a", "TWO"), pair("b", "THREE")]
    );
}

#[test]
fn created_elections_get_fresh_identifiers() {
    let mut elections = ElectionMap::new();
    let votes = VoteMap::new();
    assert_eq!(elections.create(5, 2, "AMER", "a;AMER,b;EMEA"), Ok(ElectionId(0)));
    assert_eq!(elections.create(6, 1, "EMEA", "c;EMEA"), Ok(ElectionId(1)));
    assert_eq!(elections.create(6, 1, "EMEA", "c"), Err(SetupError::MalformedCandidateList));
    assert_eq!(elections.create(7, 1, "EMEA", "d;EMEA"), Ok(ElectionId(2)));
    assert_eq!(elections.len(), 3);
    assert_eq!(*elections.get(ElectionId(1), &votes).unwrap().owner(), 6);
    assert_eq!(elections.get(ElectionId(0), &votes).unwrap().candidates().len(), 2);
}
