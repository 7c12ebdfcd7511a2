use tea_house_election::election::{Ballot, Election, Name, Region};
use tea_house_election::tally::order_by_score;

fn names(list: &[&str]) -> Vec<Name> {
    list.iter().map(|n| Name::from(*n)).collect()
}

fn election_with(offices: usize, reservations: &[&str], candidates: &[(&str, &str)]) -> Election {
    let mut election = Election::new(1, offices);
    for region in reservations {
        assert!(election.reserve_office(Region::from(*region)));
    }
    for (name, region) in candidates {
        election.add_candidate(Name::from(*name), Region::from(*region));
    }
    election
}

fn cast(election: &mut Election, votes: &[&[(&str, usize)]]) {
    for (i, ballot) in votes.iter().enumerate() {
        for (name, rank) in ballot.iter() {
            election.vote(i as u64 + 1, Name::from(*name), *rank);
        }
    }
}

fn scores_of(election: &Election) -> Vec<(u128, String)> {
    election.scores().into_iter().map(|(s, n)| (s, n.to_string())).collect()
}

#[test]
fn test_run_election() {
    let mut election = Election::new(1, 4);
    election.reserve_office("AMER".into());
    election.reserve_office("EMEA".into());

    election.add_candidate("a".into(), "AMER".into());
    election.add_candidate("b".into(), "AMER".into());
    election.add_candidate("c".into(), "AMER".into());
    election.add_candidate("d".into(), "EMEA".into());
    election.add_candidate("e".into(), "AMER".into());

    election.vote(1, "a".into(), 5);
    election.vote(1, "b".into(), 2);

    election.vote(2, "a".into(), 2);
    election.vote(2, "d".into(), 1);

    election.vote(3, "c".into(), 4);
    election.vote(3, "e".into(), 2);

    election.vote(4, "e".into(), 5);
    election.vote(4, "b".into(), 1);

    println!("{:?}", election.run());
}

#[test]
fn run_election_fills_offices_by_score() {
    let mut election = election_with(
        4,
        &["AMER", "EMEA"],
        &[("a", "AMER"), ("b", "AMER"), ("c", "AMER"), ("d", "EMEA"), ("e", "AMER")],
    );
    cast(
        &mut election,
        &[&[("a", 5), ("b", 2)], &[("a", 2), ("d", 1)], &[("c", 4), ("e", 2)], &[("e", 5), ("b", 1)]],
    );
    // scores: a 7, e 7, c 4, b 3, d 1; d takes the EMEA office, the
    // others take the AMER office and the two unreserved ones.
    let winners = election.run().expect("five candidates fill four offices");
    assert_eq!(winners.len(), 4);
    assert!(winners.contains(&Name::from("a")));
    assert!(winners.contains(&Name::from("e")));
    assert!(winners.contains(&Name::from("c")));
    assert!(winners.contains(&Name::from("d")));
    assert_eq!(winners, names(&["a", "c", "d", "e"]));
}

#[test]
fn scores_single_voter() {
    let mut election = Election::new(1, 1);
    cast(&mut election, &[&[("a", 1), ("b", 2), ("c", 3)]]);
    assert_eq!(
        scores_of(&election),
        vec![(1, "a".to_string()), (2, "b".to_string()), (3, "c".to_string())]
    );
}

#[test]
fn scores_sum_over_voters() {
    let mut election = Election::new(1, 1);
    cast(
        &mut election,
        &[
            &[("a", 1), ("b", 2), ("c", 3)],
            &[("a", 4), ("b", 5), ("c", 6)],
            &[("a", 7), ("b", 8), ("c", 9)],
        ],
    );
    assert_eq!(
        scores_of(&election),
        vec![(12, "a".to_string()), (15, "b".to_string()), (18, "c".to_string())]
    );
}

#[test]
fn scores_with_ties() {
    let mut election = Election::new(1, 1);
    cast(
        &mut election,
        &[
            &[("a", 1), ("b", 2), ("c", 3), ("d", 4)],
            &[("a", 2), ("b", 3), ("c", 4), ("d", 1)],
            &[("a", 3), ("b", 4), ("c", 1), ("d", 2)],
            &[("a", 4), ("b", 1), ("c", 2), ("d", 3)],
        ],
    );
    let tally = election.tally();
    assert_eq!(tally.len(), 4);
    for name in ["a", "b", "c", "d"] {
        assert!(tally.contains(&(10, Name::from(name))));
    }
}

#[test]
fn abstentions_add_nothing_and_keep_the_candidate() {
    let mut election = Election::new(1, 1);
    cast(
        &mut election,
        &[
            &[("a", 2), ("b", 2), ("c", 2), ("d", 2)],
            &[("a", 2), ("b", 0), ("c", 2), ("d", 0)],
            &[("a", 2), ("b", 2), ("c", 2), ("d", 2)],
            &[("a", 2), ("b", 2), ("c", 0), ("d", 0)],
            &[("a", 2), ("b", 2), ("c", 0), ("d", 2)],
        ],
    );
    assert_eq!(
        scores_of(&election),
        vec![
            (10, "a".to_string()),
            (8, "b".to_string()),
            (6, "c".to_string()),
            (6, "d".to_string())
        ]
    );
}

#[test]
fn only_abstentions_still_score() {
    let mut election = Election::new(1, 1);
    cast(&mut election, &[&[("a", 0)], &[("a", 0), ("b", 3)]]);
    assert_eq!(scores_of(&election), vec![(0, "a".to_string()), (3, "b".to_string())]);
}

#[test]
fn unranked_candidates_are_absent_from_the_tally() {
    let mut election = election_with(1, &[], &[("a", "AMER"), ("z", "EMEA")]);
    cast(&mut election, &[&[("a", 3)]]);
    assert_eq!(scores_of(&election), vec![(3, "a".to_string())]);
    assert_eq!(election.tally(), vec![(3, Name::from("a"))]);
}

#[test]
fn no_ballots_no_scores() {
    let election = election_with(1, &[], &[("a", "AMER")]);
    assert!(election.scores().is_empty());
    assert!(election.tally().is_empty());
    assert_eq!(election.run(), None);
}

#[test]
fn voting_again_replaces_the_rank() {
    let mut election = Election::new(1, 1);
    election.vote(9, "a".into(), 5);
    election.vote(9, "a".into(), 2);
    assert_eq!(scores_of(&election), vec![(2, "a".to_string())]);
    assert_eq!(election.voter_count(), 1);
}

#[test]
fn tally_is_ascending_by_score() {
    let mut election = Election::new(1, 1);
    cast(&mut election, &[&[("a", 5), ("b", 1), ("c", 3), ("d", 3), ("e", 0)]]);
    let tally = election.tally();
    let scores: Vec<u128> = tally.iter().map(|e| e.0).collect();
    assert_eq!(scores, vec![0, 1, 3, 3, 5]);
    assert_eq!(tally[0].1, Name::from("e"));
    assert_eq!(tally[1].1, Name::from("b"));
    assert_eq!(tally[4].1, Name::from("a"));
}

#[test]
fn ties_come_out_in_more_than_one_order() {
    let mut election = Election::new(1, 1);
    cast(&mut election, &[&[("a", 2), ("b", 2), ("c", 2), ("d", 2), ("e", 2), ("f", 2)]]);
    let first = election.tally();
    let mut differs = false;
    for _ in 0..200 {
        if election.tally() != first {
            differs = true;
        }
    }
    assert!(differs);
}

#[test]
fn order_by_score_is_stable() {
    let entries = vec![
        (3u128, Name::from("x")),
        (1, Name::from("y")),
        (3, Name::from("a")),
        (1, Name::from("b")),
        (2, Name::from("m")),
    ];
    assert_eq!(
        order_by_score(entries),
        vec![
            (1, Name::from("y")),
            (1, Name::from("b")),
            (2, Name::from("m")),
            (3, Name::from("x")),
            (3, Name::from("a")),
        ]
    );
    assert_eq!(order_by_score(Vec::new()), Vec::new());
}

fn results(list: &[(u128, &str)]) -> Vec<(u128, Name)> {
    list.iter().map(|(s, n)| (*s, Name::from(*n))).collect()
}

#[test]
fn assign_simple() {
    let election = election_with(
        4,
        &["AMER", "EMEA"],
        &[("a", "AMER"), ("b", "EMEA"), ("c", "EMEA"), ("d", "EMEA"), ("e", "AMER")],
    );
    let tally = results(&[(5, "a"), (7, "b"), (8, "d"), (9, "e"), (10, "c")]);
    assert_eq!(Some(names(&["b", "c", "d", "e"])), election.assign(tally));
}

#[test]
fn assign_low_vote_reserved() {
    let election = election_with(
        4,
        &["AMER"],
        &[("a", "AMER"), ("b", "EMEA"), ("c", "EMEA"), ("d", "EMEA"), ("e", "EMEA")],
    );
    let tally = results(&[(5, "a"), (7, "b"), (8, "d"), (9, "e"), (10, "c")]);
    assert_eq!(Some(names(&["a", "c", "d", "e"])), election.assign(tally));
}

#[test]
fn assign_is_infeasible_when_candidates_run_out() {
    let election = election_with(3, &["AMER"], &[("a", "EMEA"), ("b", "EMEA"), ("c", "EMEA")]);
    // two unreserved offices go to c and b; nobody can take the AMER office
    assert_eq!(None, election.assign(results(&[(1, "a"), (2, "b"), (3, "c")])));
    assert_eq!(None, election.assign(Vec::new()));
}

#[test]
fn assign_never_bumps_an_earlier_winner() {
    let election = election_with(
        2,
        &["AMER", "EMEA"],
        &[("a", "AMER"), ("b", "AMER"), ("c", "EMEA")],
    );
    // b (AMER) is seated first; a finds the AMER office taken and no
    // unreserved office, so c fills the EMEA office.
    let tally = results(&[(1, "c"), (2, "a"), (3, "b")]);
    assert_eq!(Some(names(&["b", "c"])), election.assign(tally));
}

#[test]
fn assign_with_no_offices_elects_nobody() {
    let election = election_with(0, &[], &[("a", "AMER")]);
    assert_eq!(Some(Vec::new()), election.assign(results(&[(1, "a")])));
}

#[test]
fn assign_skips_names_that_are_no_candidates() {
    let election = election_with(1, &[], &[("a", "AMER")]);
    assert_eq!(Some(names(&["a"])), election.assign(results(&[(1, "a"), (9, "ghost")])));
    assert_eq!(None, election.assign(results(&[(9, "ghost")])));
}

#[test]
fn winners_are_sorted_by_name() {
    let election = election_with(3, &[], &[("zed", "X"), ("Ann", "X"), ("bob", "X")]);
    let tally = results(&[(1, "bob"), (2, "Ann"), (3, "zed")]);
    assert_eq!(Some(names(&["Ann", "bob", "zed"])), election.assign(tally));
}

#[test]
fn reservations_never_exceed_offices() {
    let mut election = Election::new(1, 2);
    assert!(election.reserve_office("AMER".into()));
    assert!(election.reserve_office("AMER".into()));
    assert!(!election.reserve_office("EMEA".into()));
    assert_eq!(election.reserved_offices().len(), 2);
    assert_eq!(election.offices(), 2);
    let mut none = Election::new(1, 0);
    assert!(!none.reserve_office("AMER".into()));
}

#[test]
fn candidates_are_kept_in_canonical_order() {
    let election = election_with(1, &[], &[("b", "X"), ("a", "Y"), ("c", "Z"), ("a", "W")]);
    let candidates = election.candidates();
    assert_eq!(candidates.len(), 3);
    assert_eq!(candidates.name_at(0), &Name::from("a"));
    assert_eq!(candidates.value_at(0), &Region::from("W"));
    assert_eq!(candidates.name_at(1), &Name::from("b"));
    assert_eq!(candidates.name_at(2), &Name::from("c"));
    assert_eq!(candidates.get(&Name::from("c")), Some(&Region::from("Z")));
    assert_eq!(candidates.get(&Name::from("d")), None);
    assert!(candidates.contains_key(&Name::from("b")));
    assert_eq!(candidates.position(&Name::from("b")), Some(1));
}

#[test]
fn ballots_can_be_set_and_removed() {
    let mut election = Election::new(8, 1);
    assert_eq!(*election.owner(), 8);
    assert!(!election.has_ballot(3));
    let mut ballot = Ballot::new();
    ballot.set_rank("a".into(), 4);
    ballot.set_rank("b".into(), 0);
    assert_eq!(ballot.rank(&Name::from("a")), Some(4));
    assert_eq!(ballot.rank(&Name::from("b")), Some(0));
    assert_eq!(ballot.rank(&Name::from("c")), None);
    election.set_ballot(3, ballot);
    assert!(election.has_ballot(3));
    assert_eq!(election.ballot(3).unwrap().votes().len(), 2);
    assert_eq!(election.voter_count(), 1);
    let removed = election.remove_ballot(3).unwrap();
    assert_eq!(removed.rank(&Name::from("a")), Some(4));
    assert!(election.remove_ballot(3).is_none());
    assert_eq!(election.voter_count(), 0);
    assert!(Ballot::default().votes().is_empty());
}

#[test]
fn names_and_regions_show_their_text() {
    assert_eq!(Name::from("Åsa").to_string(), "Åsa");
    assert_eq!(Name::from(String::from("x")).as_str(), "x");
    assert_eq!(Region::from("EMEA").to_string(), "EMEA");
    assert_eq!(Region::from(String::from("AMER")).as_str(), "AMER");
    assert_eq!(Name::from("a").clone(), Name::from("a"));
    assert_ne!(Region::from("a"), Region::from("b"));
}
