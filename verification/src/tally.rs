//! Scores: a candidate's score is the sum of the ranks that the ballots give
//! them.  The tally lists the scored candidates by ascending score, with
//! ties in an order that a shuffle decides.

use vstd::prelude::*;
use vstd::seq_lib::{to_multiset_build, to_multiset_contains, to_multiset_insert};
use rand::seq::SliceRandom;
use crate::election::Name;
use crate::seating::names_entry;

verus! {

/// One more than the largest voter identity.
pub open spec fn voter_limit() -> nat {
    0x1_0000_0000_0000_0000
}

/// The rank that `ballot` gives `name`: 0 where it does not rank them.
pub open spec fn rank_in(ballot: Map<Seq<char>, usize>, name: Seq<char>) -> nat {
    if ballot.contains_key(name) {
        ballot[name] as nat
    } else {
        0
    }
}

/// The sum of the ranks that the ballots of the voters below `bound` give
/// `name`.
pub open spec fn score_below(
    ballots: Map<u64, Map<Seq<char>, usize>>,
    name: Seq<char>,
    bound: nat,
) -> nat
    decreases bound,
{
    if bound == 0 {
        0
    } else {
        let voter = (bound - 1) as u64;
        score_below(ballots, name, (bound - 1) as nat) + if ballots.contains_key(voter) {
            rank_in(ballots[voter], name)
        } else {
            0
        }
    }
}

/// The score of `name`: the sum of the ranks that all ballots give them.
pub open spec fn score(ballots: Map<u64, Map<Seq<char>, usize>>, name: Seq<char>) -> nat {
    score_below(ballots, name, voter_limit())
}

/// Some ballot ranks `name`, be it with rank 0.
pub open spec fn ranked(ballots: Map<u64, Map<Seq<char>, usize>>, name: Seq<char>) -> bool {
    exists|voter: u64| #[trigger] ballots.contains_key(voter) && ballots[voter].contains_key(name)
}

/// `entries` lists exactly the ranked names, each once, with their scores.
pub open spec fn is_tally_of(
    ballots: Map<u64, Map<Seq<char>, usize>>,
    entries: Seq<(u128, Seq<char>)>,
) -> bool {
    &&& forall|i: int|
        0 <= i < entries.len() ==> ranked(ballots, (#[trigger] entries[i]).1) && entries[i].0
            == score(ballots, entries[i].1)
    &&& forall|i: int, j: int|
        0 <= i < j < entries.len() ==> (#[trigger] entries[i]).1 != (#[trigger] entries[j]).1
    &&& forall|name: Seq<char>| #[trigger] ranked(ballots, name) ==> names_entry(entries, name)
}

/// The scores of `entries` never descend.
pub open spec fn ascending_scores(entries: Seq<(u128, Seq<char>)>) -> bool {
    forall|i: int, j: int|
        0 <= i < j < entries.len() ==> (#[trigger] entries[i]).0 <= (#[trigger] entries[j]).0
}

proof fn lemma_score_below_insert(
    ballots: Map<u64, Map<Seq<char>, usize>>,
    voter: u64,
    ballot: Map<Seq<char>, usize>,
    name: Seq<char>,
    bound: nat,
)
    requires
        bound <= voter_limit(),
    ensures
        score_below(ballots.insert(voter, ballot), name, bound) == score_below(
            ballots.remove(voter),
            name,
            bound,
        ) + if voter < bound {
            rank_in(ballot, name)
        } else {
            0
        },
    decreases bound,
{
    if bound > 0 {
        lemma_score_below_insert(ballots, voter, ballot, name, (bound - 1) as nat);
    }
}

proof fn lemma_score_below_unranked(
    ballots: Map<u64, Map<Seq<char>, usize>>,
    name: Seq<char>,
    bound: nat,
)
    requires
        !ranked(ballots, name),
    ensures
        score_below(ballots, name, bound) == 0,
    decreases bound,
{
    if bound > 0 {
        lemma_score_below_unranked(ballots, name, (bound - 1) as nat);
    }
}

proof fn lemma_score_below_bound(
    ballots: Map<u64, Map<Seq<char>, usize>>,
    name: Seq<char>,
    bound: nat,
)
    ensures
        score_below(ballots, name, bound) <= bound * usize::MAX,
    decreases bound,
{
    if bound > 0 {
        lemma_score_below_bound(ballots, name, (bound - 1) as nat);
        assert(bound * usize::MAX == (bound - 1) * usize::MAX + usize::MAX) by (nonlinear_arith);
    }
}

/// With no ballots every score is 0 and nobody is ranked.
pub proof fn lemma_score_no_ballots(name: Seq<char>)
    ensures
        score(Map::empty(), name) == 0,
        !ranked(Map::empty(), name),
{
    lemma_score_below_unranked(Map::empty(), name, voter_limit());
}

/// A name that no ballot ranks has score 0.
pub proof fn lemma_score_unranked(ballots: Map<u64, Map<Seq<char>, usize>>, name: Seq<char>)
    requires
        !ranked(ballots, name),
    ensures
        score(ballots, name) == 0,
{
    lemma_score_below_unranked(ballots, name, voter_limit());
}

/// Casting a ballot adds the rank it gives a name to that name's score, in
/// place of what the voter's earlier ballot gave: so a score is the sum of
/// the ranks of all ballots, an abstention (rank 0) adds nothing, and a name
/// that the ballot ranks is ranked whatever the rank.
pub proof fn lemma_score_cast(
    ballots: Map<u64, Map<Seq<char>, usize>>,
    voter: u64,
    ballot: Map<Seq<char>, usize>,
    name: Seq<char>,
)
    ensures
        score(ballots.insert(voter, ballot), name) == score(ballots.remove(voter), name) + rank_in(
            ballot,
            name,
        ),
        ranked(ballots.insert(voter, ballot), name) <==> ranked(ballots.remove(voter), name)
            || ballot.contains_key(name),
        !ballots.contains_key(voter) ==> ballots.remove(voter) == ballots,
{
    lemma_score_below_insert(ballots, voter, ballot, name, voter_limit());
    let after = ballots.insert(voter, ballot);
    let before = ballots.remove(voter);
    if ranked(after, name) {
        let v = choose|v: u64| #[trigger] after.contains_key(v) && after[v].contains_key(name);
        if v != voter {
            assert(before.contains_key(v) && before[v].contains_key(name));
        }
    }
    if ranked(before, name) {
        let v = choose|v: u64| #[trigger] before.contains_key(v) && before[v].contains_key(name);
        assert(after.contains_key(v) && after[v].contains_key(name));
    }
    if ballot.contains_key(name) {
        assert(after.contains_key(voter) && after[voter].contains_key(name));
    }
    if !ballots.contains_key(voter) {
        assert(ballots.remove(voter) =~= ballots);
    }
}

/// A score fits in 128 bits, however many ballots there are.
pub proof fn lemma_score_fits(ballots: Map<u64, Map<Seq<char>, usize>>, name: Seq<char>)
    ensures
        score(ballots, name) <= u128::MAX,
{
    lemma_score_below_bound(ballots, name, voter_limit());
    assert(voter_limit() * usize::MAX <= u128::MAX) by (nonlinear_arith)
        requires
            voter_limit() == 0x1_0000_0000_0000_0000,
            usize::MAX <= 0xffff_ffff_ffff_ffff,
    ;
}

/// A sequence with the same entries as a tally, as many times each, is a
/// tally of the same ballots.
pub proof fn lemma_tally_permuted(
    ballots: Map<u64, Map<Seq<char>, usize>>,
    entries: Seq<(u128, Seq<char>)>,
    permuted: Seq<(u128, Seq<char>)>,
)
    requires
        is_tally_of(ballots, entries),
        permuted.to_multiset() == entries.to_multiset(),
    ensures
        is_tally_of(ballots, permuted),
{
    assert forall|i: int| 0 <= i < permuted.len() implies ranked(
        ballots,
        (#[trigger] permuted[i]).1,
    ) && permuted[i].0 == score(ballots, permuted[i].1) by {
        to_multiset_contains(permuted, permuted[i]);
        to_multiset_contains(entries, permuted[i]);
        let k = choose|k: int| 0 <= k < entries.len() && entries[k] == permuted[i];
        assert(ranked(ballots, entries[k].1));
    }
    assert forall|name: Seq<char>| #[trigger] ranked(ballots, name) implies names_entry(
        permuted,
        name,
    ) by {
        let k = choose|k: int| 0 <= k < entries.len() && (#[trigger] entries[k]).1 == name;
        to_multiset_contains(entries, entries[k]);
        to_multiset_contains(permuted, entries[k]);
        let i = choose|i: int| 0 <= i < permuted.len() && permuted[i] == entries[k];
        assert(permuted[i].1 == name);
    }
    assert(entries.no_duplicates());
    entries.lemma_multiset_has_no_duplicates();
    permuted.lemma_multiset_has_no_duplicates_conv();
    assert forall|i: int, j: int| 0 <= i < j < permuted.len() implies (#[trigger] permuted[i]).1
        != (#[trigger] permuted[j]).1 by {
        if permuted[i].1 == permuted[j].1 {
            assert(permuted[i] == permuted[j]);
        }
    }
}

/// `sorted` with `entry` put behind every entry whose score is not higher.
pub open spec fn insert_by_score(
    sorted: Seq<(u128, Seq<char>)>,
    entry: (u128, Seq<char>),
) -> Seq<(u128, Seq<char>)>
    decreases sorted.len(),
{
    if sorted.len() == 0 || sorted.last().0 <= entry.0 {
        sorted.push(entry)
    } else {
        insert_by_score(sorted.drop_last(), entry).push(sorted.last())
    }
}

/// `entries` by ascending score; entries of equal score keep the order they
/// have in `entries`.
pub open spec fn by_score(entries: Seq<(u128, Seq<char>)>) -> Seq<(u128, Seq<char>)>
    decreases entries.len(),
{
    if entries.len() == 0 {
        entries
    } else {
        insert_by_score(by_score(entries.drop_last()), entries.last())
    }
}

proof fn lemma_insert_by_score_at(
    sorted: Seq<(u128, Seq<char>)>,
    entry: (u128, Seq<char>),
    at: int,
)
    requires
        0 <= at <= sorted.len(),
        at > 0 ==> sorted[at - 1].0 <= entry.0,
        forall|i: int| at <= i < sorted.len() ==> (#[trigger] sorted[i]).0 > entry.0,
    ensures
        insert_by_score(sorted, entry) == sorted.insert(at, entry),
    decreases sorted.len(),
{
    if at == sorted.len() {
        assert(sorted.insert(at, entry) =~= sorted.push(entry));
    } else {
        assert(sorted.last().0 > entry.0);
        lemma_insert_by_score_at(sorted.drop_last(), entry, at);
        assert(sorted.drop_last().insert(at, entry).push(sorted.last()) =~= sorted.insert(
            at,
            entry,
        ));
    }
}

proof fn lemma_insert_by_score(sorted: Seq<(u128, Seq<char>)>, entry: (u128, Seq<char>))
    requires
        ascending_scores(sorted),
    ensures
        ascending_scores(insert_by_score(sorted, entry)),
        insert_by_score(sorted, entry).to_multiset() == sorted.to_multiset().insert(entry),
        insert_by_score(sorted, entry).len() == sorted.len() + 1,
    decreases sorted.len(),
{
    if sorted.len() == 0 || sorted.last().0 <= entry.0 {
        to_multiset_build(sorted, entry);
        let out = sorted.push(entry);
        assert forall|i: int, j: int| 0 <= i < j < out.len() implies (#[trigger] out[i]).0 <= (
        #[trigger] out[j]).0 by {
            if j == sorted.len() {
                assert(out[i] == sorted[i]);
                if i < sorted.len() - 1 {
                    assert(sorted[i].0 <= sorted[sorted.len() - 1].0);
                }
            } else {
                assert(out[i] == sorted[i] && out[j] == sorted[j]);
            }
        }
    } else {
        let front = sorted.drop_last();
        assert forall|i: int, j: int| 0 <= i < j < front.len() implies (#[trigger] front[i]).0 <= (
        #[trigger] front[j]).0 by {
            assert(front[i] == sorted[i] && front[j] == sorted[j]);
        }
        lemma_insert_by_score(front, entry);
        let mid = insert_by_score(front, entry);
        let out = mid.push(sorted.last());
        to_multiset_build(mid, sorted.last());
        assert(sorted =~= front.push(sorted.last()));
        to_multiset_build(front, sorted.last());
        assert(out.to_multiset() =~= sorted.to_multiset().insert(entry));
        assert forall|i: int, j: int| 0 <= i < j < out.len() implies (#[trigger] out[i]).0 <= (
        #[trigger] out[j]).0 by {
            if j == mid.len() {
                assert(out[i] == mid[i]);
                to_multiset_contains(mid, mid[i]);
                if mid[i] != entry {
                    to_multiset_contains(front, mid[i]);
                    let k = choose|k: int| 0 <= k < front.len() && front[k] == mid[i];
                    assert(sorted[k].0 <= sorted[sorted.len() - 1].0);
                }
            } else {
                assert(out[i] == mid[i] && out[j] == mid[j]);
            }
        }
    }
}

/// Ordering by score keeps every entry, as many times as it occurs, and
/// leaves the scores ascending.
pub proof fn lemma_by_score(entries: Seq<(u128, Seq<char>)>)
    ensures
        ascending_scores(by_score(entries)),
        by_score(entries).to_multiset() == entries.to_multiset(),
        by_score(entries).len() == entries.len(),
    decreases entries.len(),
{
    if entries.len() > 0 {
        lemma_by_score(entries.drop_last());
        lemma_insert_by_score(by_score(entries.drop_last()), entries.last());
        assert(entries =~= entries.drop_last().push(entries.last()));
        to_multiset_build(entries.drop_last(), entries.last());
    }
}

/// Orders `entries` by ascending score; entries of equal score keep the
/// order in which they came.
pub fn order_by_score(entries: Vec<(u128, Name)>) -> (ordered: Vec<(u128, Name)>)
    ensures
        ordered.deep_view() == by_score(entries.deep_view()),
{
    let mut ordered: Vec<(u128, Name)> = Vec::new();
    let mut k: usize = 0;
    assert(entries.deep_view().take(0) =~= ordered.deep_view());
    while k < entries.len()
        invariant
            k <= entries.len(),
            ordered.len() == k,
            ordered.deep_view() == by_score(entries.deep_view().take(k as int)),
        decreases entries.len() - k,
    {
        let score = entries[k].0;
        let name = entries[k].1.clone();
        let mut p: usize = ordered.len();
        while p > 0 && ordered[p - 1].0 > score
            invariant
                p <= ordered.len(),
                forall|i: int| p <= i < ordered.len() ==> (#[trigger] ordered.deep_view()[i]).0 > score,
            decreases p,
        {
            p -= 1;
        }
        let ghost before = ordered.deep_view();
        assert(p > 0 ==> before[p - 1].0 <= score);
        ordered.insert(p, (score, name));
        proof {
            let prefix = entries.deep_view().take(k as int);
            let next = entries.deep_view().take(k + 1);
            assert(next.drop_last() =~= prefix);
            assert(next.last() == (score, name@));
            assert(ordered.deep_view() =~= before.insert(p as int, (score, name@)));
            lemma_insert_by_score_at(before, (score, name@), p as int);
        }
        k += 1;
    }
    assert(entries.deep_view().take(k as int) =~= entries.deep_view());
    ordered
}

/// Puts `entries` in a random order.
///
/// Trusted: calls `rand::seq::SliceRandom::shuffle` on the slice with the
/// generator of `rand::thread_rng`.  That function only swaps elements of
/// the slice, so the entries afterwards are the entries before, as many
/// times each; which order comes out is not stated.
#[verifier::external_body]
pub(crate) fn shuffle(entries: &mut Vec<(u128, Name)>)
    ensures
        final(entries).deep_view().to_multiset() == old(entries).deep_view().to_multiset(),
{
    entries.shuffle(&mut rand::thread_rng());
}

} // verus!
