//! Elections: candidates, reserved offices, ballots, tally and assignment.

use vstd::prelude::*;
use vstd::std_specs::cmp::PartialEqSpecImpl;
use vstd::std_specs::convert::FromSpecImpl;
use std::collections::BTreeMap;
use crate::name_map::NameMap;
use crate::seating::{
    fitting, lemma_region_count_permuted, lemma_seated_are_candidates, lemma_seated_count,
    lemma_seated_none_left, lemma_seated_region_bound, lemma_seated_within_offices, names_entry,
    region_count, seated,
};
use crate::tally::{
    ascending_scores, is_tally_of, lemma_by_score, lemma_score_cast, lemma_score_fits,
    lemma_score_unranked, lemma_tally_permuted, order_by_score, rank_in, ranked, score, shuffle,
};
use crate::text::{ascending, lemma_text_lt_total, sort_texts, strictly_ascending, texts, Text};
use vstd::std_specs::iter::IteratorSpec;
use vstd::seq_lib::{to_multiset_contains, to_multiset_len, to_multiset_remove};

verus! {

/// The name of a candidate; the unique key of a candidate within an election.
#[derive(Debug, Eq, Hash)]
pub struct Name(pub String);

/// A region; groups candidates for the purpose of reserved offices.
#[derive(Debug, Eq, Hash)]
pub struct Region(pub String);

impl View for Name {
    type V = Seq<char>;

    open spec fn view(&self) -> Seq<char> {
        self.0@
    }
}

impl View for Region {
    type V = Seq<char>;

    open spec fn view(&self) -> Seq<char> {
        self.0@
    }
}

impl DeepView for Name {
    type V = Seq<char>;

    open spec fn deep_view(&self) -> Seq<char> {
        self.0@
    }
}

impl DeepView for Region {
    type V = Seq<char>;

    open spec fn deep_view(&self) -> Seq<char> {
        self.0@
    }
}

impl Name {
    /// The name as text.
    pub fn as_str(&self) -> (s: &str)
        ensures
            s@ == self@,
    {
        self.0.as_str()
    }

    /// The text of the name; stands in for a `Display` rendering.
    pub fn to_string(&self) -> (s: String)
        ensures
            s@ == self@,
    {
        self.0.clone()
    }
}

impl Region {
    /// The region as text.
    pub fn as_str(&self) -> (s: &str)
        ensures
            s@ == self@,
    {
        self.0.as_str()
    }

    /// The text of the region; stands in for a `Display` rendering.
    pub fn to_string(&self) -> (s: String)
        ensures
            s@ == self@,
    {
        self.0.clone()
    }
}

impl Text for Name {
    open spec fn text(&self) -> Seq<char> {
        self.0@
    }

    fn as_text(&self) -> (s: &str) {
        self.0.as_str()
    }
}

impl Clone for Name {
    fn clone(&self) -> (r: Self)
        ensures
            r == *self,
    {
        Name(self.0.clone())
    }
}

impl Clone for Region {
    fn clone(&self) -> (r: Self)
        ensures
            r == *self,
    {
        Region(self.0.clone())
    }
}

impl PartialEq for Name {
    fn eq(&self, other: &Self) -> (r: bool) {
        self.0 == other.0
    }
}

impl PartialEqSpecImpl for Name {
    open spec fn obeys_eq_spec() -> bool {
        true
    }

    open spec fn eq_spec(&self, other: &Self) -> bool {
        self@ == other@
    }
}

impl PartialEq for Region {
    fn eq(&self, other: &Self) -> (r: bool) {
        self.0 == other.0
    }
}

impl PartialEqSpecImpl for Region {
    open spec fn obeys_eq_spec() -> bool {
        true
    }

    open spec fn eq_spec(&self, other: &Self) -> bool {
        self@ == other@
    }
}

impl From<String> for Name {
    fn from(value: String) -> (r: Self) {
        Name(value)
    }
}

impl FromSpecImpl<String> for Name {
    open spec fn obeys_from_spec() -> bool {
        true
    }

    open spec fn from_spec(value: String) -> Self {
        Name(value)
    }
}

impl<'a> FromSpecImpl<&'a str> for Name {
    open spec fn obeys_from_spec() -> bool {
        false
    }

    open spec fn from_spec(value: &'a str) -> Self {
        arbitrary()
    }
}

impl<'a> From<&'a str> for Name {
    fn from(value: &'a str) -> (r: Self)
        ensures
            r@ == value@,
    {
        Name(value.to_owned())
    }
}

impl From<String> for Region {
    fn from(value: String) -> (r: Self) {
        Region(value)
    }
}

impl FromSpecImpl<String> for Region {
    open spec fn obeys_from_spec() -> bool {
        true
    }

    open spec fn from_spec(value: String) -> Self {
        Region(value)
    }
}

impl<'a> FromSpecImpl<&'a str> for Region {
    open spec fn obeys_from_spec() -> bool {
        false
    }

    open spec fn from_spec(value: &'a str) -> Self {
        arbitrary()
    }
}

impl<'a> From<&'a str> for Region {
    fn from(value: &'a str) -> (r: Self)
        ensures
            r@ == value@,
    {
        Region(value.to_owned())
    }
}

/// One voter's ranking of candidates: a rank for each name, where rank 0 is
/// an explicit abstention and a higher rank a stronger preference.
#[derive(Debug)]
pub struct Ballot {
    votes: NameMap<usize>,
}

impl View for Ballot {
    type V = Map<Seq<char>, usize>;

    closed spec fn view(&self) -> Map<Seq<char>, usize> {
        self.votes@
    }
}

impl Ballot {
    /// The ranked names, in canonical order.
    pub closed spec fn names(&self) -> Seq<Seq<char>> {
        self.votes.names()
    }

    /// The entries are held in canonical order of name.
    pub closed spec fn wf(&self) -> bool {
        self.votes.wf()
    }

    /// A ballot that ranks nobody.
    pub fn new() -> (b: Self)
        ensures
            b.wf(),
            b@ == Map::<Seq<char>, usize>::empty(),
    {
        Ballot { votes: NameMap::new() }
    }

    /// The ranks by name, in canonical order of name.
    pub fn votes(&self) -> (m: &NameMap<usize>)
        ensures
            m@ == self@,
            m.names() == self.names(),
            m.wf() == self.wf(),
    {
        &self.votes
    }

    /// The rank given to `name`, if the ballot ranks it.
    pub fn rank(&self, name: &Name) -> (r: Option<usize>)
        requires
            self.wf(),
        ensures
            r == (if self@.contains_key(name@) {
                Some(self@[name@])
            } else {
                None
            }),
    {
        match self.votes.get(name) {
            Some(r) => Some(*r),
            None => None,
        }
    }

    /// Records `rank` for `name`, in place of any rank it had.
    pub fn set_rank(&mut self, name: Name, rank: usize)
        requires
            old(self).wf(),
        ensures
            final(self).wf(),
            final(self)@ == old(self)@.insert(name@, rank),
    {
        self.votes.insert(name, rank);
    }
}

impl Default for Ballot {
    fn default() -> (b: Self)
        ensures
            b.wf(),
            b@ == Map::<Seq<char>, usize>::empty(),
    {
        Ballot::new()
    }
}

/// A copy of `regions`.
fn clone_regions(regions: &Vec<Region>) -> (copy: Vec<Region>)
    ensures
        copy.deep_view() == regions.deep_view(),
{
    let mut copy: Vec<Region> = Vec::new();
    let mut i: usize = 0;
    while i < regions.len()
        invariant
            i <= regions.len(),
            copy.deep_view() == regions.deep_view().take(i as int),
        decreases regions.len() - i,
    {
        let ghost prefix = copy.deep_view();
        let region = regions[i].clone();
        copy.push(region);
        assert(copy.deep_view() =~= prefix.push(region@));
        assert(regions.deep_view().take(i + 1) =~= prefix.push(region@));
        i += 1;
    }
    assert(copy.deep_view() =~= regions.deep_view());
    copy
}

/// The index of the first of `regions` that is `region`, if there is one.
fn position_of(regions: &Vec<Region>, region: &Region) -> (r: Option<usize>)
    ensures
        match r {
            Some(i) => i < regions.len() && regions.deep_view()[i as int] == region@,
            None => !regions.deep_view().contains(region@),
        },
{
    let mut i: usize = 0;
    while i < regions.len()
        invariant
            i <= regions.len(),
            forall|j: int| 0 <= j < i ==> regions.deep_view()[j] != region@,
        decreases regions.len() - i,
    {
        if regions[i] == *region {
            return Some(i);
        }
        i += 1;
    }
    None
}

/// An election: who owns it, how many offices it fills, who stands, which
/// offices are reserved for a region, and the ballots cast so far.
#[derive(Debug)]
pub struct Election {
    owner: u64,
    candidates: NameMap<Region>,
    offices: usize,
    reserved_offices: Vec<Region>,
    ballots: BTreeMap<u64, Ballot>,
}

impl Election {
    /// The identity of the election's creator.
    pub closed spec fn owner_id(&self) -> u64 {
        self.owner
    }

    /// The number of offices to fill.
    pub closed spec fn office_count(&self) -> nat {
        self.offices as nat
    }

    /// The region of each candidate, by name.
    pub closed spec fn candidate_map(&self) -> Map<Seq<char>, Seq<char>> {
        self.candidates@.map_values(|r: Region| r@)
    }

    /// The names of the candidates, in canonical order.
    pub closed spec fn candidate_names(&self) -> Seq<Seq<char>> {
        self.candidates.names()
    }

    /// The regions for which an office is reserved, one entry per office, in
    /// the order in which they were reserved.
    pub closed spec fn reserved(&self) -> Seq<Seq<char>> {
        self.reserved_offices.deep_view()
    }

    /// The ballots cast, by voter.
    pub closed spec fn ballot_map(&self) -> Map<u64, Map<Seq<char>, usize>> {
        self.ballots@.map_values(|b: Ballot| b@)
    }

    /// No more offices are reserved than there are offices, and the
    /// candidates and every ballot are held in canonical order.
    pub closed spec fn wf(&self) -> bool {
        &&& self.candidates.wf()
        &&& self.reserved_offices@.len() <= self.offices
        &&& forall|u: u64| #[trigger] self.ballots@.contains_key(u) ==> self.ballots@[u].wf()
    }

    /// The two elections agree on everything but the ballots.
    pub open spec fn same_setup(&self, other: Election) -> bool {
        &&& self.owner_id() == other.owner_id()
        &&& self.office_count() == other.office_count()
        &&& self.candidate_map() == other.candidate_map()
        &&& self.candidate_names() == other.candidate_names()
        &&& self.reserved() == other.reserved()
    }

    /// In a well-formed election the reservations fit the offices, and the
    /// candidate names are exactly the keys of the candidate map, ascending.
    pub proof fn lemma_wf(&self)
        requires
            self.wf(),
        ensures
            self.reserved().len() <= self.office_count(),
            crate::text::strictly_ascending(self.candidate_names()),
            forall|n: Seq<char>|
                self.candidate_names().contains(n) <==> #[trigger] self.candidate_map().contains_key(n),
    {
    }

    /// An election for `offices` offices, owned by `owner`, with no
    /// candidates, reservations or ballots yet.
    pub fn new(owner: u64, offices: usize) -> (e: Election)
        ensures
            e.wf(),
            e.owner_id() == owner,
            e.office_count() == offices,
            e.candidate_map() == Map::<Seq<char>, Seq<char>>::empty(),
            e.candidate_names() == Seq::<Seq<char>>::empty(),
            e.reserved() == Seq::<Seq<char>>::empty(),
            e.ballot_map() == Map::<u64, Map<Seq<char>, usize>>::empty(),
    {
        let e = Election {
            owner,
            offices,
            candidates: NameMap::new(),
            reserved_offices: Vec::new(),
            ballots: BTreeMap::new(),
        };
        assert(e.candidate_map() =~= Map::<Seq<char>, Seq<char>>::empty());
        assert(e.candidate_names() =~= Seq::<Seq<char>>::empty());
        assert(e.reserved() =~= Seq::<Seq<char>>::empty());
        assert(e.ballot_map() =~= Map::<u64, Map<Seq<char>, usize>>::empty());
        e
    }

    /// The identity of the election's creator.
    pub fn owner(&self) -> (o: &u64)
        ensures
            *o == self.owner_id(),
    {
        &self.owner
    }

    /// The number of offices to fill.
    pub fn offices(&self) -> (n: usize)
        ensures
            n == self.office_count(),
    {
        self.offices
    }

    /// The candidates with their regions, in canonical order of name.
    pub fn candidates(&self) -> (c: &NameMap<Region>)
        ensures
            c.names() == self.candidate_names(),
            c@.map_values(|r: Region| r@) == self.candidate_map(),
            self.wf() ==> c.wf(),
    {
        &self.candidates
    }

    /// The reserved offices, one region per office.
    pub fn reserved_offices(&self) -> (r: &Vec<Region>)
        ensures
            r.deep_view() == self.reserved(),
    {
        &self.reserved_offices
    }

    /// Reserves one more office for `region`, unless every office is
    /// reserved already; says whether it did.
    pub fn reserve_office(&mut self, region: Region) -> (reserved: bool)
        requires
            old(self).wf(),
        ensures
            final(self).wf(),
            reserved == (old(self).reserved().len() < old(self).office_count()),
            final(self).reserved() == (if reserved {
                old(self).reserved().push(region@)
            } else {
                old(self).reserved()
            }),
            final(self).owner_id() == old(self).owner_id(),
            final(self).office_count() == old(self).office_count(),
            final(self).candidate_map() == old(self).candidate_map(),
            final(self).candidate_names() == old(self).candidate_names(),
            final(self).ballot_map() == old(self).ballot_map(),
    {
        if self.reserved_offices.len() >= self.offices {
            false
        } else {
            self.reserved_offices.push(region);
            assert(self.reserved() =~= old(self).reserved().push(region@));
            true
        }
    }

    /// Adds the candidate `name` with `region`; a candidate of that name
    /// already present gets the new region.
    pub fn add_candidate(&mut self, name: Name, region: Region)
        requires
            old(self).wf(),
        ensures
            final(self).wf(),
            final(self).candidate_map() == old(self).candidate_map().insert(name@, region@),
            final(self).owner_id() == old(self).owner_id(),
            final(self).office_count() == old(self).office_count(),
            final(self).reserved() == old(self).reserved(),
            final(self).ballot_map() == old(self).ballot_map(),
    {
        self.candidates.insert(name, region);
        assert(self.candidate_map() =~= old(self).candidate_map().insert(name@, region@));
    }

    /// Whether `user` has a ballot in this election.
    pub fn has_ballot(&self, user: u64) -> (b: bool)
        ensures
            b == self.ballot_map().contains_key(user),
    {
        self.ballots.contains_key(&user)
    }

    /// The ballot of `user`, if there is one.
    pub fn ballot(&self, user: u64) -> (b: Option<&Ballot>)
        ensures
            match b {
                Some(b) => self.ballot_map().contains_key(user) && b@ == self.ballot_map()[user]
                    && (self.wf() ==> b.wf()),
                None => !self.ballot_map().contains_key(user),
            },
    {
        self.ballots.get(&user)
    }

    /// The voters who have a ballot in this election, each once.
    pub fn voters(&self) -> (voters: Vec<u64>)
        ensures
            forall|user: u64| voters@.contains(user) <==> #[trigger] self.ballot_map().contains_key(user),
            voters@.no_duplicates(),
    {
        let mut voters: Vec<u64> = Vec::new();
        let ghost items = self.ballots.iter().remaining();
        let ghost mut idx: int = 0;
        for kv in it: self.ballots.iter()
            invariant
                idx == it.index(),
                items == it.seq(),
                items == self.ballots.iter().remaining(),
                items.no_duplicates(),
                voters.len() == idx,
                forall|j: int| 0 <= j < idx ==> #[trigger] voters@[j] == *items[j].0,
        {
            proof {
                assert(items[idx] == kv);
                idx = idx + 1;
            }
            voters.push(*kv.0);
        }
        proof {
            assert(self.ballot_map().dom() =~= self.ballots@.dom());
            assert forall|a: int, b: int| 0 <= a < voters@.len() && 0 <= b < voters@.len() && a
                != b implies voters@[a] != voters@[b] by {
                if voters@[a] == voters@[b] {
                    assert(self.ballots@[*items[a].0] == *items[a].1);
                    assert(self.ballots@[*items[b].0] == *items[b].1);
                    assert(items[a] == items[b]);
                }
            }
            assert forall|user: u64| voters@.contains(user) <==> #[trigger] self.ballot_map().contains_key(
                user,
            ) by {
                if voters@.contains(user) {
                    let j = choose|j: int| 0 <= j < voters@.len() && voters@[j] == user;
                    assert(self.ballots@.contains_key(*items[j].0));
                }
                if self.ballots@.contains_key(user) {
                    assert(items.contains((&user, &self.ballots@[user])));
                    let j = choose|j: int|
                        0 <= j < items.len() && items[j] == (&user, &self.ballots@[user]);
                    assert(voters@[j] == user);
                }
            }
        }
        voters
    }

    /// The number of voters who have a ballot in this election.
    pub fn voter_count(&self) -> (n: usize)
        ensures
            n == self.ballot_map().len(),
    {
        assert(self.ballot_map().dom() =~= self.ballots@.dom());
        self.ballots.len()
    }

    /// Makes `ballot` the ballot of `user`, in place of any ballot they had.
    pub fn set_ballot(&mut self, user: u64, ballot: Ballot)
        requires
            old(self).wf(),
            ballot.wf(),
        ensures
            final(self).wf(),
            final(self).ballot_map() == old(self).ballot_map().insert(user, ballot@),
            final(self).owner_id() == old(self).owner_id(),
            final(self).office_count() == old(self).office_count(),
            final(self).candidate_map() == old(self).candidate_map(),
            final(self).candidate_names() == old(self).candidate_names(),
            final(self).reserved() == old(self).reserved(),
    {
        self.ballots.insert(user, ballot);
        assert(self.ballot_map() =~= old(self).ballot_map().insert(user, ballot@));
    }

    /// Removes the ballot of `user`, if there is one, and returns it.
    pub fn remove_ballot(&mut self, user: u64) -> (removed: Option<Ballot>)
        requires
            old(self).wf(),
        ensures
            final(self).wf(),
            final(self).ballot_map() == old(self).ballot_map().remove(user),
            match removed {
                Some(b) => old(self).ballot_map().contains_key(user) && b@ == old(
                    self,
                ).ballot_map()[user] && b.wf(),
                None => !old(self).ballot_map().contains_key(user),
            },
            final(self).owner_id() == old(self).owner_id(),
            final(self).office_count() == old(self).office_count(),
            final(self).candidate_map() == old(self).candidate_map(),
            final(self).candidate_names() == old(self).candidate_names(),
            final(self).reserved() == old(self).reserved(),
    {
        let removed = self.ballots.remove(&user);
        assert(self.ballot_map() =~= old(self).ballot_map().remove(user));
        removed
    }

    /// Records that `user` ranks `name` at `rank`, starting a ballot for
    /// them if they have none.
    pub fn vote(&mut self, user: u64, name: Name, rank: usize)
        requires
            old(self).wf(),
        ensures
            final(self).wf(),
            final(self).ballot_map() == old(self).ballot_map().insert(
                user,
                (if old(self).ballot_map().contains_key(user) {
                    old(self).ballot_map()[user]
                } else {
                    Map::<Seq<char>, usize>::empty()
                }).insert(name@, rank),
            ),
            final(self).owner_id() == old(self).owner_id(),
            final(self).office_count() == old(self).office_count(),
            final(self).candidate_map() == old(self).candidate_map(),
            final(self).candidate_names() == old(self).candidate_names(),
            final(self).reserved() == old(self).reserved(),
    {
        let mut ballot = match self.remove_ballot(user) {
            Some(b) => b,
            None => Ballot::new(),
        };
        ballot.set_rank(name, rank);
        self.set_ballot(user, ballot);
    }
    /// The winners of the walk over `results`, in the order in which they
    /// are seated: the walk starts with every reserved office open and with
    /// as many unreserved offices as the reservations leave.
    pub open spec fn walk(&self, results: Seq<(u128, Seq<char>)>) -> Seq<Seq<char>> {
        seated(
            self.candidate_map(),
            results,
            self.reserved().to_multiset(),
            (self.office_count() - self.reserved().len()) as nat,
        )
    }

    /// `winners` is what the walk over `results` comes to: the winners in
    /// canonical order where the walk fills every office, and `None` where
    /// it seats fewer candidates than there are offices.
    pub open spec fn is_outcome(
        &self,
        results: Seq<(u128, Seq<char>)>,
        winners: Option<Vec<Name>>,
    ) -> bool {
        match winners {
            Some(w) => {
                &&& self.walk(results).len() == self.office_count()
                &&& ascending(w.deep_view())
                &&& w.deep_view().to_multiset() == self.walk(results).to_multiset()
            },
            None => self.walk(results).len() < self.office_count(),
        }
    }

    /// What holds of every outcome: the winners are as many as there are
    /// offices, each is a candidate named in the results, and the winners
    /// from one region outnumber the offices reserved for it by no more
    /// than the number of unreserved offices.
    pub proof fn lemma_winners(
        &self,
        results: Seq<(u128, Seq<char>)>,
        winners: Vec<Name>,
        region: Seq<char>,
    )
        requires
            self.wf(),
            self.is_outcome(results, Some(winners)),
        ensures
            winners.len() == self.office_count(),
            region_count(self.candidate_map(), winners.deep_view(), region)
                <= self.reserved().to_multiset().count(region) + (self.office_count()
                - self.reserved().len()),
            forall|i: int|
                0 <= i < winners.len() ==> self.candidate_map().contains_key(
                    #[trigger] winners.deep_view()[i],
                ) && names_entry(results, winners.deep_view()[i]),
    {
        let unreserved = (self.office_count() - self.reserved().len()) as nat;
        let walk = self.walk(results);
        to_multiset_len(walk);
        to_multiset_len(winners.deep_view());
        lemma_seated_region_bound(
            self.candidate_map(),
            results,
            self.reserved().to_multiset(),
            unreserved,
            region,
        );
        lemma_region_count_permuted(self.candidate_map(), winners.deep_view(), walk, region);
        assert forall|i: int| 0 <= i < winners.len() implies self.candidate_map().contains_key(
            #[trigger] winners.deep_view()[i],
        ) && names_entry(results, winners.deep_view()[i]) by {
            to_multiset_contains(winners.deep_view(), winners.deep_view()[i]);
            to_multiset_contains(walk, winners.deep_view()[i]);
            let k = choose|k: int| 0 <= k < walk.len() && walk[k] == winners.deep_view()[i];
            lemma_seated_are_candidates(
                self.candidate_map(),
                results,
                self.reserved().to_multiset(),
                unreserved,
                k,
            );
        }
    }

    /// The offices cannot be filled exactly when fewer scored candidates
    /// fit an office than there are offices; more than the offices never
    /// fit.  The order of the results plays no part in it.
    pub proof fn lemma_infeasible(&self, results: Seq<(u128, Seq<char>)>)
        requires
            self.wf(),
        ensures
            self.is_outcome(results, None) <==> fitting(
                self.candidate_map(),
                results,
                self.reserved().to_multiset(),
                (self.office_count() - self.reserved().len()) as nat,
            ) < self.office_count(),
            fitting(
                self.candidate_map(),
                results,
                self.reserved().to_multiset(),
                (self.office_count() - self.reserved().len()) as nat,
            ) <= self.office_count(),
    {
        let unreserved = (self.office_count() - self.reserved().len()) as nat;
        lemma_seated_count(self.candidate_map(), results, self.reserved().to_multiset(), unreserved);
        lemma_seated_within_offices(
            self.candidate_map(),
            results,
            self.reserved().to_multiset(),
            unreserved,
        );
        to_multiset_len(self.reserved());
    }

    /// Walks `results` from its last entry (the highest score) to its first
    /// and seats each candidate in turn.  Returns the winners in canonical
    /// order when every office is filled, and `None` when the results run
    /// out first.
    pub fn assign(&self, results: Vec<(u128, Name)>) -> (winners: Option<Vec<Name>>)
        requires
            self.wf(),
        ensures
            self.is_outcome(results.deep_view(), winners),
    {
        let ghost all = results.deep_view();
        let mut pending = results;
        let mut remaining = clone_regions(&self.reserved_offices);
        let mut unreserved: usize = self.offices - self.reserved_offices.len();
        let mut officers: Vec<Name> = Vec::new();
        assert(officers.deep_view() + self.walk(all) =~= self.walk(all));
        while officers.len() < self.offices
            invariant
                self.wf(),
                all == results.deep_view(),
                officers.len() + remaining.len() + unreserved == self.offices,
                self.walk(all) == officers.deep_view() + seated(
                    self.candidate_map(),
                    pending.deep_view(),
                    remaining.deep_view().to_multiset(),
                    unreserved as nat,
                ),
            decreases pending.len(),
        {
            let ghost before = pending.deep_view();
            let ghost open = remaining.deep_view();
            let ghost taken = officers.deep_view();
            match pending.pop() {
                None => {
                    assert(before.len() == 0);
                    assert(taken + Seq::<Seq<char>>::empty() =~= taken);
                    assert(self.walk(all).len() == officers.len());
                    return None;
                },
                Some(entry) => {
                    let candidate = entry.1;
                    assert(pending.deep_view() =~= before.drop_last());
                    assert(before.last().1 == candidate@);
                    match self.candidates.get(&candidate) {
                        None => {},
                        Some(region) => {
                            proof {
                                to_multiset_contains(open, region@);
                            }
                            match position_of(&remaining, region) {
                                Some(ix) => {
                                    officers.push(candidate);
                                    remaining.remove(ix);
                                    proof {
                                        assert(remaining.deep_view() =~= open.remove(ix as int));
                                        to_multiset_remove(open, ix as int);
                                        assert(officers.deep_view() =~= taken.push(candidate@));
                                        let rest = seated(
                                            self.candidate_map(),
                                            pending.deep_view(),
                                            remaining.deep_view().to_multiset(),
                                            unreserved as nat,
                                        );
                                        assert(taken + (seq![candidate@] + rest) =~= taken.push(
                                            candidate@,
                                        ) + rest);
                                    }
                                },
                                None => {
                                    if unreserved > 0 {
                                        officers.push(candidate);
                                        unreserved -= 1;
                                        proof {
                                            assert(officers.deep_view() =~= taken.push(candidate@));
                                            let rest = seated(
                                                self.candidate_map(),
                                                pending.deep_view(),
                                                remaining.deep_view().to_multiset(),
                                                unreserved as nat,
                                            );
                                            assert(taken + (seq![candidate@] + rest)
                                                =~= taken.push(candidate@) + rest);
                                        }
                                    }
                                },
                            }
                        },
                    }
                },
            }
        }
        proof {
            to_multiset_len(remaining.deep_view());
            lemma_seated_none_left(
                self.candidate_map(),
                pending.deep_view(),
                remaining.deep_view().to_multiset(),
            );
            assert(officers.deep_view() + Seq::<Seq<char>>::empty() =~= officers.deep_view());
        }
        let winners = sort_texts(officers);
        assert(texts(winners@) =~= winners.deep_view());
        assert(texts(officers@) =~= officers.deep_view());
        Some(winners)
    }
    /// The scored candidates with their scores, in canonical order of name.
    /// A candidate is scored when at least one ballot ranks them, be it with
    /// rank 0; the score is the sum of their ranks over all ballots.
    pub fn scores(&self) -> (entries: Vec<(u128, Name)>)
        requires
            self.wf(),
        ensures
            is_tally_of(self.ballot_map(), entries.deep_view()),
            strictly_ascending(entries.deep_view().map_values(|e: (u128, Seq<char>)| e.1)),
    {
        let ghost all = self.ballot_map();
        let mut totals: NameMap<u128> = NameMap::new();
        let ghost items = self.ballots.iter().remaining();
        let ghost mut idx: int = 0;
        let ghost mut seen: Set<u64> = Set::empty();
        proof {
            assert(all.restrict(seen) =~= Map::empty());
            assert forall|n: Seq<char>| !ranked(all.restrict(seen), n) by {}
        }
        for kv in it: self.ballots.iter()
            invariant
                self.wf(),
                all == self.ballot_map(),
                idx == it.index(),
                items == it.seq(),
                items == self.ballots.iter().remaining(),
                items.no_duplicates(),
                forall|k: u64|
                    seen.contains(k) <==> exists|j: int|
                        0 <= j < idx && *(#[trigger] items[j]).0 == k,
                totals.wf(),
                forall|n: Seq<char>|
                    #[trigger] totals@.contains_key(n) <==> ranked(all.restrict(seen), n),
                forall|n: Seq<char>|
                    #[trigger] totals@.contains_key(n) ==> totals@[n] == score(
                        all.restrict(seen),
                        n,
                    ),
        {
            let voter = *kv.0;
            let votes = kv.1.votes();
            let ghost cast = all.restrict(seen);
            let ghost more = cast.insert(voter, votes@);
            let ghost start = totals@;
            let ghost names = votes.names();
            let ghost ranks = votes.values();
            proof {
                assert(items[idx] == kv);
                assert(self.ballots@.contains_key(voter) && self.ballots@[voter] == *kv.1);
                if seen.contains(voter) {
                    let j = choose|j: int| 0 <= j < idx && *(#[trigger] items[j]).0 == voter;
                    assert(self.ballots@[*items[j].0] == *items[j].1);
                    assert(items[j] == items[idx]);
                }
                assert(!cast.contains_key(voter));
                assert(all.restrict(seen.insert(voter)) =~= more);
                assert(cast.remove(voter) =~= cast);
            }
            let mut j: usize = 0;
            while j < votes.len()
                invariant
                    votes.wf(),
                    names == votes.names(),
                    ranks == votes.values(),
                    names.len() == ranks.len(),
                    j <= names.len(),
                    totals.wf(),
                    !cast.contains_key(voter),
                    more == cast.insert(voter, votes@),
                    forall|n: Seq<char>| #[trigger] start.contains_key(n) <==> ranked(cast, n),
                    forall|n: Seq<char>| #[trigger] start.contains_key(n) ==> start[n] == score(cast, n),
                    forall|n: Seq<char>|
                        #[trigger] totals@.contains_key(n) <==> start.contains_key(n) || in_prefix(
                            names,
                            j as int,
                            n,
                        ),
                    forall|n: Seq<char>|
                        #[trigger] totals@.contains_key(n) ==> totals@[n] == (if start.contains_key(n) {
                            start[n] as nat
                        } else {
                            0
                        }) + (if in_prefix(names, j as int, n) {
                            ranks[names.index_of(n)] as nat
                        } else {
                            0
                        }),
                decreases names.len() - j,
            {
                let name = votes.name_at(j);
                let rank = *votes.value_at(j);
                let ghost held = totals@;
                proof {
                    votes.lemma_entry(j as int);
                    crate::name_map::lemma_ascending_index_of(names, j as int);
                    if in_prefix(names, j as int, name@) {
                        let i = choose|i: int| 0 <= i < j && #[trigger] names[i] == name@;
                        lemma_text_lt_total(names[i], names[j as int]);
                    }
                    lemma_score_cast(cast, voter, votes@, name@);
                    lemma_score_fits(more, name@);
                    if !start.contains_key(name@) {
                        lemma_score_unranked(cast, name@);
                    }
                }
                let total: u128 = match totals.get(name) {
                    Some(sum) => *sum + rank as u128,
                    None => rank as u128,
                };
                totals.insert(name.clone(), total);
                proof {
                    assert forall|n: Seq<char>| in_prefix(names, j + 1, n) <==> (in_prefix(
                        names,
                        j as int,
                        n,
                    ) || n == name@) by {
                        if in_prefix(names, j + 1, n) {
                            let i = choose|i: int| 0 <= i < j + 1 && #[trigger] names[i] == n;
                            if i < j {
                                assert(in_prefix(names, j as int, n));
                            }
                        }
                        if in_prefix(names, j as int, n) {
                            let i = choose|i: int| 0 <= i < j && #[trigger] names[i] == n;
                            assert(0 <= i < j + 1 && names[i] == n);
                        }
                        if n == name@ {
                            assert(names[j as int] == n);
                        }
                    }
                }
                j += 1;
            }
            proof {
                assert forall|n: Seq<char>| #[trigger]
                    totals@.contains_key(n) <==> ranked(more, n) by {
                    lemma_score_cast(cast, voter, votes@, n);
                    if in_prefix(names, j as int, n) {
                        let i = choose|i: int| 0 <= i < j && #[trigger] names[i] == n;
                        votes.lemma_entry(i);
                    }
                    if votes@.contains_key(n) {
                        votes.lemma_key(n);
                        assert(names[names.index_of(n)] == n);
                    }
                }
                assert forall|n: Seq<char>| #[trigger] totals@.contains_key(n) implies totals@[n]
                    == score(more, n) by {
                    lemma_score_cast(cast, voter, votes@, n);
                    if in_prefix(names, j as int, n) {
                        let i = choose|i: int| 0 <= i < j && #[trigger] names[i] == n;
                        votes.lemma_entry(i);
                        crate::name_map::lemma_ascending_index_of(names, i);
                    } else if votes@.contains_key(n) {
                        votes.lemma_key(n);
                        assert(names[names.index_of(n)] == n);
                    }
                    if !start.contains_key(n) {
                        lemma_score_unranked(cast, n);
                    }
                }
                seen = seen.insert(voter);
                idx = idx + 1;
            }
        }
        proof {
            assert forall|k: u64| all.contains_key(k) implies seen.contains(k) by {
                assert(self.ballots@.contains_key(k));
                assert(items.contains((&k, &self.ballots@[k])));
                let j = choose|j: int| 0 <= j < items.len() && items[j] == (&k, &self.ballots@[k]);
                assert(*items[j].0 == k);
            }
            assert(all.restrict(seen) =~= all);
        }
        let mut entries: Vec<(u128, Name)> = Vec::new();
        let mut i: usize = 0;
        while i < totals.len()
            invariant
                i <= totals.names().len(),
                totals.names().len() == totals.values().len(),
                entries.len() == i,
                forall|k: int|
                    0 <= k < i ==> #[trigger] entries.deep_view()[k] == (
                        totals.values()[k],
                        totals.names()[k],
                    ),
            decreases totals.names().len() - i,
        {
            let ghost prefix = entries.deep_view();
            let total = *totals.value_at(i);
            let name = totals.name_at(i).clone();
            entries.push((total, name));
            assert(entries.deep_view() =~= prefix.push((total, name@)));
            i += 1;
        }
        proof {
            let listed = entries.deep_view();
            let names = listed.map_values(|e: (u128, Seq<char>)| e.1);
            assert(names =~= totals.names());
            assert forall|k: int| 0 <= k < listed.len() implies ranked(
                all,
                (#[trigger] listed[k]).1,
            ) && listed[k].0 == score(all, listed[k].1) by {
                totals.lemma_entry(k);
            }
            assert forall|a: int, b: int| 0 <= a < b < listed.len() implies (#[trigger] listed[a]).1
                != (#[trigger] listed[b]).1 by {
                assert(crate::text::text_lt(totals.names()[a], totals.names()[b]));
                lemma_text_lt_total(totals.names()[a], totals.names()[b]);
            }
            assert forall|n: Seq<char>| #[trigger] ranked(all, n) implies names_entry(listed, n) by {
                totals.lemma_key(n);
                assert(listed[totals.names().index_of(n)].1 == n);
            }
        }
        entries
    }

    /// The tally: the scored candidates by ascending score, with candidates
    /// of equal score in an order that a shuffle decides.
    pub fn tally(&self) -> (entries: Vec<(u128, Name)>)
        requires
            self.wf(),
        ensures
            is_tally_of(self.ballot_map(), entries.deep_view()),
            ascending_scores(entries.deep_view()),
    {
        let mut entries = self.scores();
        let ghost listed = entries.deep_view();
        shuffle(&mut entries);
        let ghost shuffled = entries.deep_view();
        let ordered = order_by_score(entries);
        proof {
            lemma_tally_permuted(self.ballot_map(), listed, shuffled);
            lemma_by_score(shuffled);
            lemma_tally_permuted(self.ballot_map(), shuffled, ordered.deep_view());
        }
        ordered
    }

    /// Tallies the ballots and seats the winners.  Which of the candidates
    /// with equal scores comes first is left to chance, so the contract
    /// speaks of some tally of the ballots.
    pub fn run(&self) -> (winners: Option<Vec<Name>>)
        requires
            self.wf(),
        ensures
            exists|results: Seq<(u128, Seq<char>)>|
                {
                    &&& is_tally_of(self.ballot_map(), results)
                    &&& ascending_scores(results)
                    &&& #[trigger] self.is_outcome(results, winners)
                },
    {
        let results = self.tally();
        let ghost tallied = results.deep_view();
        let winners = self.assign(results);
        assert(self.is_outcome(tallied, winners));
        winners
    }
}

/// `name` is among the first `count` of `names`.
pub open spec fn in_prefix(names: Seq<Seq<char>>, count: int, name: Seq<char>) -> bool {
    exists|i: int| 0 <= i < count && #[trigger] names[i] == name
}

} // verus!
