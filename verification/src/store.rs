//! The per-guild stores: elections by identifier and vote sessions in
//! progress by identifier, each with the counter that issues its identifiers.

use vstd::prelude::*;
use std::collections::HashMap;
use vstd::std_specs::iter::IteratorSpec;
use crate::actions::{ActionId, ElectionId, Target, VoteId};
use crate::clock::unix_now;
use crate::election::{Ballot, Election, Name};

verus! {

/// How long a vote session lives, in seconds.
pub const SESSION_SECONDS: i64 = 3600;

/// When a session that starts at `now` expires: an hour later, or at the
/// end of time where that comes first.
pub open spec fn expiry_after(now: i64) -> i64 {
    if now + SESSION_SECONDS > i64::MAX {
        i64::MAX
    } else {
        (now + SESSION_SECONDS) as i64
    }
}

/// Why a store could not resolve an election.
#[derive(Debug, Copy, Clone, PartialEq, Eq, Structural)]
pub enum StoreError {
    /// No election has the identifier.
    ElectionNotFound,
    /// No vote session has the identifier: it has ended or expired.
    SessionExpired,
}

/// A ballot that a voter is building, one candidate at a time.
#[derive(Debug)]
pub struct VoteInProgress {
    /// The voter.
    pub user: u64,
    /// The token under which replies to the voter are edited.
    pub token: String,
    /// The election voted in, named by its identifier.
    pub election: ElectionId,
    /// The message that shows the election and is refreshed at the end.
    pub election_message: u64,
    /// The ranks given so far.
    pub partial_ballot: Ballot,
    /// The session is dropped at the first sweep at or after this time.
    pub expires_at: i64,
}

impl VoteInProgress {
    /// The partial ballot is held in canonical order.
    pub open spec fn wf(&self) -> bool {
        self.partial_ballot.wf()
    }

    /// A session as `start` makes it at time `now`.
    pub open spec fn is_fresh(
        &self,
        election: ElectionId,
        user: u64,
        token: Seq<char>,
        election_message: u64,
        now: i64,
    ) -> bool {
        &&& self.user == user
        &&& self.token@ == token
        &&& self.election == election
        &&& self.election_message == election_message
        &&& self.partial_ballot@ == Map::<Seq<char>, usize>::empty()
        &&& self.expires_at == expiry_after(now)
    }

    /// Whether a sweep at `now` drops the session.
    pub open spec fn expired_at(&self, now: i64) -> bool {
        self.expires_at <= now
    }
}

/// The vote sessions in progress, by identifier.
#[derive(Debug)]
pub struct VoteMap {
    next_vote_id: VoteId,
    votes: HashMap<usize, VoteInProgress>,
}

/// The elections, by identifier.
#[derive(Debug)]
pub struct ElectionMap {
    next_election_id: ElectionId,
    elections: HashMap<usize, Election>,
}

/// `id` is among the first `count` of `ids`.
pub open spec fn among(ids: Seq<usize>, count: int, id: usize) -> bool {
    exists|k: int| 0 <= k < count && #[trigger] ids[k] == id
}

/// What is left of `sessions` after a sweep at `now`.
pub open spec fn unexpired(sessions: Map<usize, VoteInProgress>, now: i64) -> Map<
    usize,
    VoteInProgress,
> {
    Map::new(
        |id: usize| sessions.contains_key(id) && !sessions[id].expired_at(now),
        |id: usize| sessions[id],
    )
}

impl VoteMap {
    /// The number of the next identifier to be issued.
    pub closed spec fn next_id(&self) -> usize {
        self.next_vote_id.0
    }

    /// The sessions in progress, by the number of their identifier.
    pub closed spec fn sessions(&self) -> Map<usize, VoteInProgress> {
        self.votes@
    }

    /// Every session is well formed and has an identifier that was issued.
    pub open spec fn wf(&self) -> bool {
        forall|id: usize| #[trigger]
            self.sessions().contains_key(id) ==> self.sessions()[id].wf() && id < self.next_id()
    }

    /// A store with no sessions that issues identifiers from 0.
    pub fn new() -> (m: Self)
        ensures
            m.wf(),
            m.next_id() == 0,
            m.sessions() == Map::<usize, VoteInProgress>::empty(),
    {
        VoteMap { next_vote_id: VoteId(0), votes: HashMap::new() }
    }

    /// The identifier that `start` issues next.
    pub fn next_vote_id(&self) -> (id: VoteId)
        ensures
            id.0 == self.next_id(),
    {
        self.next_vote_id
    }

    /// The number of sessions in progress.
    pub fn len(&self) -> (n: usize)
        ensures
            n == self.sessions().len(),
    {
        self.votes.len()
    }

    /// Starts a session at time `now` for `user` in `election`: issues a
    /// new identifier and stores under it a session with an empty partial
    /// ballot that expires an hour later.
    pub fn start_at(
        &mut self,
        election: ElectionId,
        user: u64,
        token: String,
        election_message: u64,
        now: i64,
    ) -> (id: VoteId)
        requires
            old(self).wf(),
            old(self).next_id() < usize::MAX,
        ensures
            final(self).wf(),
            id.0 == old(self).next_id(),
            final(self).next_id() == old(self).next_id() + 1,
            !old(self).sessions().contains_key(id.0),
            final(self).sessions().contains_key(id.0),
            final(self).sessions()[id.0].is_fresh(election, user, token@, election_message, now),
            final(self).sessions().remove(id.0) == old(self).sessions(),
    {
        let vote_id = self.next_vote_id.next();
        let expires_at = if now > i64::MAX - SESSION_SECONDS {
            i64::MAX
        } else {
            now + SESSION_SECONDS
        };
        self.votes.insert(
            vote_id.0,
            VoteInProgress {
                user,
                token,
                election,
                election_message,
                partial_ballot: Ballot::new(),
                expires_at,
            },
        );
        assert(self.sessions().remove(vote_id.0) =~= old(self).sessions());
        vote_id
    }

    /// Starts a session now; see `start_at`.  The expiry depends on the
    /// clock, so the contract speaks of some time.
    pub fn start(&mut self, election: ElectionId, user: u64, token: String, election_message: u64) -> (id:
        VoteId)
        requires
            old(self).wf(),
            old(self).next_id() < usize::MAX,
        ensures
            final(self).wf(),
            id.0 == old(self).next_id(),
            final(self).next_id() == old(self).next_id() + 1,
            !old(self).sessions().contains_key(id.0),
            final(self).sessions().contains_key(id.0),
            exists|now: i64| #[trigger]
                final(self).sessions()[id.0].is_fresh(election, user, token@, election_message, now),
            final(self).sessions().remove(id.0) == old(self).sessions(),
    {
        let now = unix_now();
        self.start_at(election, user, token, election_message, now)
    }

    /// The session with identifier `vote`.
    pub fn get(&self, vote: VoteId) -> (r: Result<&VoteInProgress, StoreError>)
        ensures
            match r {
                Ok(session) => self.sessions().contains_key(vote.0) && *session
                    == self.sessions()[vote.0],
                Err(e) => e == StoreError::SessionExpired && !self.sessions().contains_key(vote.0),
            },
    {
        match self.votes.get(&vote.0) {
            Some(session) => Ok(session),
            None => Err(StoreError::SessionExpired),
        }
    }

    /// Removes the session with identifier `vote`, if there is one, and
    /// returns it.
    pub fn remove(&mut self, vote: VoteId) -> (removed: Option<VoteInProgress>)
        requires
            old(self).wf(),
        ensures
            final(self).wf(),
            final(self).next_id() == old(self).next_id(),
            final(self).sessions() == old(self).sessions().remove(vote.0),
            removed == (if old(self).sessions().contains_key(vote.0) {
                Some(old(self).sessions()[vote.0])
            } else {
                None
            }),
    {
        let removed = self.votes.remove(&vote.0);
        assert forall|id: usize| #[trigger] self.sessions().contains_key(id) implies self.sessions()[id].wf()
            && id < self.next_id() by {
            assert(old(self).sessions().contains_key(id));
        }
        removed
    }

    /// Records in the partial ballot of session `vote` that `name` gets
    /// `rank`.
    pub fn record(&mut self, vote: VoteId, name: Name, rank: usize) -> (r: Result<(), StoreError>)
        requires
            old(self).wf(),
        ensures
            final(self).wf(),
            final(self).next_id() == old(self).next_id(),
            match r {
                Ok(()) => {
                    &&& old(self).sessions().contains_key(vote.0)
                    &&& final(self).sessions().contains_key(vote.0)
                    &&& final(self).sessions().remove(vote.0) == old(self).sessions().remove(vote.0)
                    &&& final(self).sessions()[vote.0].is_same_session(old(self).sessions()[vote.0])
                    &&& final(self).sessions()[vote.0].partial_ballot@ == old(self).sessions()[vote.0].partial_ballot@.insert(name@, rank)
                },
                Err(e) => e == StoreError::SessionExpired && !old(self).sessions().contains_key(
                    vote.0,
                ) && final(self).sessions() == old(self).sessions(),
            },
    {
        match self.votes.remove(&vote.0) {
            Some(session) => {
                let mut session = session;
                assert(old(self).sessions().contains_key(vote.0));
                session.partial_ballot.set_rank(name, rank);
                self.votes.insert(vote.0, session);
                assert(self.sessions().remove(vote.0) =~= old(self).sessions().remove(vote.0));
                assert forall|id: usize| #[trigger] self.sessions().contains_key(id) implies self.sessions()[id].wf()
                    && id < self.next_id() by {
                    if id != vote.0 {
                        assert(old(self).sessions().contains_key(id));
                    }
                }
                Ok(())
            },
            None => {
                assert(self.sessions() =~= old(self).sessions());
                Err(StoreError::SessionExpired)
            },
        }
    }

    /// Drops every session that has expired at `now`: those whose expiry
    /// is at or before it.
    pub fn expire_at(&mut self, now: i64)
        requires
            old(self).wf(),
        ensures
            final(self).wf(),
            final(self).next_id() == old(self).next_id(),
            final(self).sessions() == unexpired(old(self).sessions(), now),
    {
        let ghost before = self.votes@;
        let mut expired: Vec<usize> = Vec::new();
        let ghost items = self.votes.iter().remaining();
        let ghost mut idx: int = 0;
        for kv in it: self.votes.iter()
            invariant
                idx == it.index(),
                items == it.seq(),
                items == self.votes.iter().remaining(),
                before == self.votes@,
                forall|i: int|
                    0 <= i < expired.len() ==> before.contains_key(#[trigger] expired@[i])
                        && before[expired@[i]].expired_at(now),
                forall|j: int|
                    0 <= j < idx && (#[trigger] items[j]).1.expired_at(now) ==> expired@.contains(
                        *items[j].0,
                    ),
        {
            proof {
                assert(items[idx] == kv);
                assert(before.contains_key(*kv.0) && before[*kv.0] == *kv.1);
            }
            let ghost listed = expired@;
            if kv.1.expires_at <= now {
                expired.push(*kv.0);
                proof {
                    assert(expired@[listed.len() as int] == *kv.0);
                    assert forall|j: int|
                        0 <= j < idx + 1 && (#[trigger] items[j]).1.expired_at(
                            now,
                        ) implies expired@.contains(*items[j].0) by {
                        if j < idx {
                            let i = choose|i: int| 0 <= i < listed.len() && listed[i] == *items[j].0;
                            assert(expired@[i] == *items[j].0);
                        }
                    }
                }
            }
            proof {
                idx = idx + 1;
            }
        }
        proof {
            assert forall|id: usize| before.contains_key(id) && before[id].expired_at(
                now,
            ) implies expired@.contains(id) by {
                assert(items.contains((&id, &before[id])));
                let j = choose|j: int| 0 <= j < items.len() && items[j] == (&id, &before[id]);
                assert(items[j].1.expired_at(now));
            }
        }
        let mut i: usize = 0;
        while i < expired.len()
            invariant
                i <= expired.len(),
                self.next_vote_id == old(self).next_vote_id,
                before == old(self).votes@,
                forall|k: int|
                    0 <= k < expired.len() ==> before.contains_key(#[trigger] expired@[k])
                        && before[expired@[k]].expired_at(now),
                forall|id: usize| #[trigger]
                    before.contains_key(id) && before[id].expired_at(now) ==> expired@.contains(id),
                forall|id: usize| #[trigger]
                    self.votes@.contains_key(id) <==> before.contains_key(id) && !among(
                        expired@,
                        i as int,
                        id,
                    ),
                forall|id: usize| #[trigger] self.votes@.contains_key(id) ==> self.votes@[id] == before[id],
            decreases expired.len() - i,
        {
            let ghost held = self.votes@;
            self.votes.remove(&expired[i]);
            proof {
                let gone = expired@[i as int];
                assert(self.votes@ == held.remove(gone));
                assert forall|id: usize| among(expired@, i + 1, id) <==> among(expired@, i as int, id)
                    || id == gone by {
                    if among(expired@, i + 1, id) {
                        let k = choose|k: int| 0 <= k < i + 1 && #[trigger] expired@[k] == id;
                        if k < i {
                            assert(among(expired@, i as int, id));
                        }
                    }
                    if among(expired@, i as int, id) {
                        let k = choose|k: int| 0 <= k < i && #[trigger] expired@[k] == id;
                        assert(0 <= k < i + 1 && expired@[k] == id);
                    }
                    if id == gone {
                        assert(expired@[i as int] == id);
                    }
                }
                assert forall|id: usize| #[trigger]
                    self.votes@.contains_key(id) <==> before.contains_key(id) && !among(
                        expired@,
                        i + 1,
                        id,
                    ) by {
                    assert(held.contains_key(id) <==> before.contains_key(id) && !among(
                        expired@,
                        i as int,
                        id,
                    ));
                }
            }
            i += 1;
        }
        proof {
            assert forall|id: usize| among(expired@, i as int, id) <==> expired@.contains(id) by {
                if among(expired@, i as int, id) {
                    let k = choose|k: int| 0 <= k < i && #[trigger] expired@[k] == id;
                    assert(expired@[k] == id);
                }
                if expired@.contains(id) {
                    let k = choose|k: int| 0 <= k < expired@.len() && expired@[k] == id;
                    assert(0 <= k < i && expired@[k] == id);
                }
            }
            assert forall|id: usize| #[trigger]
                self.sessions().contains_key(id) <==> unexpired(
                    old(self).sessions(),
                    now,
                ).contains_key(id) by {
                if before.contains_key(id) && !before[id].expired_at(now) && expired@.contains(id) {
                    let k = choose|k: int| 0 <= k < expired@.len() && expired@[k] == id;
                    assert(before[expired@[k]].expired_at(now));
                }
            }
            assert(self.sessions() =~= unexpired(old(self).sessions(), now));
            assert forall|id: usize| #[trigger] self.sessions().contains_key(id) implies self.sessions()[id].wf()
                && id < self.next_id() by {
                assert(old(self).sessions().contains_key(id));
            }
        }
    }

    /// Drops every session that has expired by now; see `expire_at`.  What
    /// is dropped depends on the clock, so the contract speaks of some time.
    pub fn expire(&mut self)
        requires
            old(self).wf(),
        ensures
            final(self).wf(),
            final(self).next_id() == old(self).next_id(),
            exists|now: i64| final(self).sessions() == #[trigger] unexpired(old(self).sessions(), now),
    {
        let now = unix_now();
        self.expire_at(now);
    }
}

impl VoteInProgress {
    /// The two are one session, but perhaps for the partial ballot.
    pub open spec fn is_same_session(&self, other: VoteInProgress) -> bool {
        &&& self.user == other.user
        &&& self.token == other.token
        &&& self.election == other.election
        &&& self.election_message == other.election_message
        &&& self.expires_at == other.expires_at
    }
}

/// The election that `target` leads to: the election itself, or the
/// election of the vote session.  A missing session is told apart from a
/// missing election.
pub open spec fn resolved(
    target: Target,
    elections: Map<usize, Election>,
    sessions: Map<usize, VoteInProgress>,
) -> Result<usize, StoreError> {
    match target {
        Target::Election(id) => if elections.contains_key(id.0) {
            Ok(id.0)
        } else {
            Err(StoreError::ElectionNotFound)
        },
        Target::Vote(id) => if !sessions.contains_key(id.0) {
            Err(StoreError::SessionExpired)
        } else if elections.contains_key(sessions[id.0].election.0) {
            Ok(sessions[id.0].election.0)
        } else {
            Err(StoreError::ElectionNotFound)
        },
    }
}

impl ElectionMap {
    /// The number of the next identifier to be issued.
    pub closed spec fn next_id(&self) -> usize {
        self.next_election_id.0
    }

    /// The elections, by the number of their identifier.
    pub closed spec fn elections(&self) -> Map<usize, Election> {
        self.elections@
    }

    /// Every election is well formed and has an identifier that was issued.
    pub open spec fn wf(&self) -> bool {
        forall|id: usize| #[trigger]
            self.elections().contains_key(id) ==> self.elections()[id].wf() && id < self.next_id()
    }

    /// A store with no elections that issues identifiers from 0.
    pub fn new() -> (m: Self)
        ensures
            m.wf(),
            m.next_id() == 0,
            m.elections() == Map::<usize, Election>::empty(),
    {
        ElectionMap { next_election_id: ElectionId(0), elections: HashMap::new() }
    }

    /// The identifier that `insert` issues next.
    pub fn next_election_id(&self) -> (id: ElectionId)
        ensures
            id.0 == self.next_id(),
    {
        self.next_election_id
    }

    /// The number of elections.
    pub fn len(&self) -> (n: usize)
        ensures
            n == self.elections().len(),
    {
        self.elections.len()
    }

    /// Stores `election` under a newly issued identifier.
    pub fn insert(&mut self, election: Election) -> (id: ElectionId)
        requires
            old(self).wf(),
            election.wf(),
            old(self).next_id() < usize::MAX,
        ensures
            final(self).wf(),
            id.0 == old(self).next_id(),
            final(self).next_id() == old(self).next_id() + 1,
            !old(self).elections().contains_key(id.0),
            final(self).elections() == old(self).elections().insert(id.0, election),
    {
        let id = self.next_election_id.next();
        self.elections.insert(id.0, election);
        assert forall|k: usize| #[trigger] self.elections().contains_key(k) implies self.elections()[k].wf()
            && k < self.next_id() by {
            if k != id.0 {
                assert(old(self).elections().contains_key(k));
            }
        }
        assert(!old(self).elections().contains_key(id.0)) by {
            if old(self).elections().contains_key(id.0) {
                assert(id.0 < old(self).next_id());
            }
        }
        id
    }

    /// The identifier of the election that `id` leads to.
    pub fn resolve<ID: ActionId>(&self, id: &ID, vote_map: &VoteMap) -> (r: Result<
        ElectionId,
        StoreError,
    >)
        ensures
            match r {
                Ok(election) => resolved(id.target(), self.elections(), vote_map.sessions()) == Ok::<
                    usize,
                    StoreError,
                >(election.0),
                Err(e) => resolved(id.target(), self.elections(), vote_map.sessions()) == Err::<
                    usize,
                    StoreError,
                >(e),
            },
    {
        let election = match id.get_id() {
            Target::Election(election_id) => election_id,
            Target::Vote(vote_id) => match vote_map.get(vote_id) {
                Ok(session) => session.election,
                Err(e) => {
                    return Err(e);
                },
            },
        };
        if self.elections.contains_key(&election.0) {
            Ok(election)
        } else {
            Err(StoreError::ElectionNotFound)
        }
    }

    /// The election that `id` leads to.
    pub fn get<ID: ActionId>(&self, id: ID, vote_map: &VoteMap) -> (r: Result<&Election, StoreError>)
        ensures
            match r {
                Ok(election) => {
                    &&& resolved(id.target(), self.elections(), vote_map.sessions()) is Ok
                    &&& *election == self.elections()[resolved(
                        id.target(),
                        self.elections(),
                        vote_map.sessions(),
                    )->Ok_0]
                },
                Err(e) => resolved(id.target(), self.elections(), vote_map.sessions()) == Err::<
                    usize,
                    StoreError,
                >(e),
            },
    {
        let election = match self.resolve(&id, vote_map) {
            Ok(election) => election,
            Err(e) => {
                return Err(e);
            },
        };
        match self.elections.get(&election.0) {
            Some(found) => Ok(found),
            None => Err(StoreError::ElectionNotFound),
        }
    }

    /// Makes `ballot` the ballot of `user` in election `id`, in place of
    /// any ballot they had there.
    pub fn set_ballot(&mut self, id: ElectionId, user: u64, ballot: Ballot) -> (r: Result<
        (),
        StoreError,
    >)
        requires
            old(self).wf(),
            ballot.wf(),
        ensures
            final(self).wf(),
            final(self).next_id() == old(self).next_id(),
            final(self).elections().dom() == old(self).elections().dom(),
            forall|other: usize|
                other != id.0 && #[trigger] old(self).elections().contains_key(other) ==> final(self).elections()[other] == old(self).elections()[other],
            match r {
                Ok(()) => {
                    &&& old(self).elections().contains_key(id.0)
                    &&& final(self).elections()[id.0].same_setup(old(self).elections()[id.0])
                    &&& final(self).elections()[id.0].ballot_map() == old(self).elections()[id.0].ballot_map().insert(user, ballot@)
                },
                Err(e) => e == StoreError::ElectionNotFound && !old(self).elections().contains_key(
                    id.0,
                ) && final(self).elections() == old(self).elections(),
            },
    {
        match self.elections.remove(&id.0) {
            Some(election) => {
                let mut election = election;
                assert(old(self).elections().contains_key(id.0));
                election.set_ballot(user, ballot);
                self.elections.insert(id.0, election);
                assert(self.elections().dom() =~= old(self).elections().dom());
                assert forall|k: usize| #[trigger] self.elections().contains_key(k) implies self.elections()[k].wf()
                    && k < self.next_id() by {
                    assert(old(self).elections().contains_key(k));
                }
                Ok(())
            },
            None => {
                assert(self.elections() =~= old(self).elections());
                Err(StoreError::ElectionNotFound)
            },
        }
    }

    /// Removes the ballot of `user` from election `id`, and returns it.
    pub fn remove_ballot(&mut self, id: ElectionId, user: u64) -> (r: Result<
        Option<Ballot>,
        StoreError,
    >)
        requires
            old(self).wf(),
        ensures
            final(self).wf(),
            final(self).next_id() == old(self).next_id(),
            final(self).elections().dom() == old(self).elections().dom(),
            forall|other: usize|
                other != id.0 && #[trigger] old(self).elections().contains_key(other) ==> final(self).elections()[other] == old(self).elections()[other],
            match r {
                Ok(removed) => {
                    &&& old(self).elections().contains_key(id.0)
                    &&& final(self).elections()[id.0].same_setup(old(self).elections()[id.0])
                    &&& final(self).elections()[id.0].ballot_map() == old(self).elections()[id.0].ballot_map().remove(user)
                    &&& match removed {
                        Some(b) => old(self).elections()[id.0].ballot_map().contains_key(user)
                            && b@ == old(self).elections()[id.0].ballot_map()[user] && b.wf(),
                        None => !old(self).elections()[id.0].ballot_map().contains_key(user),
                    }
                },
                Err(e) => e == StoreError::ElectionNotFound && !old(self).elections().contains_key(
                    id.0,
                ) && final(self).elections() == old(self).elections(),
            },
    {
        match self.elections.remove(&id.0) {
            Some(election) => {
                let mut election = election;
                assert(old(self).elections().contains_key(id.0));
                let removed = election.remove_ballot(user);
                self.elections.insert(id.0, election);
                assert(self.elections().dom() =~= old(self).elections().dom());
                assert forall|k: usize| #[trigger] self.elections().contains_key(k) implies self.elections()[k].wf()
                    && k < self.next_id() by {
                    assert(old(self).elections().contains_key(k));
                }
                Ok(removed)
            },
            None => {
                assert(self.elections() =~= old(self).elections());
                Err(StoreError::ElectionNotFound)
            },
        }
    }
}

impl VoteMap {
    /// Takes the partial ballot out of session `vote`, leaving an empty one.
    pub fn take_ballot(&mut self, vote: VoteId) -> (r: Result<(u64, Ballot), StoreError>)
        requires
            old(self).wf(),
        ensures
            final(self).wf(),
            final(self).next_id() == old(self).next_id(),
            match r {
                Ok((user, ballot)) => {
                    &&& old(self).sessions().contains_key(vote.0)
                    &&& user == old(self).sessions()[vote.0].user
                    &&& ballot@ == old(self).sessions()[vote.0].partial_ballot@
                    &&& ballot.wf()
                    &&& final(self).sessions().contains_key(vote.0)
                    &&& final(self).sessions().remove(vote.0) == old(self).sessions().remove(vote.0)
                    &&& final(self).sessions()[vote.0].is_same_session(old(self).sessions()[vote.0])
                    &&& final(self).sessions()[vote.0].partial_ballot@ == Map::<
                        Seq<char>,
                        usize,
                    >::empty()
                },
                Err(e) => e == StoreError::SessionExpired && !old(self).sessions().contains_key(
                    vote.0,
                ) && final(self).sessions() == old(self).sessions(),
            },
    {
        match self.votes.remove(&vote.0) {
            Some(session) => {
                assert(old(self).sessions().contains_key(vote.0));
                let VoteInProgress {
                    user,
                    token,
                    election,
                    election_message,
                    partial_ballot,
                    expires_at,
                } = session;
                self.votes.insert(
                    vote.0,
                    VoteInProgress {
                        user,
                        token,
                        election,
                        election_message,
                        partial_ballot: Ballot::new(),
                        expires_at,
                    },
                );
                assert(self.sessions().remove(vote.0) =~= old(self).sessions().remove(vote.0));
                assert forall|id: usize| #[trigger] self.sessions().contains_key(id) implies self.sessions()[id].wf()
                    && id < self.next_id() by {
                    if id != vote.0 {
                        assert(old(self).sessions().contains_key(id));
                    }
                }
                Ok((user, partial_ballot))
            },
            None => {
                assert(self.sessions() =~= old(self).sessions());
                Err(StoreError::SessionExpired)
            },
        }
    }

    /// Makes the partial ballot of session `vote` the ballot of the
    /// session's voter in the session's election, in place of any ballot
    /// they had there; the session is left with an empty partial ballot.
    /// Nothing changes where the session or its election is missing.
    pub fn save_ballot(&mut self, vote: VoteId, elections: &mut ElectionMap) -> (r: Result<
        (),
        StoreError,
    >)
        requires
            old(self).wf(),
            old(elections).wf(),
        ensures
            final(self).wf(),
            final(elections).wf(),
            final(self).next_id() == old(self).next_id(),
            final(elections).next_id() == old(elections).next_id(),
            match r {
                Ok(()) => {
                    let session = old(self).sessions()[vote.0];
                    let id = session.election.0;
                    &&& resolved(Target::Vote(vote), old(elections).elections(), old(self).sessions())
                        == Ok::<usize, StoreError>(id)
                    &&& final(self).sessions().contains_key(vote.0)
                    &&& final(self).sessions().remove(vote.0) == old(self).sessions().remove(vote.0)
                    &&& final(self).sessions()[vote.0].is_same_session(session)
                    &&& final(self).sessions()[vote.0].partial_ballot@ == Map::<
                        Seq<char>,
                        usize,
                    >::empty()
                    &&& final(elections).elections().dom() == old(elections).elections().dom()
                    &&& forall|other: usize|
                        other != id && #[trigger] old(elections).elections().contains_key(other)
                            ==> final(elections).elections()[other] == old(elections).elections()[other]
                    &&& final(elections).elections()[id].same_setup(old(elections).elections()[id])
                    &&& final(elections).elections()[id].ballot_map() == old(elections).elections()[id].ballot_map().insert(session.user, session.partial_ballot@)
                },
                Err(e) => {
                    &&& resolved(Target::Vote(vote), old(elections).elections(), old(self).sessions())
                        == Err::<usize, StoreError>(e)
                    &&& final(self).sessions() == old(self).sessions()
                    &&& final(elections).elections() == old(elections).elections()
                },
            },
    {
        let election = match elections.resolve(&vote, self) {
            Ok(election) => election,
            Err(e) => {
                return Err(e);
            },
        };
        match self.take_ballot(vote) {
            Ok((user, ballot)) => {
                match elections.set_ballot(election, user, ballot) {
                    Ok(()) => Ok(()),
                    Err(e) => Err(e),
                }
            },
            Err(e) => Err(e),
        }
    }
}

/// Where of the sessions `sessions` a sweep at `now` leaves which.
pub proof fn lemma_sweep(sessions: Map<usize, VoteInProgress>, now: i64, id: usize)
    requires
        sessions.contains_key(id),
    ensures
        sessions[id].expires_at <= now ==> !unexpired(sessions, now).contains_key(id),
        sessions[id].expires_at > now ==> unexpired(sessions, now).contains_key(id) && unexpired(
            sessions,
            now,
        )[id] == sessions[id],
{
}

/// Whether every key of `entries` is below `bound`.
fn keys_below<T>(entries: &HashMap<usize, T>, bound: usize) -> (r: bool)
    ensures
        r == forall|id: usize| #[trigger] entries@.contains_key(id) ==> id < bound,
{
    let ghost items = entries.iter().remaining();
    let ghost mut idx: int = 0;
    for kv in it: entries.iter()
        invariant
            idx == it.index(),
            items == it.seq(),
            items == entries.iter().remaining(),
            forall|j: int| 0 <= j < idx ==> *(#[trigger] items[j]).0 < bound,
    {
        proof {
            assert(items[idx] == kv);
            assert(entries@.contains_key(*kv.0));
        }
        if *kv.0 >= bound {
            return false;
        }
        proof {
            idx = idx + 1;
        }
    }
    proof {
        assert forall|id: usize| #[trigger] entries@.contains_key(id) implies id < bound by {
            assert(items.contains((&id, &entries@[id])));
            let j = choose|j: int| 0 <= j < items.len() && items[j] == (&id, &entries@[id]);
            assert(*items[j].0 == id);
        }
    }
    true
}

impl ElectionMap {
    /// The store with these parts.
    pub closed spec fn of_parts(next: ElectionId, elections: HashMap<usize, Election>) -> Self {
        ElectionMap { next_election_id: next, elections }
    }

    /// What `of_parts` holds.
    pub broadcast proof fn lemma_of_parts(next: ElectionId, elections: HashMap<usize, Election>)
        ensures
            (#[trigger] Self::of_parts(next, elections)).next_id() == next.0,
            Self::of_parts(next, elections).elections() == elections@,
    {
    }

    /// The store with these parts, which must fit together.
    pub fn from_parts(next: ElectionId, elections: HashMap<usize, Election>) -> (m: Self)
        requires
            forall|id: usize| #[trigger]
                elections@.contains_key(id) ==> elections@[id].wf() && id < next.0,
        ensures
            m == Self::of_parts(next, elections),
            m.wf(),
            m.next_id() == next.0,
            m.elections() == elections@,
    {
        ElectionMap { next_election_id: next, elections }
    }

    /// The store with these parts, if every identifier in use is one that
    /// the counter has issued.
    pub fn restore(next: ElectionId, elections: HashMap<usize, Election>) -> (r: Option<Self>)
        requires
            forall|id: usize| #[trigger] elections@.contains_key(id) ==> elections@[id].wf(),
        ensures
            r is Some <==> forall|id: usize| #[trigger] elections@.contains_key(id) ==> id < next.0,
            r matches Some(m) ==> m == Self::of_parts(next, elections) && m.wf() && m.next_id()
                == next.0 && m.elections() == elections@,
    {
        if keys_below(&elections, next.0) {
            Some(Self::from_parts(next, elections))
        } else {
            None
        }
    }

    /// The counter and the elections.
    pub fn into_parts(self) -> (parts: (ElectionId, HashMap<usize, Election>))
        ensures
            parts.0.0 == self.next_id(),
            parts.1@ == self.elections(),
            self == Self::of_parts(parts.0, parts.1),
    {
        (self.next_election_id, self.elections)
    }

    /// The numbers of the elections' identifiers, each once.
    pub fn ids(&self) -> (ids: Vec<usize>)
        ensures
            forall|id: usize| ids@.contains(id) <==> #[trigger] self.elections().contains_key(id),
            ids@.no_duplicates(),
    {
        key_list(&self.elections)
    }
}

impl VoteMap {
    /// The store with these parts.
    pub closed spec fn of_parts(next: VoteId, votes: HashMap<usize, VoteInProgress>) -> Self {
        VoteMap { next_vote_id: next, votes }
    }

    /// What `of_parts` holds.
    pub broadcast proof fn lemma_of_parts(next: VoteId, votes: HashMap<usize, VoteInProgress>)
        ensures
            (#[trigger] Self::of_parts(next, votes)).next_id() == next.0,
            Self::of_parts(next, votes).sessions() == votes@,
    {
    }

    /// The store with these parts, which must fit together.
    pub fn from_parts(next: VoteId, votes: HashMap<usize, VoteInProgress>) -> (m: Self)
        requires
            forall|id: usize| #[trigger] votes@.contains_key(id) ==> votes@[id].wf() && id < next.0,
        ensures
            m == Self::of_parts(next, votes),
            m.wf(),
            m.next_id() == next.0,
            m.sessions() == votes@,
    {
        VoteMap { next_vote_id: next, votes }
    }

    /// The store with these parts, if every identifier in use is one that
    /// the counter has issued.
    pub fn restore(next: VoteId, votes: HashMap<usize, VoteInProgress>) -> (r: Option<Self>)
        requires
            forall|id: usize| #[trigger] votes@.contains_key(id) ==> votes@[id].wf(),
        ensures
            r is Some <==> forall|id: usize| #[trigger] votes@.contains_key(id) ==> id < next.0,
            r matches Some(m) ==> m == Self::of_parts(next, votes) && m.wf() && m.next_id()
                == next.0 && m.sessions() == votes@,
    {
        if keys_below(&votes, next.0) {
            Some(Self::from_parts(next, votes))
        } else {
            None
        }
    }

    /// The counter and the sessions.
    pub fn into_parts(self) -> (parts: (VoteId, HashMap<usize, VoteInProgress>))
        ensures
            parts.0.0 == self.next_id(),
            parts.1@ == self.sessions(),
            self == Self::of_parts(parts.0, parts.1),
    {
        (self.next_vote_id, self.votes)
    }

    /// The numbers of the sessions' identifiers, each once.
    pub fn ids(&self) -> (ids: Vec<usize>)
        ensures
            forall|id: usize| ids@.contains(id) <==> #[trigger] self.sessions().contains_key(id),
            ids@.no_duplicates(),
    {
        key_list(&self.votes)
    }
}

/// The keys of `entries`, each once.
fn key_list<T>(entries: &HashMap<usize, T>) -> (keys: Vec<usize>)
    ensures
        forall|id: usize| keys@.contains(id) <==> #[trigger] entries@.contains_key(id),
        keys@.no_duplicates(),
{
    let mut keys: Vec<usize> = Vec::new();
    let ghost items = entries.iter().remaining();
    let ghost mut idx: int = 0;
    for kv in it: entries.iter()
        invariant
            idx == it.index(),
            items == it.seq(),
            items == entries.iter().remaining(),
            items.no_duplicates(),
            keys.len() == idx,
            forall|j: int| 0 <= j < idx ==> #[trigger] keys@[j] == *items[j].0,
    {
        proof {
            assert(items[idx] == kv);
            idx = idx + 1;
        }
        keys.push(*kv.0);
    }
    proof {
        assert forall|a: int, b: int| 0 <= a < keys@.len() && 0 <= b < keys@.len() && a
            != b implies keys@[a] != keys@[b] by {
            if keys@[a] == keys@[b] {
                assert(entries@[*items[a].0] == *items[a].1);
                assert(entries@[*items[b].0] == *items[b].1);
                assert(items[a] == items[b]);
            }
        }
        assert forall|id: usize| keys@.contains(id) <==> #[trigger] entries@.contains_key(id) by {
            if keys@.contains(id) {
                let j = choose|j: int| 0 <= j < keys@.len() && keys@[j] == id;
                assert(entries@.contains_key(*items[j].0));
            }
            if entries@.contains_key(id) {
                assert(items.contains((&id, &entries@[id])));
                let j = choose|j: int| 0 <= j < items.len() && items[j] == (&id, &entries@[id]);
                assert(keys@[j] == id);
            }
        }
    }
    keys
}

} // verus!
