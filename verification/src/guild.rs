//! What is kept for one guild: its elections and its vote sessions, in the
//! shape of the latest version or of an earlier one.

use vstd::prelude::*;
use std::collections::HashMap;
use crate::actions::{ElectionId, VoteId};
use crate::data::Migrate;
use crate::election::Election;
use crate::clock::unix_now;
use crate::store::{unexpired, ElectionMap, VoteInProgress, VoteMap};

verus! {

/// The first shape: counters and maps side by side.
#[derive(Debug)]
pub struct V1Elections {
    next_election_id: ElectionId,
    elections: HashMap<usize, Election>,
    next_vote_id: VoteId,
    votes_in_progress: HashMap<usize, VoteInProgress>,
}

/// The latest shape: a store of elections and a store of vote sessions.
#[derive(Debug)]
pub struct V2Elections {
    pub elections: ElectionMap,
    pub votes: VoteMap,
}

/// A guild's data in the shape of some version.
#[derive(Debug)]
pub enum Elections {
    V1(V1Elections),
    V2(V2Elections),
}

impl V2Elections {
    /// Both stores are well formed.
    pub open spec fn wf(&self) -> bool {
        self.elections.wf() && self.votes.wf()
    }

    /// A guild with no elections and no sessions.
    pub fn new() -> (g: Self)
        ensures
            g.wf(),
            g.elections.next_id() == 0,
            g.votes.next_id() == 0,
            g.elections.elections() == Map::<usize, Election>::empty(),
            g.votes.sessions() == Map::<usize, VoteInProgress>::empty(),
    {
        V2Elections { elections: ElectionMap::new(), votes: VoteMap::new() }
    }
}

impl Default for V2Elections {
    fn default() -> (g: Self)
        ensures
            g.wf(),
            g.elections.next_id() == 0,
            g.votes.next_id() == 0,
            g.elections.elections() == Map::<usize, Election>::empty(),
            g.votes.sessions() == Map::<usize, VoteInProgress>::empty(),
    {
        V2Elections::new()
    }
}

impl V1Elections {
    /// Every election and session is well formed and has an identifier that
    /// its counter has issued.
    pub closed spec fn wf(&self) -> bool {
        &&& forall|id: usize| #[trigger]
            self.elections@.contains_key(id) ==> self.elections@[id].wf() && id
                < self.next_election_id.0
        &&& forall|id: usize| #[trigger]
            self.votes_in_progress@.contains_key(id) ==> self.votes_in_progress@[id].wf() && id
                < self.next_vote_id.0
    }

    /// The same data in the latest shape: counters and maps carried over
    /// as they are.
    pub closed spec fn upgraded(&self) -> V2Elections {
        V2Elections {
            elections: ElectionMap::of_parts(self.next_election_id, self.elections),
            votes: VoteMap::of_parts(self.next_vote_id, self.votes_in_progress),
        }
    }

    /// The parts of the data in the latest shape are the parts of this.
    pub proof fn lemma_upgraded(&self)
        requires
            self.wf(),
        ensures
            self.upgraded().wf(),
    {
        broadcast use ElectionMap::lemma_of_parts, VoteMap::lemma_of_parts;

    }

    /// Data in the first shape from its parts, if every identifier in use
    /// is one that its counter has issued.
    pub fn restore(
        next_election_id: ElectionId,
        elections: HashMap<usize, Election>,
        next_vote_id: VoteId,
        votes_in_progress: HashMap<usize, VoteInProgress>,
    ) -> (r: Option<Self>)
        requires
            forall|id: usize| #[trigger] elections@.contains_key(id) ==> elections@[id].wf(),
            forall|id: usize| #[trigger]
                votes_in_progress@.contains_key(id) ==> votes_in_progress@[id].wf(),
        ensures
            r is Some <==> (forall|id: usize| #[trigger]
                elections@.contains_key(id) ==> id < next_election_id.0) && (forall|id: usize|
                #[trigger] votes_in_progress@.contains_key(id) ==> id < next_vote_id.0),
            r matches Some(v1) ==> v1.wf() && v1.upgraded().elections.elections() == elections@
                && v1.upgraded().votes.sessions() == votes_in_progress@
                && v1.upgraded().elections.next_id() == next_election_id.0
                && v1.upgraded().votes.next_id() == next_vote_id.0,
    {
        broadcast use ElectionMap::lemma_of_parts, VoteMap::lemma_of_parts;

        let elections = match ElectionMap::restore(next_election_id, elections) {
            Some(m) => m,
            None => {
                return None;
            },
        };
        let votes = match VoteMap::restore(next_vote_id, votes_in_progress) {
            Some(m) => m,
            None => {
                return None;
            },
        };
        let (next_election_id, elections) = elections.into_parts();
        let (next_vote_id, votes_in_progress) = votes.into_parts();
        Some(V1Elections { next_election_id, elections, next_vote_id, votes_in_progress })
    }

    /// The same data in the latest shape.
    pub fn upgrade(self) -> (v2: V2Elections)
        requires
            self.wf(),
        ensures
            v2 == self.upgraded(),
            v2.wf(),
    {
        broadcast use ElectionMap::lemma_of_parts, VoteMap::lemma_of_parts;

        V2Elections {
            elections: ElectionMap::from_parts(self.next_election_id, self.elections),
            votes: VoteMap::from_parts(self.next_vote_id, self.votes_in_progress),
        }
    }
}

impl Elections {
    /// The data is well formed in its shape.
    pub open spec fn wf(&self) -> bool {
        match self {
            Elections::V1(v1) => v1.wf(),
            Elections::V2(v2) => v2.wf(),
        }
    }

    /// The data in the latest shape.
    pub open spec fn latest_spec(&self) -> V2Elections {
        match self {
            Elections::V1(v1) => v1.upgraded(),
            Elections::V2(v2) => *v2,
        }
    }

    /// The data in the latest shape, if that is the shape it has.
    pub fn try_latest(&self) -> (r: Option<&V2Elections>)
        ensures
            r == (match self {
                Elections::V2(v2) => Some(v2),
                Elections::V1(_) => None,
            }),
    {
        match self {
            Elections::V2(v2_elections) => Some(v2_elections),
            _ => None,
        }
    }

    /// The data in the latest shape; data of an earlier shape is brought
    /// into it first.
    pub fn into_latest(self) -> (v2: V2Elections)
        requires
            self.wf(),
        ensures
            v2 == self.latest_spec(),
            v2.wf(),
    {
        match self {
            Elections::V1(v1) => v1.upgrade(),
            Elections::V2(v2) => v2,
        }
    }

    /// Brings the data into the latest shape, drops the vote sessions that
    /// have expired at `now`, and gives access to the result: what is
    /// written to it is written to the data.
    pub fn latest_at(&mut self, now: i64) -> (v2: &mut V2Elections)
        requires
            old(self).wf(),
        ensures
            v2.wf(),
            v2.elections == old(self).latest_spec().elections,
            v2.votes.next_id() == old(self).latest_spec().votes.next_id(),
            v2.votes.sessions() == unexpired(old(self).latest_spec().votes.sessions(), now),
            *final(self) == Elections::V2(*final(v2)),
    {
        let mut held = Elections::V2(V2Elections::new());
        std::mem::swap(self, &mut held);
        let mut swept = held.into_latest();
        swept.votes.expire_at(now);
        *self = Elections::V2(swept);
        match self {
            Elections::V2(v2) => v2,
            Elections::V1(_) => unreached(),
        }
    }

    /// As `latest_at`, at the time of the call.  What is dropped depends
    /// on the clock, so the contract speaks of some time.
    pub fn latest(&mut self) -> (v2: &mut V2Elections)
        requires
            old(self).wf(),
        ensures
            v2.wf(),
            v2.elections == old(self).latest_spec().elections,
            v2.votes.next_id() == old(self).latest_spec().votes.next_id(),
            exists|now: i64|
                v2.votes.sessions() == #[trigger] unexpired(
                    old(self).latest_spec().votes.sessions(),
                    now,
                ),
            *final(self) == Elections::V2(*final(v2)),
    {
        let now = unix_now();
        self.latest_at(now)
    }
}

impl Default for Elections {
    fn default() -> (e: Self)
        ensures
            e.wf(),
            e is V2,
            e.latest_spec().elections.next_id() == 0,
            e.latest_spec().votes.next_id() == 0,
            e.latest_spec().elections.elections() == Map::<usize, Election>::empty(),
            e.latest_spec().votes.sessions() == Map::<usize, VoteInProgress>::empty(),
    {
        Elections::V2(V2Elections::new())
    }
}

impl Migrate for Elections {
    open spec fn migrated(&self) -> Self {
        Elections::V2(self.latest_spec())
    }

    open spec fn can_migrate(&self) -> bool {
        self.wf()
    }

    fn migrate(&mut self) {
        let mut held = Elections::V2(V2Elections::new());
        std::mem::swap(self, &mut held);
        *self = Elections::V2(held.into_latest());
    }
}

} // verus!
