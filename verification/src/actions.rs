//! Identifiers and the tagged actions that travel through UI callback tokens.

use vstd::prelude::*;
use vstd::string::*;
use vstd::std_specs::convert::FromSpecImpl;
use crate::text::{
    all_digits, canonical_digits, chars_of, decimal, digit_of, digit_value, digits_value,
    lemma_decimal, lemma_decimal_of_value, push_decimal, read_digits, stands_at,
};

verus! {

/// Identifier of an election, unique within a guild.
#[derive(Debug, Copy, Clone, PartialEq, Eq, Hash, Structural)]
pub struct ElectionId(pub usize);

/// Identifier of an in-progress vote session, unique within a guild.
#[derive(Debug, Copy, Clone, PartialEq, Eq, Hash, Structural)]
pub struct VoteId(pub usize);

impl ElectionId {
    /// Issues the current identifier and advances the counter by one.
    pub fn next(&mut self) -> (issued: Self)
        requires
            old(self).0 < usize::MAX,
        ensures
            issued == *old(self),
            final(self).0 == old(self).0 + 1,
    {
        let issued = *self;
        self.0 += 1;
        issued
    }
}

impl VoteId {
    /// Issues the current identifier and advances the counter by one.
    pub fn next(&mut self) -> (issued: Self)
        requires
            old(self).0 < usize::MAX,
        ensures
            issued == *old(self),
            final(self).0 == old(self).0 + 1,
    {
        let issued = *self;
        self.0 += 1;
        issued
    }
}

/// What an action on an election asks for.
#[derive(Debug, Copy, Clone, PartialEq, Eq, Structural)]
pub enum ElectionActionType {
    /// Start a vote session for the actor.
    InitiateVote,
    /// Show the result to the election's owner.
    GetResult,
}

/// What an action on a vote session asks for.
#[derive(Debug, Copy, Clone, PartialEq, Eq, Structural)]
pub enum VoteActionType {
    /// Discard the earlier ballot and rank again.
    ConfirmInitiateVote,
    /// Rank the candidate on offer.
    SelectVote,
    /// Abstain on the candidate on offer.
    SkipVote,
    /// Leave the earlier ballot as it is.
    CancelVote,
    /// Withdraw the ballot altogether.
    VoidBallot,
}

/// An action on an election.
#[derive(Debug, Copy, Clone, PartialEq, Eq, Structural)]
pub struct ElectionAction {
    pub election_id: ElectionId,
    pub ty: ElectionActionType,
}

/// An action on a vote session.
#[derive(Debug, Copy, Clone, PartialEq, Eq, Structural)]
pub struct VoteAction {
    pub vote_id: VoteId,
    pub ty: VoteActionType,
}

/// What a UI element carries: an action on an election or on a vote session.
#[derive(Debug, Copy, Clone, PartialEq, Eq, Structural)]
pub enum Action {
    Election(ElectionAction),
    Vote(VoteAction),
}

/// What an action is about: an election, or a vote session (which in turn
/// names its election).
#[derive(Debug, Copy, Clone, PartialEq, Eq, Structural)]
pub enum Target {
    Election(ElectionId),
    Vote(VoteId),
}

/// A token that is not the token of any action.
#[derive(Debug, Copy, Clone, PartialEq, Eq, Structural)]
pub struct DecodeError;

/// Things that say which election or vote session they are about.
pub trait ActionId {
    /// What this is about.
    spec fn target(&self) -> Target;

    /// What this is about.
    fn get_id(&self) -> (t: Target)
        ensures
            t == self.target(),
    ;
}

impl ActionId for ElectionId {
    open spec fn target(&self) -> Target {
        Target::Election(*self)
    }

    fn get_id(&self) -> (t: Target) {
        Target::Election(*self)
    }
}

impl ActionId for VoteId {
    open spec fn target(&self) -> Target {
        Target::Vote(*self)
    }

    fn get_id(&self) -> (t: Target) {
        Target::Vote(*self)
    }
}

impl ActionId for ElectionAction {
    open spec fn target(&self) -> Target {
        Target::Election(self.election_id)
    }

    fn get_id(&self) -> (t: Target) {
        self.election_id.get_id()
    }
}

impl ActionId for VoteAction {
    open spec fn target(&self) -> Target {
        Target::Vote(self.vote_id)
    }

    fn get_id(&self) -> (t: Target) {
        self.vote_id.get_id()
    }
}

impl ActionId for Action {
    open spec fn target(&self) -> Target {
        match self {
            Action::Election(a) => Target::Election(a.election_id),
            Action::Vote(a) => Target::Vote(a.vote_id),
        }
    }

    fn get_id(&self) -> (t: Target) {
        match self {
            Action::Election(election_action) => election_action.get_id(),
            Action::Vote(vote_action) => vote_action.get_id(),
        }
    }
}

impl ElectionActionType {
    /// The name of the kind, as tokens spell it.
    pub open spec fn label(self) -> Seq<char> {
        match self {
            ElectionActionType::InitiateVote => "InitiateVote"@,
            ElectionActionType::GetResult => "GetResult"@,
        }
    }

    /// The name of the kind, as tokens spell it.
    pub fn name(self) -> (s: &'static str)
        ensures
            s@ == self.label(),
    {
        match self {
            ElectionActionType::InitiateVote => "InitiateVote",
            ElectionActionType::GetResult => "GetResult",
        }
    }
}

impl VoteActionType {
    /// The name of the kind, as tokens spell it.
    pub open spec fn label(self) -> Seq<char> {
        match self {
            VoteActionType::ConfirmInitiateVote => "ConfirmInitiateVote"@,
            VoteActionType::SelectVote => "SelectVote"@,
            VoteActionType::SkipVote => "SkipVote"@,
            VoteActionType::CancelVote => "CancelVote"@,
            VoteActionType::VoidBallot => "VoidBallot"@,
        }
    }

    /// The name of the kind, as tokens spell it.
    pub fn name(self) -> (s: &'static str)
        ensures
            s@ == self.label(),
    {
        match self {
            VoteActionType::ConfirmInitiateVote => "ConfirmInitiateVote",
            VoteActionType::SelectVote => "SelectVote",
            VoteActionType::SkipVote => "SkipVote",
            VoteActionType::CancelVote => "CancelVote",
            VoteActionType::VoidBallot => "VoidBallot",
        }
    }
}

/// What a token has between the identifier and the kind.
pub open spec fn kind_opener() -> Seq<char> {
    ",\"ty\":\""@
}

/// What a token ends with.
pub open spec fn token_closer() -> Seq<char> {
    "\"}}"@
}

proof fn lemma_literals()
    ensures
        "{\"Election\":{\"election_id\":"@.len() == 27,
        "{\"Election\":{\"election_id\":"@[2] == 'E',
        "{\"Vote\":{\"vote_id\":"@.len() == 19,
        "{\"Vote\":{\"vote_id\":"@[2] == 'V',
        kind_opener().len() == 7,
        kind_opener()[0] == ',',
        token_closer().len() == 3,
        "InitiateVote"@.len() == 12,
        "GetResult"@.len() == 9,
        "ConfirmInitiateVote"@.len() == 19,
        "SelectVote"@.len() == 10,
        "SelectVote"@[0] == 'S',
        "SkipVote"@.len() == 8,
        "CancelVote"@.len() == 10,
        "CancelVote"@[0] == 'C',
        "VoidBallot"@.len() == 10,
        "VoidBallot"@[0] == 'V',
{
    reveal_strlit("{\"Election\":{\"election_id\":");
    reveal_strlit("{\"Vote\":{\"vote_id\":");
    reveal_strlit(",\"ty\":\"");
    reveal_strlit("\"}}");
    reveal_strlit("InitiateVote");
    reveal_strlit("GetResult");
    reveal_strlit("ConfirmInitiateVote");
    reveal_strlit("SelectVote");
    reveal_strlit("SkipVote");
    reveal_strlit("CancelVote");
    reveal_strlit("VoidBallot");
}

/// Kinds of election action with one name are one kind.
proof fn lemma_election_labels(a: ElectionActionType, b: ElectionActionType)
    requires
        a.label() == b.label(),
    ensures
        a == b,
{
    lemma_literals();
}

/// Kinds of vote action with one name are one kind.
proof fn lemma_vote_labels(a: VoteActionType, b: VoteActionType)
    requires
        a.label() == b.label(),
    ensures
        a == b,
{
    lemma_literals();
}

impl Action {
    /// What the token opens with: it tells the two branches apart.
    pub open spec fn opener(self) -> Seq<char> {
        match self {
            Action::Election(_) => "{\"Election\":{\"election_id\":"@,
            Action::Vote(_) => "{\"Vote\":{\"vote_id\":"@,
        }
    }

    /// The number of the election or vote session.
    pub open spec fn number(self) -> nat {
        match self {
            Action::Election(a) => a.election_id.0 as nat,
            Action::Vote(a) => a.vote_id.0 as nat,
        }
    }

    /// The name of the action's kind.
    pub open spec fn kind_label(self) -> Seq<char> {
        match self {
            Action::Election(a) => a.ty.label(),
            Action::Vote(a) => a.ty.label(),
        }
    }

    /// The token of the action: the branch, the number in base ten and the
    /// kind, spelled as compact JSON.
    pub open spec fn token(self) -> Seq<char> {
        self.opener() + decimal(self.number()) + kind_opener() + self.kind_label() + token_closer()
    }

    /// Where the parts of the token stand.
    proof fn lemma_shape(self)
        ensures
            ({
                let t = self.token();
                let p = self.opener().len() as int;
                let d = decimal(self.number()).len() as int;
                &&& t.len() == p + d + 7 + self.kind_label().len() + 3
                &&& t.subrange(0, p) == self.opener()
                &&& t.subrange(p, p + d) == decimal(self.number())
                &&& t[p + d] == ','
                &&& t.subrange(p + d, p + d + 7) == kind_opener()
                &&& t.skip(p + d + 7) == self.kind_label() + token_closer()
                &&& t[2] == self.opener()[2]
                &&& p > 2
            }),
    {
        lemma_literals();
        let t = self.token();
        let p = self.opener().len() as int;
        let d = decimal(self.number()).len() as int;
        assert(t.subrange(0, p) =~= self.opener());
        assert(t.subrange(p, p + d) =~= decimal(self.number()));
        assert(t.subrange(p + d, p + d + 7) =~= kind_opener());
        assert(t.skip(p + d + 7) =~= self.kind_label() + token_closer());
        assert(t[p + d] == kind_opener()[0]);
    }

    /// The token of the action.
    pub fn encode(&self) -> (token: String)
        ensures
            token@ == self.token(),
    {
        let mut out = match self {
            Action::Election(a) => {
                let mut out = String::from_str("{\"Election\":{\"election_id\":");
                push_decimal(&mut out, a.election_id.0 as u64);
                out.append(",\"ty\":\"");
                out.append(a.ty.name());
                out
            },
            Action::Vote(a) => {
                let mut out = String::from_str("{\"Vote\":{\"vote_id\":");
                push_decimal(&mut out, a.vote_id.0 as u64);
                out.append(",\"ty\":\"");
                out.append(a.ty.name());
                out
            },
        };
        out.append("\"}}");
        out
    }

    /// `r` is what decoding `token` comes to: the action whose token it is,
    /// or an error where it is the token of no action.
    pub open spec fn decodes_to(token: Seq<char>, r: Result<Action, DecodeError>) -> bool {
        match r {
            Ok(a) => a.token() == token,
            Err(_) => forall|a: Action| #[trigger] a.token() != token,
        }
    }

    /// What a token of this action tells a reader who has found the opener
    /// of a branch at its start and, behind it, digits up to `end`.
    proof fn lemma_read(self, t: Seq<char>, election: bool, start: int, end: int)
        requires
            self.token() == t,
            start == (if election {
                27int
            } else {
                19int
            }),
            start <= t.len(),
            t.subrange(0, start) == (if election {
                "{\"Election\":{\"election_id\":"@
            } else {
                "{\"Vote\":{\"vote_id\":"@
            }),
            start <= end <= t.len(),
            all_digits(t.subrange(start, end)),
            end == t.len() || digit_of(t[end]) is None,
        ensures
            self is Election <==> election,
            decimal(self.number()) == t.subrange(start, end),
            end + 7 <= t.len(),
            t.subrange(end, end + 7) == kind_opener(),
            t.skip(end + 7) == self.kind_label() + token_closer(),
    {
        lemma_literals();
        self.lemma_shape();
        lemma_decimal(self.number());
        let d = decimal(self.number());
        assert(t.subrange(0, start)[2] == t[2]);
        if end < start + d.len() {
            assert(d[end - start] == t[end]);
        }
        if end > start + d.len() {
            assert(t.subrange(start, end)[d.len() as int] == t[start + d.len()]);
        }
    }

    /// A text that has the parts of this action's token where they belong is
    /// the token.
    proof fn lemma_written(self, t: Seq<char>, start: int, end: int)
        requires
            0 <= start <= end,
            end + 7 <= t.len(),
            t.subrange(0, start) == self.opener(),
            t.subrange(start, end) == decimal(self.number()),
            t.subrange(end, end + 7) == kind_opener(),
            t.skip(end + 7) == self.kind_label() + token_closer(),
        ensures
            self.token() == t,
    {
        assert(t =~= t.subrange(0, start) + t.subrange(start, end) + t.subrange(end, end + 7)
            + t.skip(end + 7));
        assert(self.token() =~= self.opener() + decimal(self.number()) + kind_opener() + (
        self.kind_label() + token_closer()));
    }

    /// The action whose token `token` is.  A token of no action is an
    /// error, never a failure of the decoder.
    pub fn decode(token: &str) -> (r: Result<Action, DecodeError>)
        ensures
            Self::decodes_to(token@, r),
    {
        let chars = chars_of(token);
        let election = stands_at(&chars, 0, "{\"Election\":{\"election_id\":");
        let vote = !election && stands_at(&chars, 0, "{\"Vote\":{\"vote_id\":");
        proof {
            lemma_literals();
        }
        if !election && !vote {
            assert forall|a: Action| #[trigger] a.token() != token@ by {
                a.lemma_shape();
            }
            return Err(DecodeError);
        }
        let start: usize = if election {
            27
        } else {
            19
        };
        let end = digits_end(&chars, start);
        let ghost digits = chars@.subrange(start as int, end as int);
        let canonical = end > start && (end - start == 1 || chars[start] != '0');
        if !canonical {
            assert forall|a: Action| #[trigger] a.token() != token@ by {
                if a.token() == token@ {
                    a.lemma_read(token@, election, start as int, end as int);
                    lemma_decimal(a.number());
                }
            }
            return Err(DecodeError);
        }
        let number = match read_digits(&chars, start, end) {
            Some(n) => n,
            None => {
                assert forall|a: Action| #[trigger] a.token() != token@ by {
                    if a.token() == token@ {
                        a.lemma_read(token@, election, start as int, end as int);
                        lemma_decimal(a.number());
                    }
                }
                return Err(DecodeError);
            },
        };
        if !stands_at(&chars, end, ",\"ty\":\"") {
            assert forall|a: Action| #[trigger] a.token() != token@ by {
                if a.token() == token@ {
                    a.lemma_read(token@, election, start as int, end as int);
                }
            }
            return Err(DecodeError);
        }
        let found = if election {
            match election_kind(&chars, end + 7) {
                Some(ty) => Some(
                    Action::Election(ElectionAction { election_id: ElectionId(number), ty }),
                ),
                None => None,
            }
        } else {
            match vote_kind(&chars, end + 7) {
                Some(ty) => Some(Action::Vote(VoteAction { vote_id: VoteId(number), ty })),
                None => None,
            }
        };
        match found {
            Some(a) => {
                proof {
                    lemma_decimal_of_value(digits);
                    a.lemma_written(token@, start as int, end as int);
                }
                Ok(a)
            },
            None => {
                assert forall|a: Action| #[trigger] a.token() != token@ by {
                    if a.token() == token@ {
                        a.lemma_read(token@, election, start as int, end as int);
                    }
                }
                Err(DecodeError)
            },
        }
    }

    /// Two actions with one token are one action.
    pub proof fn lemma_token_injective(self, other: Action)
        requires
            self.token() == other.token(),
        ensures
            self == other,
    {
        lemma_literals();
        self.lemma_shape();
        lemma_decimal(self.number());
        lemma_decimal(other.number());
        let t = self.token();
        let start = self.opener().len() as int;
        let end = start + decimal(self.number()).len();
        other.lemma_read(t, self is Election, start, end);
        let l1 = self.kind_label();
        let l2 = other.kind_label();
        assert(l1 =~= (l1 + token_closer()).subrange(0, l1.len() as int));
        assert(l2 =~= (l2 + token_closer()).subrange(0, l2.len() as int));
        assert((l1 + token_closer()).len() == (l2 + token_closer()).len());
        assert(l1 == l2);
        match (self, other) {
            (Action::Election(a), Action::Election(b)) => {
                lemma_election_labels(a.ty, b.ty);
            },
            (Action::Vote(a), Action::Vote(b)) => {
                lemma_vote_labels(a.ty, b.ty);
            },
            _ => {},
        }
    }

    /// Decoding the token of an action gives back that action.
    pub proof fn lemma_decode_encode(self, r: Result<Action, DecodeError>)
        requires
            Self::decodes_to(self.token(), r),
        ensures
            r == Ok::<Action, DecodeError>(self),
    {
        match r {
            Ok(a) => {
                a.lemma_token_injective(self);
            },
            Err(_) => {
                assert(self.token() != self.token());
            },
        }
    }
}

/// Where the digits that stand in `chars` from `start` on end.
fn digits_end(chars: &Vec<char>, start: usize) -> (end: usize)
    requires
        start <= chars.len(),
    ensures
        start <= end <= chars.len(),
        all_digits(chars@.subrange(start as int, end as int)),
        end == chars.len() || digit_of(chars@[end as int]) is None,
{
    let mut end: usize = start;
    while end < chars.len() && digit_value(chars[end]).is_some()
        invariant
            start <= end <= chars.len(),
            all_digits(chars@.subrange(start as int, end as int)),
        decreases chars.len() - end,
    {
        assert forall|i: int| 0 <= i < end + 1 - start implies digit_of(
            #[trigger] chars@.subrange(start as int, end + 1)[i],
        ) is Some by {
            if i < end - start {
                assert(chars@.subrange(start as int, end as int)[i] == chars@[start + i]);
            }
        }
        end += 1;
    }
    end
}

/// The kind of election action whose name, with the end of a token, is what
/// stands in `chars` from `from` on.
fn election_kind(chars: &Vec<char>, from: usize) -> (r: Option<ElectionActionType>)
    requires
        from <= chars.len(),
    ensures
        match r {
            Some(ty) => chars@.skip(from as int) == ty.label() + token_closer(),
            None => forall|ty: ElectionActionType|
                chars@.skip(from as int) != #[trigger] ty.label() + token_closer(),
        },
{
    if closes_with(chars, from, ElectionActionType::InitiateVote.name()) {
        Some(ElectionActionType::InitiateVote)
    } else if closes_with(chars, from, ElectionActionType::GetResult.name()) {
        Some(ElectionActionType::GetResult)
    } else {
        None
    }
}

/// The kind of vote action whose name, with the end of a token, is what
/// stands in `chars` from `from` on.
fn vote_kind(chars: &Vec<char>, from: usize) -> (r: Option<VoteActionType>)
    requires
        from <= chars.len(),
    ensures
        match r {
            Some(ty) => chars@.skip(from as int) == ty.label() + token_closer(),
            None => forall|ty: VoteActionType|
                chars@.skip(from as int) != #[trigger] ty.label() + token_closer(),
        },
{
    if closes_with(chars, from, VoteActionType::ConfirmInitiateVote.name()) {
        Some(VoteActionType::ConfirmInitiateVote)
    } else if closes_with(chars, from, VoteActionType::SelectVote.name()) {
        Some(VoteActionType::SelectVote)
    } else if closes_with(chars, from, VoteActionType::SkipVote.name()) {
        Some(VoteActionType::SkipVote)
    } else if closes_with(chars, from, VoteActionType::CancelVote.name()) {
        Some(VoteActionType::CancelVote)
    } else if closes_with(chars, from, VoteActionType::VoidBallot.name()) {
        Some(VoteActionType::VoidBallot)
    } else {
        None
    }
}

/// Whether what stands in `chars` from `from` on is `label` and the end of a
/// token.
fn closes_with(chars: &Vec<char>, from: usize, label: &str) -> (r: bool)
    requires
        from <= chars.len(),
    ensures
        r == (chars@.skip(from as int) == label@ + token_closer()),
{
    proof {
        lemma_literals();
    }
    let size = label.unicode_len();
    if size > chars.len() - from || chars.len() - from - size != 3 {
        assert(chars@.skip(from as int).len() != (label@ + token_closer()).len());
        return false;
    }
    let both = stands_at(chars, from, label) && stands_at(chars, from + size, "\"}}");
    proof {
        let rest = chars@.skip(from as int);
        assert(rest.subrange(0, size as int) =~= chars@.subrange(from as int, from + size));
        assert(rest.subrange(size as int, size + 3) =~= chars@.subrange(from + size, from + size + 3));
        if both {
            assert(rest =~= label@ + token_closer());
        } else if rest == label@ + token_closer() {
            assert((label@ + token_closer()).subrange(0, size as int) =~= label@);
            assert((label@ + token_closer()).subrange(size as int, size + 3) =~= token_closer());
        }
    }
    both
}

impl From<ElectionAction> for ElectionId {
    fn from(val: ElectionAction) -> (id: Self) {
        val.election_id
    }
}

impl FromSpecImpl<ElectionAction> for ElectionId {
    open spec fn obeys_from_spec() -> bool {
        true
    }

    open spec fn from_spec(val: ElectionAction) -> Self {
        val.election_id
    }
}

impl From<VoteAction> for VoteId {
    fn from(val: VoteAction) -> (id: Self) {
        val.vote_id
    }
}

impl FromSpecImpl<VoteAction> for VoteId {
    open spec fn obeys_from_spec() -> bool {
        true
    }

    open spec fn from_spec(val: VoteAction) -> Self {
        val.vote_id
    }
}

impl FromSpecImpl<Action> for String {
    open spec fn obeys_from_spec() -> bool {
        false
    }

    open spec fn from_spec(val: Action) -> Self {
        arbitrary()
    }
}

impl From<Action> for String {
    /// The token of the action.
    fn from(val: Action) -> (token: Self)
        ensures
            token@ == val.token(),
    {
        val.encode()
    }
}

} // verus!
