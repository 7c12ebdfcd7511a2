//! Setting up an election from the texts of the setup command: a list of
//! regions for the reserved offices and a list of `name;region` pairs for
//! the candidates, both separated by commas.

use vstd::prelude::*;
use vstd::string::*;
use crate::actions::ElectionId;
use crate::election::{Election, Name, Region};
use crate::store::ElectionMap;
use crate::text::chars_of;

verus! {

/// Whether `c` is white space, as `char::is_whitespace` has it: the
/// characters with the Unicode property `White_Space`.
pub uninterp spec fn is_whitespace(c: char) -> bool;

/// Whether `c` is white space.
///
/// Trusted: calls `char::is_whitespace`, whose result depends on `c` alone;
/// the contract gives that result its name and states nothing more of it.
#[verifier::external_body]
fn is_space(c: char) -> (r: bool)
    ensures
        r == is_whitespace(c),
{
    c.is_whitespace()
}

/// `s` without the white space it starts with.
pub open spec fn trim_start(s: Seq<char>) -> Seq<char>
    decreases s.len(),
{
    if s.len() > 0 && is_whitespace(s[0]) {
        trim_start(s.skip(1))
    } else {
        s
    }
}

/// `s` without the white space it ends with.
pub open spec fn trim_end(s: Seq<char>) -> Seq<char>
    decreases s.len(),
{
    if s.len() > 0 && is_whitespace(s.last()) {
        trim_end(s.drop_last())
    } else {
        s
    }
}

/// `s` without the white space at either end.
pub open spec fn trimmed(s: Seq<char>) -> Seq<char> {
    trim_end(trim_start(s))
}

/// The pieces of `s` between occurrences of `sep`; one more piece than
/// there are occurrences, so the empty text has one empty piece.
pub open spec fn split(s: Seq<char>, sep: char) -> Seq<Seq<char>>
    decreases s.len(),
{
    if s.len() == 0 {
        seq![Seq::<char>::empty()]
    } else if s.last() == sep {
        split(s.drop_last(), sep).push(Seq::<char>::empty())
    } else {
        let pieces = split(s.drop_last(), sep);
        pieces.drop_last().push(pieces.last().push(s.last()))
    }
}

/// The name and the region that a candidate entry gives: the entry has
/// exactly two parts around one `;`, and neither is empty once trimmed.
pub open spec fn parse_candidate(entry: Seq<char>) -> Option<(Seq<char>, Seq<char>)> {
    let parts = split(entry, ';');
    if parts.len() == 2 && trimmed(parts[0]).len() > 0 && trimmed(parts[1]).len() > 0 {
        Some((trimmed(parts[0]), trimmed(parts[1])))
    } else {
        None
    }
}

/// The regions that the text of reservations lists, one per office.
pub open spec fn reserved_regions(text: Seq<char>) -> Seq<Seq<char>> {
    split(text, ',').map_values(|piece: Seq<char>| trimmed(piece))
}

/// The candidates that the first `count` of `entries` give, by name; a later
/// entry for a name replaces an earlier one.
pub open spec fn candidates_of(entries: Seq<Seq<char>>, count: int) -> Map<Seq<char>, Seq<char>>
    decreases count,
{
    if count <= 0 {
        Map::empty()
    } else {
        match parse_candidate(entries[count - 1]) {
            Some((name, region)) => candidates_of(entries, count - 1).insert(name, region),
            None => candidates_of(entries, count - 1),
        }
    }
}

/// Every entry gives a candidate.
pub open spec fn all_candidates(entries: Seq<Seq<char>>) -> bool {
    forall|i: int| 0 <= i < entries.len() ==> parse_candidate(#[trigger] entries[i]) is Some
}

/// Why an election could not be set up.
#[derive(Debug, Copy, Clone, PartialEq, Eq, Structural)]
pub enum SetupError {
    /// More offices are reserved than there are offices.
    TooManyReservations,
    /// A candidate entry is not a name and a region around one `;`.
    MalformedCandidateList,
}

/// Whether `election` is what the setup texts describe.
pub open spec fn is_setup(
    election: Election,
    owner: u64,
    offices: usize,
    reserved: Seq<char>,
    candidates: Seq<char>,
) -> bool {
    &&& election.owner_id() == owner
    &&& election.office_count() == offices
    &&& election.reserved() == reserved_regions(reserved)
    &&& election.candidate_map() == candidates_of(
        split(candidates, ','),
        split(candidates, ',').len() as int,
    )
    &&& election.ballot_map() == Map::<u64, Map<Seq<char>, usize>>::empty()
}

/// What setting up an election from the texts comes to.
pub open spec fn setup_outcome(offices: usize, reserved: Seq<char>, candidates: Seq<char>) -> Result<
    (),
    SetupError,
> {
    if reserved_regions(reserved).len() > offices {
        Err(SetupError::TooManyReservations)
    } else if !all_candidates(split(candidates, ',')) {
        Err(SetupError::MalformedCandidateList)
    } else {
        Ok(())
    }
}

proof fn lemma_split_len(s: Seq<char>, sep: char)
    ensures
        split(s, sep).len() >= 1,
    decreases s.len(),
{
    if s.len() > 0 {
        lemma_split_len(s.drop_last(), sep);
    }
}

/// The bounds of the pieces of `chars[from..to]` between occurrences of
/// `sep`.
fn split_range(chars: &Vec<char>, from: usize, to: usize, sep: char) -> (pieces: Vec<(usize, usize)>)
    requires
        from <= to <= chars.len(),
    ensures
        pieces.len() == split(chars@.subrange(from as int, to as int), sep).len(),
        forall|k: int|
            0 <= k < pieces.len() ==> from <= (#[trigger] pieces[k]).0 <= pieces[k].1 <= to
                && chars@.subrange(pieces[k].0 as int, pieces[k].1 as int) == split(
                chars@.subrange(from as int, to as int),
                sep,
            )[k],
{
    let mut pieces: Vec<(usize, usize)> = Vec::new();
    let mut start: usize = from;
    let mut i: usize = from;
    assert(chars@.subrange(from as int, from as int) =~= Seq::<char>::empty());
    assert(split(Seq::<char>::empty(), sep) =~= seq![chars@.subrange(from as int, from as int)]);
    while i < to
        invariant
            from <= start <= i <= to <= chars.len(),
            split(chars@.subrange(from as int, i as int), sep).len() == pieces.len() + 1,
            split(chars@.subrange(from as int, i as int), sep).last() == chars@.subrange(
                start as int,
                i as int,
            ),
            forall|k: int|
                0 <= k < pieces.len() ==> from <= (#[trigger] pieces[k]).0 <= pieces[k].1 <= i
                    && chars@.subrange(pieces[k].0 as int, pieces[k].1 as int) == split(
                    chars@.subrange(from as int, i as int),
                    sep,
                )[k],
        decreases to - i,
    {
        let ghost before = chars@.subrange(from as int, i as int);
        let ghost after = chars@.subrange(from as int, i + 1);
        proof {
            assert(after.drop_last() =~= before);
            assert(after.last() == chars@[i as int]);
        }
        if chars[i] == sep {
            pieces.push((start, i));
            start = i + 1;
            proof {
                assert(chars@.subrange(start as int, start as int) =~= Seq::<char>::empty());
            }
        } else {
            proof {
                assert(chars@.subrange(start as int, i + 1) =~= chars@.subrange(
                    start as int,
                    i as int,
                ).push(chars@[i as int]));
            }
        }
        i += 1;
    }
    pieces.push((start, to));
    pieces
}

/// The bounds of `chars[from..to]` without the white space at either end.
fn trim_range(chars: &Vec<char>, from: usize, to: usize) -> (r: (usize, usize))
    requires
        from <= to <= chars.len(),
    ensures
        from <= r.0 <= r.1 <= to,
        chars@.subrange(r.0 as int, r.1 as int) == trimmed(chars@.subrange(from as int, to as int)),
{
    let mut a: usize = from;
    while a < to && is_space(chars[a])
        invariant
            from <= a <= to <= chars.len(),
            trim_start(chars@.subrange(from as int, to as int)) == trim_start(
                chars@.subrange(a as int, to as int),
            ),
        decreases to - a,
    {
        assert(chars@.subrange(a as int, to as int).skip(1) =~= chars@.subrange(a + 1, to as int));
        a += 1;
    }
    let mut b: usize = to;
    while b > a && is_space(chars[b - 1])
        invariant
            a <= b <= to <= chars.len(),
            trim_end(chars@.subrange(a as int, to as int)) == trim_end(
                chars@.subrange(a as int, b as int),
            ),
        decreases b,
    {
        assert(chars@.subrange(a as int, b as int).drop_last() =~= chars@.subrange(
            a as int,
            b - 1,
        ));
        b -= 1;
    }
    (a, b)
}

/// The text of `source[from..to]`, counted in characters.
fn text_of(source: &str, from: usize, to: usize) -> (s: String)
    requires
        from <= to <= source@.len(),
    ensures
        s@ == source@.subrange(from as int, to as int),
{
    String::from_str(source.substring_char(from, to))
}

/// An election as the setup texts describe it.
pub fn build_election(owner: u64, offices: usize, reserved: &str, candidates: &str) -> (r: Result<
    Election,
    SetupError,
>)
    ensures
        match r {
            Ok(election) => setup_outcome(offices, reserved@, candidates@) is Ok && election.wf()
                && is_setup(election, owner, offices, reserved@, candidates@),
            Err(e) => setup_outcome(offices, reserved@, candidates@) == Err::<(), SetupError>(e),
        },
{
    let mut election = Election::new(owner, offices);
    let reserved_chars = chars_of(reserved);
    let regions = split_range(&reserved_chars, 0, reserved_chars.len(), ',');
    proof {
        assert(reserved_chars@.subrange(0, reserved_chars@.len() as int) =~= reserved@);
    }
    let ghost wanted = reserved_regions(reserved@);
    let mut i: usize = 0;
    assert(wanted.take(0) =~= election.reserved());
    while i < regions.len()
        invariant
            i <= regions.len(),
            election.wf(),
            reserved_chars@ == reserved@,
            wanted == reserved_regions(reserved@),
            wanted.len() == regions.len(),
            forall|k: int|
                0 <= k < regions.len() ==> (#[trigger] regions[k]).0 <= regions[k].1
                    <= reserved_chars.len() && reserved_chars@.subrange(
                    regions[k].0 as int,
                    regions[k].1 as int,
                ) == split(reserved@, ',')[k],
            election.reserved() == wanted.take(i as int),
            election.owner_id() == owner,
            election.office_count() == offices,
            election.candidate_map() == Map::<Seq<char>, Seq<char>>::empty(),
            election.ballot_map() == Map::<u64, Map<Seq<char>, usize>>::empty(),
        decreases regions.len() - i,
    {
        let (from, to) = trim_range(&reserved_chars, regions[i].0, regions[i].1);
        let region = Region::from(text_of(reserved, from, to));
        if !election.reserve_office(region) {
            return Err(SetupError::TooManyReservations);
        }
        assert(wanted.take(i + 1) =~= wanted.take(i as int).push(wanted[i as int]));
        i += 1;
    }
    assert(wanted.take(i as int) =~= wanted);
    proof {
        election.lemma_wf();
    }
    let candidate_chars = chars_of(candidates);
    let entries = split_range(&candidate_chars, 0, candidate_chars.len(), ',');
    proof {
        assert(candidate_chars@.subrange(0, candidate_chars@.len() as int) =~= candidates@);
    }
    let ghost listed = split(candidates@, ',');
    let mut j: usize = 0;
    while j < entries.len()
        invariant
            j <= entries.len(),
            election.wf(),
            candidate_chars@ == candidates@,
            listed == split(candidates@, ','),
            listed.len() == entries.len(),
            forall|k: int|
                0 <= k < entries.len() ==> (#[trigger] entries[k]).0 <= entries[k].1
                    <= candidate_chars.len() && candidate_chars@.subrange(
                    entries[k].0 as int,
                    entries[k].1 as int,
                ) == listed[k],
            forall|k: int| 0 <= k < j ==> parse_candidate(#[trigger] listed[k]) is Some,
            election.candidate_map() == candidates_of(listed, j as int),
            election.reserved() == reserved_regions(reserved@),
            reserved_regions(reserved@).len() <= offices,
            election.owner_id() == owner,
            election.office_count() == offices,
            election.ballot_map() == Map::<u64, Map<Seq<char>, usize>>::empty(),
        decreases entries.len() - j,
    {
        let (from, to) = entries[j];
        let parts = split_range(&candidate_chars, from, to, ';');
        if parts.len() != 2 {
            return Err(SetupError::MalformedCandidateList);
        }
        let (name_from, name_to) = trim_range(&candidate_chars, parts[0].0, parts[0].1);
        let (region_from, region_to) = trim_range(&candidate_chars, parts[1].0, parts[1].1);
        if name_from == name_to || region_from == region_to {
            return Err(SetupError::MalformedCandidateList);
        }
        let name = Name::from(text_of(candidates, name_from, name_to));
        let region = Region::from(text_of(candidates, region_from, region_to));
        election.add_candidate(name, region);
        j += 1;
    }
    Ok(election)
}

impl ElectionMap {
    /// Sets up an election from the texts and stores it under a newly
    /// issued identifier.  Where the texts are refused, nothing changes.
    pub fn create(&mut self, owner: u64, offices: usize, reserved: &str, candidates: &str) -> (r:
        Result<ElectionId, SetupError>)
        requires
            old(self).wf(),
            old(self).next_id() < usize::MAX,
        ensures
            final(self).wf(),
            match r {
                Ok(id) => {
                    &&& setup_outcome(offices, reserved@, candidates@) is Ok
                    &&& id.0 == old(self).next_id()
                    &&& final(self).next_id() == old(self).next_id() + 1
                    &&& !old(self).elections().contains_key(id.0)
                    &&& final(self).elections().contains_key(id.0)
                    &&& final(self).elections().remove(id.0) == old(self).elections()
                    &&& is_setup(final(self).elections()[id.0], owner, offices, reserved@, candidates@)
                },
                Err(e) => {
                    &&& setup_outcome(offices, reserved@, candidates@) == Err::<(), SetupError>(e)
                    &&& final(self).next_id() == old(self).next_id()
                    &&& final(self).elections() == old(self).elections()
                },
            },
    {
        match build_election(owner, offices, reserved, candidates) {
            Ok(election) => {
                let id = self.insert(election);
                assert(self.elections().remove(id.0) =~= old(self).elections());
                Ok(id)
            },
            Err(e) => Err(e),
        }
    }
}

} // verus!
