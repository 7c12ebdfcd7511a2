//! Seating candidates in offices: a single walk from the highest score down,
//! in which a candidate takes an office reserved for their region if one is
//! open, else an unreserved office if one is left, else none.

use vstd::prelude::*;
use vstd::multiset::Multiset;

verus! {

/// What the walk offers a candidate when their turn comes.
pub enum Seat {
    /// An office reserved for the candidate's region.
    Reserved,
    /// An office open to every region.
    Unreserved,
    /// No office: the candidate does not win.
    Unseated,
}

/// The seat that `name` gets when `reserved` holds the regions of the
/// reserved offices still open and `unreserved` other offices are left.
/// A name that is not a candidate gets none.
pub open spec fn seat_for(
    candidates: Map<Seq<char>, Seq<char>>,
    name: Seq<char>,
    reserved: Multiset<Seq<char>>,
    unreserved: nat,
) -> Seat {
    if !candidates.contains_key(name) {
        Seat::Unseated
    } else if reserved.count(candidates[name]) > 0 {
        Seat::Reserved
    } else if unreserved > 0 {
        Seat::Unreserved
    } else {
        Seat::Unseated
    }
}

/// The winners of the walk over `results` from its last entry to its first,
/// in the order in which they are seated.
pub open spec fn seated(
    candidates: Map<Seq<char>, Seq<char>>,
    results: Seq<(u128, Seq<char>)>,
    reserved: Multiset<Seq<char>>,
    unreserved: nat,
) -> Seq<Seq<char>>
    decreases results.len(),
{
    if results.len() == 0 {
        Seq::empty()
    } else {
        let name = results.last().1;
        let rest = results.drop_last();
        match seat_for(candidates, name, reserved, unreserved) {
            Seat::Reserved => seq![name] + seated(
                candidates,
                rest,
                reserved.remove(candidates[name]),
                unreserved,
            ),
            Seat::Unreserved => seq![name] + seated(
                candidates,
                rest,
                reserved,
                (unreserved - 1) as nat,
            ),
            Seat::Unseated => seated(candidates, rest, reserved, unreserved),
        }
    }
}

/// How many of `names` are candidates of `region`.
pub open spec fn region_count(
    candidates: Map<Seq<char>, Seq<char>>,
    names: Seq<Seq<char>>,
    region: Seq<char>,
) -> nat
    decreases names.len(),
{
    if names.len() == 0 {
        0
    } else {
        region_count(candidates, names.drop_first(), region) + if candidates.contains_key(
            names[0],
        ) && candidates[names[0]] == region {
            1nat
        } else {
            0nat
        }
    }
}

/// When no office is left, nobody is seated.
pub proof fn lemma_seated_none_left(
    candidates: Map<Seq<char>, Seq<char>>,
    results: Seq<(u128, Seq<char>)>,
    reserved: Multiset<Seq<char>>,
)
    requires
        reserved.len() == 0,
    ensures
        seated(candidates, results, reserved, 0) == Seq::<Seq<char>>::empty(),
    decreases results.len(),
{
    if results.len() > 0 {
        assert forall|r: Seq<char>| reserved.count(r) == 0 by {
            if reserved.count(r) > 0 {
                assert(reserved.contains(r));
                assert(reserved.remove(r).len() == reserved.len() - 1);
            }
        }
        lemma_seated_none_left(candidates, results.drop_last(), reserved);
    }
}

/// The walk never seats more winners than there are offices: the reserved
/// ones and the unreserved ones together.
pub proof fn lemma_seated_within_offices(
    candidates: Map<Seq<char>, Seq<char>>,
    results: Seq<(u128, Seq<char>)>,
    reserved: Multiset<Seq<char>>,
    unreserved: nat,
)
    ensures
        seated(candidates, results, reserved, unreserved).len() <= reserved.len() + unreserved,
        seated(candidates, results, reserved, unreserved).len() <= results.len(),
    decreases results.len(),
{
    if results.len() > 0 {
        let name = results.last().1;
        let rest = results.drop_last();
        match seat_for(candidates, name, reserved, unreserved) {
            Seat::Reserved => {
                lemma_seated_within_offices(
                    candidates,
                    rest,
                    reserved.remove(candidates[name]),
                    unreserved,
                );
            },
            Seat::Unreserved => {
                lemma_seated_within_offices(candidates, rest, reserved, (unreserved - 1) as nat);
            },
            Seat::Unseated => {
                lemma_seated_within_offices(candidates, rest, reserved, unreserved);
            },
        }
    }
}

/// `name` is the name of some entry of `results`.
pub open spec fn names_entry(results: Seq<(u128, Seq<char>)>, name: Seq<char>) -> bool {
    exists|j: int| 0 <= j < results.len() && (#[trigger] results[j]).1 == name
}

/// Every winner is a candidate named in the results.
pub proof fn lemma_seated_are_candidates(
    candidates: Map<Seq<char>, Seq<char>>,
    results: Seq<(u128, Seq<char>)>,
    reserved: Multiset<Seq<char>>,
    unreserved: nat,
    i: int,
)
    requires
        0 <= i < seated(candidates, results, reserved, unreserved).len(),
    ensures
        candidates.contains_key(seated(candidates, results, reserved, unreserved)[i]),
        names_entry(results, seated(candidates, results, reserved, unreserved)[i]),
    decreases results.len(),
{
    let name = results.last().1;
    let rest = results.drop_last();
    let all = seated(candidates, results, reserved, unreserved);
    let seat = seat_for(candidates, name, reserved, unreserved);
    let sub = match seat {
        Seat::Reserved => seated(candidates, rest, reserved.remove(candidates[name]), unreserved),
        Seat::Unreserved => seated(candidates, rest, reserved, (unreserved - 1) as nat),
        Seat::Unseated => seated(candidates, rest, reserved, unreserved),
    };
    let at = if seat is Unseated { i } else { i - 1 };
    if at < 0 {
        assert(results[results.len() - 1].1 == all[i]);
    } else {
        assert(all[i] == sub[at]);
        match seat {
            Seat::Reserved => {
                lemma_seated_are_candidates(
                    candidates,
                    rest,
                    reserved.remove(candidates[name]),
                    unreserved,
                    at,
                );
            },
            Seat::Unreserved => {
                lemma_seated_are_candidates(
                    candidates,
                    rest,
                    reserved,
                    (unreserved - 1) as nat,
                    at,
                );
            },
            Seat::Unseated => {
                lemma_seated_are_candidates(candidates, rest, reserved, unreserved, at);
            },
        }
        let j = choose|j: int| 0 <= j < rest.len() && (#[trigger] rest[j]).1 == sub[at];
        assert(results[j].1 == all[i]);
    }
}

/// The winners from one region never outnumber the offices reserved for that
/// region by more than the number of unreserved offices.
pub proof fn lemma_seated_region_bound(
    candidates: Map<Seq<char>, Seq<char>>,
    results: Seq<(u128, Seq<char>)>,
    reserved: Multiset<Seq<char>>,
    unreserved: nat,
    region: Seq<char>,
)
    ensures
        region_count(candidates, seated(candidates, results, reserved, unreserved), region)
            <= reserved.count(region) + unreserved,
    decreases results.len(),
{
    if results.len() > 0 {
        let name = results.last().1;
        let rest = results.drop_last();
        match seat_for(candidates, name, reserved, unreserved) {
            Seat::Reserved => {
                let less = reserved.remove(candidates[name]);
                lemma_seated_region_bound(candidates, rest, less, unreserved, region);
                let sub = seated(candidates, rest, less, unreserved);
                assert((seq![name] + sub).drop_first() =~= sub);
            },
            Seat::Unreserved => {
                lemma_seated_region_bound(
                    candidates,
                    rest,
                    reserved,
                    (unreserved - 1) as nat,
                    region,
                );
                let sub = seated(candidates, rest, reserved, (unreserved - 1) as nat);
                assert((seq![name] + sub).drop_first() =~= sub);
            },
            Seat::Unseated => {
                lemma_seated_region_bound(candidates, rest, reserved, unreserved, region);
            },
        }
    }
}

/// The regions of the entries of `results` that name a candidate, one for
/// each such entry.
pub open spec fn scored_regions(
    candidates: Map<Seq<char>, Seq<char>>,
    results: Seq<(u128, Seq<char>)>,
) -> Multiset<Seq<char>>
    decreases results.len(),
{
    if results.len() == 0 {
        Multiset::empty()
    } else if candidates.contains_key(results.last().1) {
        scored_regions(candidates, results.drop_last()).insert(candidates[results.last().1])
    } else {
        scored_regions(candidates, results.drop_last())
    }
}

/// How many scored candidates fit an office: those that match a reserved
/// office of their region, one candidate per office, and of the others as
/// many as there are unreserved offices.  The order of the results plays no
/// part in it.
pub open spec fn fitting(
    candidates: Map<Seq<char>, Seq<char>>,
    results: Seq<(u128, Seq<char>)>,
    reserved: Multiset<Seq<char>>,
    unreserved: nat,
) -> nat {
    let regions = scored_regions(candidates, results);
    let matched = regions.intersection_with(reserved).len();
    let others = (regions.len() - matched) as nat;
    if others < unreserved {
        matched + others
    } else {
        matched + unreserved
    }
}

proof fn lemma_matched_within(regions: Multiset<Seq<char>>, reserved: Multiset<Seq<char>>)
    ensures
        regions.intersection_with(reserved).len() <= regions.len(),
{
    broadcast use vstd::multiset::group_multiset_axioms;

    let matched = regions.intersection_with(reserved);
    assert forall|x: Seq<char>| #[trigger] matched.count(x) <= regions.count(x) by {
        vstd::multiset::lemma_intersection_count(regions, reserved, x);
    }
    assert(regions =~= matched.add(regions.sub(matched)));
}

proof fn lemma_matched_more(regions: Multiset<Seq<char>>, reserved: Multiset<Seq<char>>, region: Seq<char>)
    ensures
        reserved.count(region) > 0 ==> regions.insert(region).intersection_with(reserved).len()
            == regions.intersection_with(reserved.remove(region)).len() + 1,
        reserved.count(region) == 0 ==> regions.insert(region).intersection_with(reserved).len()
            == regions.intersection_with(reserved).len(),
        regions.intersection_with(reserved).len() <= regions.len(),
        regions.insert(region).len() == regions.len() + 1,
{
    broadcast use vstd::multiset::group_multiset_axioms;

    let more = regions.insert(region);
    if reserved.count(region) > 0 {
        let less = reserved.remove(region);
        let lhs = more.intersection_with(reserved);
        let rhs = regions.intersection_with(less).insert(region);
        assert forall|x: Seq<char>| lhs.count(x) == rhs.count(x) by {
            vstd::multiset::lemma_intersection_count(more, reserved, x);
            vstd::multiset::lemma_intersection_count(regions, less, x);
            if x == region {
                assert(more.count(x) == regions.count(x) + 1);
                assert(less.count(x) == reserved.count(x) - 1);
                assert(rhs.count(x) == regions.intersection_with(less).count(x) + 1);
            } else {
                assert(more.count(x) == regions.count(x));
                assert(less.count(x) == reserved.count(x));
                assert(rhs.count(x) == regions.intersection_with(less).count(x));
            }
        }
        assert(lhs =~= rhs);
    } else {
        let lhs = more.intersection_with(reserved);
        let rhs = regions.intersection_with(reserved);
        assert forall|x: Seq<char>| lhs.count(x) == rhs.count(x) by {
            vstd::multiset::lemma_intersection_count(more, reserved, x);
            vstd::multiset::lemma_intersection_count(regions, reserved, x);
            if x == region {
                assert(more.count(x) == regions.count(x) + 1);
            } else {
                assert(more.count(x) == regions.count(x));
            }
        }
        assert(lhs =~= rhs);
    }
    lemma_matched_within(regions, reserved);
}

/// The walk seats exactly as many candidates as fit an office, in whatever
/// order the results come.
pub proof fn lemma_seated_count(
    candidates: Map<Seq<char>, Seq<char>>,
    results: Seq<(u128, Seq<char>)>,
    reserved: Multiset<Seq<char>>,
    unreserved: nat,
)
    ensures
        seated(candidates, results, reserved, unreserved).len() == fitting(
            candidates,
            results,
            reserved,
            unreserved,
        ),
    decreases results.len(),
{
    broadcast use vstd::multiset::group_multiset_axioms;

    if results.len() == 0 {
        lemma_matched_within(Multiset::<Seq<char>>::empty(), reserved);
    } else {
        let name = results.last().1;
        let rest = results.drop_last();
        let regions = scored_regions(candidates, rest);
        match seat_for(candidates, name, reserved, unreserved) {
            Seat::Reserved => {
                lemma_seated_count(candidates, rest, reserved.remove(candidates[name]), unreserved);
                lemma_matched_more(regions, reserved, candidates[name]);
                lemma_matched_more(regions, reserved.remove(candidates[name]), candidates[name]);
            },
            Seat::Unreserved => {
                lemma_seated_count(candidates, rest, reserved, (unreserved - 1) as nat);
                lemma_matched_more(regions, reserved, candidates[name]);
            },
            Seat::Unseated => {
                lemma_seated_count(candidates, rest, reserved, unreserved);
                if candidates.contains_key(name) {
                    lemma_matched_more(regions, reserved, candidates[name]);
                } else {
                    lemma_matched_more(regions, reserved, name);
                }
            },
        }
    }
}

proof fn lemma_region_count_remove(
    candidates: Map<Seq<char>, Seq<char>>,
    names: Seq<Seq<char>>,
    region: Seq<char>,
    i: int,
)
    requires
        0 <= i < names.len(),
    ensures
        region_count(candidates, names, region) == region_count(
            candidates,
            names.remove(i),
            region,
        ) + if candidates.contains_key(names[i]) && candidates[names[i]] == region {
            1nat
        } else {
            0nat
        },
    decreases names.len(),
{
    if i == 0 {
        assert(names.remove(0) =~= names.drop_first());
    } else {
        lemma_region_count_remove(candidates, names.drop_first(), region, i - 1);
        assert(names.remove(i).drop_first() =~= names.drop_first().remove(i - 1));
        assert(names.remove(i)[0] == names[0]);
    }
}

/// How many of some names are candidates of a region does not depend on
/// the order of the names.
pub proof fn lemma_region_count_permuted(
    candidates: Map<Seq<char>, Seq<char>>,
    x: Seq<Seq<char>>,
    y: Seq<Seq<char>>,
    region: Seq<char>,
)
    requires
        x.to_multiset() == y.to_multiset(),
    ensures
        region_count(candidates, x, region) == region_count(candidates, y, region),
    decreases x.len(),
{
    vstd::seq_lib::to_multiset_len(x);
    vstd::seq_lib::to_multiset_len(y);
    if x.len() > 0 {
        vstd::seq_lib::to_multiset_contains(x, x[0]);
        vstd::seq_lib::to_multiset_contains(y, x[0]);
        assert(x.contains(x[0]));
        let i = choose|i: int| 0 <= i < y.len() && y[i] == x[0];
        vstd::seq_lib::to_multiset_remove(x, 0);
        vstd::seq_lib::to_multiset_remove(y, i);
        assert(x.remove(0) =~= x.drop_first());
        lemma_region_count_permuted(candidates, x.drop_first(), y.remove(i), region);
        lemma_region_count_remove(candidates, y, region, i);
    }
}

} // verus!
