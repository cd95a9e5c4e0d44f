//! The record filter: which decoded route elements count, and as what.
//!
//! An element counts only if it names exactly one origin AS. An element without origin, or
//! with several, cannot be attributed and is left out rather than guessed at.

use vstd::prelude::*;
use crate::aggregate::Aggregator;
use crate::record::{Observation, ObservationView};

verus! {

/// One decoded route element, as the decoder hands it over.
#[derive(Debug, PartialEq, Eq)]
pub struct RouteElement {
    pub origin_asns: Option<Vec<u32>>,
    pub peer_asn: u32,
    pub peer_ip: String,
    pub prefix: String,
}

/// The mathematical content of a [`RouteElement`].
pub struct RouteElementView {
    pub origin_asns: Option<Seq<u32>>,
    pub peer_asn: u32,
    pub peer_ip: Seq<char>,
    pub prefix: Seq<char>,
}

impl View for RouteElement {
    type V = RouteElementView;

    open spec fn view(&self) -> RouteElementView {
        RouteElementView {
            origin_asns: match self.origin_asns {
                Some(asns) => Some(asns@),
                None => None,
            },
            peer_asn: self.peer_asn,
            peer_ip: self.peer_ip@,
            prefix: self.prefix@,
        }
    }
}

/// The views of a list of route elements, in order.
pub open spec fn element_views(elems: Seq<RouteElement>) -> Seq<RouteElementView> {
    elems.map_values(|e: RouteElement| e@)
}

/// The origin of an announcement, if it names exactly one.
pub open spec fn sole_origin(origin_asns: Option<Seq<u32>>) -> Option<u32> {
    match origin_asns {
        Some(asns) => if asns.len() == 1 {
            Some(asns[0])
        } else {
            None
        },
        None => None,
    }
}

/// The observation that an element contributes, if it contributes one.
pub open spec fn normalized(elem: RouteElementView) -> Option<ObservationView> {
    match sole_origin(elem.origin_asns) {
        Some(origin) => Some(
            ObservationView {
                origin,
                peer_asn: elem.peer_asn,
                peer_ip: elem.peer_ip,
                prefix: elem.prefix,
            },
        ),
        None => None,
    }
}

/// The observations that a stream of elements contributes, in stream order.
pub open spec fn qualifying(elems: Seq<RouteElementView>) -> Seq<ObservationView>
    decreases elems.len(),
{
    if elems.len() == 0 {
        Seq::empty()
    } else {
        let earlier = qualifying(elems.drop_last());
        match normalized(elems.last()) {
            Some(obs) => earlier.push(obs),
            None => earlier,
        }
    }
}

/// Picks the origin of an announcement that names exactly one.
pub fn single_origin(origin_asns: &Option<Vec<u32>>) -> (origin: Option<u32>)
    ensures
        origin == sole_origin(
            match *origin_asns {
                Some(asns) => Some(asns@),
                None => None,
            },
        ),
{
    match origin_asns {
        Some(asns) => {
            if asns.len() == 1 {
                Some(asns[0])
            } else {
                None
            }
        },
        None => None,
    }
}

/// Turns a decoded element into the observation it contributes, or into nothing if its
/// origin is missing or ambiguous.
pub fn normalize(elem: &RouteElement) -> (kept: Option<Observation>)
    ensures
        kept is Some <==> normalized(elem@) is Some,
        kept matches Some(obs) ==> normalized(elem@) == Some(obs@),
{
    match single_origin(&elem.origin_asns) {
        Some(origin) => Some(
            Observation::new(origin, elem.peer_asn, elem.peer_ip.clone(), elem.prefix.clone()),
        ),
        None => None,
    }
}

/// Feeds one source's elements to the aggregator: every qualifying element is recorded, in
/// stream order, and the others leave no trace.
pub fn ingest(agg: &mut Aggregator, elems: &Vec<RouteElement>)
    requires
        old(agg).wf(),
    ensures
        final(agg).wf(),
        final(agg).received() == old(agg).received() + qualifying(element_views(elems@)),
{
    let ghost all = element_views(elems@);
    let mut i: usize = 0;
    assert(all.take(0) =~= Seq::<RouteElementView>::empty());
    while i < elems.len()
        invariant
            i <= elems.len(),
            all == element_views(elems@),
            agg.wf(),
            agg.received() == old(agg).received() + qualifying(all.take(i as int)),
        decreases elems.len() - i,
    {
        proof {
            let next = all.take(i + 1);
            assert(next.drop_last() =~= all.take(i as int));
            assert(next.last() == elems@[i as int]@);
        }
        let ghost so_far = qualifying(all.take(i as int));
        match normalize(&elems[i]) {
            Some(obs) => {
                agg.record(obs);
                assert(agg.received() =~= old(agg).received() + so_far.push(obs@));
            },
            None => {},
        }
        i += 1;
    }
    assert(all.take(elems.len() as int) =~= all);
}

/// An observation is among those that a stream contributes exactly if some element of the
/// stream normalizes to it.
pub proof fn lemma_qualifying_members(elems: Seq<RouteElementView>, obs: ObservationView)
    ensures
        qualifying(elems).contains(obs) <==> exists|i: int|
            0 <= i < elems.len() && normalized(#[trigger] elems[i]) == Some(obs),
    decreases elems.len(),
{
    if elems.len() > 0 {
        let front = elems.drop_last();
        lemma_qualifying_members(front, obs);
        let earlier = qualifying(front);
        if qualifying(elems).contains(obs) {
            let hit = normalized(elems.last()) == Some(obs);
            if !hit {
                match normalized(elems.last()) {
                    Some(other) => {
                        let j = choose|j: int|
                            0 <= j < earlier.push(other).len() && earlier.push(other)[j] == obs;
                        assert(earlier[j] == obs);
                    },
                    None => {},
                }
                assert(earlier.contains(obs));
                let i = choose|i: int|
                    0 <= i < front.len() && normalized(#[trigger] front[i]) == Some(obs);
                assert(elems[i] == front[i]);
            } else {
                assert(normalized(elems[elems.len() - 1]) == Some(obs));
            }
        }
        if exists|i: int| 0 <= i < elems.len() && normalized(#[trigger] elems[i]) == Some(obs) {
            let i = choose|i: int|
                0 <= i < elems.len() && normalized(#[trigger] elems[i]) == Some(obs);
            if i < elems.len() - 1 {
                assert(front[i] == elems[i]);
                assert(earlier.contains(obs));
                let j = choose|j: int| 0 <= j < earlier.len() && earlier[j] == obs;
                match normalized(elems.last()) {
                    Some(other) => {
                        assert(earlier.push(other)[j] == obs);
                    },
                    None => {},
                }
            } else {
                assert(earlier.push(obs)[earlier.len() as int] == obs);
            }
        }
    }
}

} // verus!
