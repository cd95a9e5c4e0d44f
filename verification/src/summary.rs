//! The diversity summary as a mathematical object.
//!
//! A summary maps each aggregation key to the set of peer ASes and the set of feeds that were
//! seen announcing it. It is defined by membership alone, so it cannot depend on the order in
//! which observations arrive.

use vstd::prelude::*;
use vstd::set_lib::*;
use vstd::seq_lib::*;
use crate::order::Key;
use crate::record::{Feed, ObservationView};

verus! {

/// What is known about one key: who announced it, and from which sessions.
pub struct Diversity {
    pub peer_asns: Set<u32>,
    pub peer_feeds: Set<Feed>,
}

impl Diversity {
    /// The diversity of a key that nothing was seen for.
    pub open spec fn none() -> Diversity {
        Diversity { peer_asns: Set::empty(), peer_feeds: Set::empty() }
    }

    /// The diversity after one more sighting by `feed`.
    pub open spec fn with(self, feed: Feed) -> Diversity {
        Diversity {
            peer_asns: self.peer_asns.insert(feed.0),
            peer_feeds: self.peer_feeds.insert(feed),
        }
    }
}

/// A summary: the diversity of every key that was seen.
pub type Summary = Map<Key, Diversity>;

/// The keys that occur among `records`.
pub open spec fn keys_of(records: Seq<ObservationView>) -> Set<Key> {
    Set::new(|k: Key| exists|i: int| 0 <= i < records.len() && (#[trigger] records[i]).key() == k)
}

/// The peer ASes that `records` show announcing `key`.
pub open spec fn peer_asns_of(records: Seq<ObservationView>, key: Key) -> Set<u32> {
    Set::new(
        |asn: u32|
            exists|i: int|
                0 <= i < records.len() && (#[trigger] records[i]).key() == key
                    && records[i].peer_asn == asn,
    )
}

/// The feeds that `records` show announcing `key`.
pub open spec fn peer_feeds_of(records: Seq<ObservationView>, key: Key) -> Set<Feed> {
    Set::new(
        |feed: Feed|
            exists|i: int|
                0 <= i < records.len() && (#[trigger] records[i]).key() == key
                    && records[i].feed() == feed,
    )
}

/// The diversity that `records` give to `key`.
pub open spec fn diversity_of(records: Seq<ObservationView>, key: Key) -> Diversity {
    Diversity { peer_asns: peer_asns_of(records, key), peer_feeds: peer_feeds_of(records, key) }
}

/// The summary of a collection of observations.
pub open spec fn summarize(records: Seq<ObservationView>) -> Summary {
    Map::new(|k: Key| keys_of(records).contains(k), |k: Key| diversity_of(records, k))
}

/// The summary after one more observation.
pub open spec fn absorb(summary: Summary, r: ObservationView) -> Summary {
    let prior = if summary.dom().contains(r.key()) {
        summary[r.key()]
    } else {
        Diversity::none()
    };
    summary.insert(r.key(), prior.with(r.feed()))
}

/// Nothing observed, nothing summarized.
pub proof fn lemma_summarize_empty()
    ensures
        summarize(Seq::<ObservationView>::empty()) == Map::<Key, Diversity>::empty(),
{
    assert(summarize(Seq::<ObservationView>::empty()) =~= Map::<Key, Diversity>::empty());
}

/// Summarizing one more observation is absorbing it into the summary so far.
pub proof fn lemma_summarize_push(records: Seq<ObservationView>, r: ObservationView)
    ensures
        summarize(records.push(r)) == absorb(summarize(records), r),
{
    let more = records.push(r);
    let n = records.len() as int;
    assert(more[n] == r);
    assert forall|i: int| 0 <= i < n implies more[i] == records[i] by {}
    let before = summarize(records);
    let after = absorb(before, r);
    assert forall|k: Key| summarize(more).dom().contains(k) <==> after.dom().contains(k) by {
        if summarize(more).dom().contains(k) {
            let i = choose|i: int| 0 <= i < more.len() && (#[trigger] more[i]).key() == k;
            if i < n {
                assert(records[i].key() == k);
            }
        }
        if before.dom().contains(k) {
            let i = choose|i: int| 0 <= i < n && (#[trigger] records[i]).key() == k;
            assert(more[i].key() == k);
        }
    }
    assert forall|k: Key| summarize(more).dom().contains(k) implies summarize(more)[k]
        == after[k] by {
        let prior = if before.dom().contains(r.key()) {
            before[r.key()]
        } else {
            Diversity::none()
        };
        if k == r.key() {
            if !before.dom().contains(k) {
                assert(peer_asns_of(records, k) =~= Set::<u32>::empty());
                assert(peer_feeds_of(records, k) =~= Set::<Feed>::empty());
            }
            assert(prior == diversity_of(records, k));
        }
        let want = after[k];
        assert forall|asn: u32| peer_asns_of(more, k).contains(asn) <==> want.peer_asns.contains(
            asn,
        ) by {
            if peer_asns_of(more, k).contains(asn) {
                let i = choose|i: int|
                    0 <= i < more.len() && (#[trigger] more[i]).key() == k && more[i].peer_asn
                        == asn;
                if i < n {
                    assert(records[i].key() == k && records[i].peer_asn == asn);
                }
            }
            if peer_asns_of(records, k).contains(asn) {
                let i = choose|i: int|
                    0 <= i < n && (#[trigger] records[i]).key() == k && records[i].peer_asn == asn;
                assert(more[i].key() == k && more[i].peer_asn == asn);
            }
        }
        assert forall|feed: Feed| peer_feeds_of(more, k).contains(feed)
            <==> want.peer_feeds.contains(feed) by {
            if peer_feeds_of(more, k).contains(feed) {
                let i = choose|i: int|
                    0 <= i < more.len() && (#[trigger] more[i]).key() == k && more[i].feed()
                        == feed;
                if i < n {
                    assert(records[i].key() == k && records[i].feed() == feed);
                }
            }
            if peer_feeds_of(records, k).contains(feed) {
                let i = choose|i: int|
                    0 <= i < n && (#[trigger] records[i]).key() == k && records[i].feed() == feed;
                assert(more[i].key() == k && more[i].feed() == feed);
            }
        }
        assert(peer_asns_of(more, k) =~= want.peer_asns);
        assert(peer_feeds_of(more, k) =~= want.peer_feeds);
    }
    assert(summarize(more) =~= after);
}

/// The peer ASes of a key are exactly the ASes of its feeds, both sets are finite, and so a
/// key never has fewer feeds than peer ASes.
pub proof fn lemma_feeds_cover_asns(records: Seq<ObservationView>, key: Key)
    ensures
        peer_feeds_of(records, key).finite(),
        peer_asns_of(records, key).finite(),
        peer_asns_of(records, key) == peer_feeds_of(records, key).map(|f: Feed| f.0),
        peer_asns_of(records, key).len() <= peer_feeds_of(records, key).len(),
{
    let feeds = peer_feeds_of(records, key);
    let asns = peer_asns_of(records, key);
    let all = records.map_values(|r: ObservationView| r.feed());
    seq_to_set_is_finite(all);
    assert forall|feed: Feed| feeds.contains(feed) implies all.to_set().contains(feed) by {
        let i = choose|i: int|
            0 <= i < records.len() && (#[trigger] records[i]).key() == key && records[i].feed()
                == feed;
        assert(all[i] == feed);
    }
    lemma_set_subset_finite(all.to_set(), feeds);
    let project = |f: Feed| f.0;
    assert forall|asn: u32| asns.contains(asn) <==> feeds.map(project).contains(asn) by {
        if asns.contains(asn) {
            let i = choose|i: int|
                0 <= i < records.len() && (#[trigger] records[i]).key() == key
                    && records[i].peer_asn == asn;
            assert(feeds.contains(records[i].feed()));
            assert(project(records[i].feed()) == asn);
        }
        if feeds.map(project).contains(asn) {
            let f = choose|f: Feed| feeds.contains(f) && asn == project(f);
            let i = choose|i: int|
                0 <= i < records.len() && (#[trigger] records[i]).key() == key && records[i].feed()
                    == f;
            assert(records[i].peer_asn == asn);
        }
    }
    assert(asns =~= feeds.map(project));
    lemma_map_size_bound(feeds, asns, project);
}

/// A summary has finitely many keys.
pub proof fn lemma_summary_is_finite(records: Seq<ObservationView>)
    ensures
        summarize(records).dom().finite(),
{
    let all = records.map_values(|r: ObservationView| r.key());
    seq_to_set_is_finite(all);
    assert forall|k: Key| keys_of(records).contains(k) implies all.to_set().contains(k) by {
        let i = choose|i: int| 0 <= i < records.len() && (#[trigger] records[i]).key() == k;
        assert(all[i] == k);
    }
    lemma_set_subset_finite(all.to_set(), keys_of(records));
    assert(summarize(records).dom() =~= keys_of(records));
}

/// Two collections with the same members have the same summary, whatever the order and
/// however often a member repeats.
pub proof fn lemma_summary_by_membership(a: Seq<ObservationView>, b: Seq<ObservationView>)
    requires
        forall|r: ObservationView| a.contains(r) <==> b.contains(r),
    ensures
        summarize(a) == summarize(b),
{
    lemma_summary_grows(a, b);
    lemma_summary_grows(b, a);
    assert forall|k: Key| summarize(a).dom().contains(k) implies summarize(a)[k] == summarize(
        b,
    )[k] by {
        assert(peer_asns_of(a, k).subset_of(peer_asns_of(b, k)));
        assert(peer_asns_of(b, k).subset_of(peer_asns_of(a, k)));
        assert(peer_feeds_of(a, k).subset_of(peer_feeds_of(b, k)));
        assert(peer_feeds_of(b, k).subset_of(peer_feeds_of(a, k)));
        assert(peer_asns_of(a, k) =~= peer_asns_of(b, k));
        assert(peer_feeds_of(a, k) =~= peer_feeds_of(b, k));
    }
    assert(keys_of(a) =~= keys_of(b));
    assert(summarize(a) =~= summarize(b));
}

/// More observations never take anything out of a summary.
pub proof fn lemma_summary_grows(a: Seq<ObservationView>, b: Seq<ObservationView>)
    requires
        forall|r: ObservationView| a.contains(r) ==> b.contains(r),
    ensures
        keys_of(a).subset_of(keys_of(b)),
        forall|k: Key| #[trigger] peer_asns_of(a, k).subset_of(peer_asns_of(b, k)),
        forall|k: Key| #[trigger] peer_feeds_of(a, k).subset_of(peer_feeds_of(b, k)),
{
    assert forall|i: int| 0 <= i < a.len() implies exists|j: int|
        0 <= j < b.len() && b[j] == #[trigger] a[i] by {
        assert(a.contains(a[i]));
    }
    assert forall|k: Key| keys_of(a).contains(k) implies keys_of(b).contains(k) by {
        let i = choose|i: int| 0 <= i < a.len() && (#[trigger] a[i]).key() == k;
        let j = choose|j: int| 0 <= j < b.len() && b[j] == a[i];
        assert(b[j].key() == k);
    }
    assert forall|k: Key| #[trigger] peer_asns_of(a, k).subset_of(peer_asns_of(b, k)) by {
        assert forall|asn: u32| peer_asns_of(a, k).contains(asn) implies peer_asns_of(
            b,
            k,
        ).contains(asn) by {
            let i = choose|i: int|
                0 <= i < a.len() && (#[trigger] a[i]).key() == k && a[i].peer_asn == asn;
            let j = choose|j: int| 0 <= j < b.len() && b[j] == a[i];
            assert(b[j].key() == k && b[j].peer_asn == asn);
        }
    }
    assert forall|k: Key| #[trigger] peer_feeds_of(a, k).subset_of(peer_feeds_of(b, k)) by {
        assert forall|feed: Feed| peer_feeds_of(a, k).contains(feed) implies peer_feeds_of(
            b,
            k,
        ).contains(feed) by {
            let i = choose|i: int|
                0 <= i < a.len() && (#[trigger] a[i]).key() == k && a[i].feed() == feed;
            let j = choose|j: int| 0 <= j < b.len() && b[j] == a[i];
            assert(b[j].key() == k && b[j].feed() == feed);
        }
    }
}

} // verus!
