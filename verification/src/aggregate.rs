//! The aggregator: the single owner of the summary while observations arrive.
//!
//! Entries are kept in ascending order of key, so a key is found by bisection and the rows of
//! the report come out in a fixed order. Within an entry the peer ASes and the feeds are kept
//! free of repetitions, so their number is the cardinality of the set they stand for.

use vstd::prelude::*;
use vstd::seq_lib::*;
use crate::order::{
    Key, Rank, compare_keys, key_lt, lemma_key_lt_asymmetric, lemma_key_lt_transitive,
};
use crate::record::{Feed, Observation, ObservationView};
use crate::report::{Row, lemma_listing_unique, lists, render, render_text, row_views, rows_of};
use crate::summary::{
    Diversity, Summary, absorb, lemma_feeds_cover_asns, lemma_summarize_empty,
    lemma_summarize_push, summarize,
};

verus! {

/// A feed as stored: the peer AS and the text of the session address.
struct PeerFeed {
    peer_asn: u32,
    peer_ip: String,
}

impl PeerFeed {
    /// The feed that is stored.
    spec fn feed(&self) -> Feed {
        (self.peer_asn, self.peer_ip@)
    }
}

/// What is stored for one key.
struct Entry {
    prefix: String,
    origin: u32,
    peer_asns: Vec<u32>,
    peer_feeds: Vec<PeerFeed>,
}

impl Entry {
    /// The key that the entry is stored for.
    spec fn key(&self) -> Key {
        (self.prefix@, self.origin)
    }

    /// The stored feeds, in the order in which they were first seen.
    spec fn feeds(&self) -> Seq<Feed> {
        self.peer_feeds@.map_values(|f: PeerFeed| f.feed())
    }

    /// The two sets that the entry stands for.
    spec fn diversity(&self) -> Diversity {
        Diversity { peer_asns: self.peer_asns@.to_set(), peer_feeds: self.feeds().to_set() }
    }

    /// Nothing is stored twice.
    spec fn wf(&self) -> bool {
        self.peer_asns@.no_duplicates() && self.feeds().no_duplicates()
    }
}

/// Whether `entries` is in strictly ascending order of key.
spec fn sorted(entries: Seq<Entry>) -> bool {
    forall|i: int, j: int|
        0 <= i < j < entries.len() ==> key_lt(
            (#[trigger] entries[i]).key(),
            (#[trigger] entries[j]).key(),
        )
}

/// Whether `entries` stands for `summary`: every entry holds the two sets of its key, and
/// every key of the summary has an entry.
spec fn represents(entries: Seq<Entry>, summary: Summary) -> bool {
    &&& forall|i: int|
        0 <= i < entries.len() ==> {
            let e = #[trigger] entries[i];
            summary.dom().contains(e.key()) && summary[e.key()] == e.diversity()
        }
    &&& forall|k: Key| #[trigger]
        summary.dom().contains(k) ==> exists|i: int|
            0 <= i < entries.len() && (#[trigger] entries[i]).key() == k
}

/// Replacing an entry by one with the same key and one more sighting absorbs that sighting.
proof fn lemma_update_represents(
    before: Seq<Entry>,
    after: Seq<Entry>,
    at: int,
    summary: Summary,
    r: ObservationView,
)
    requires
        sorted(before),
        represents(before, summary),
        0 <= at < before.len(),
        after.len() == before.len(),
        forall|j: int| 0 <= j < before.len() && j != at ==> after[j] == before[j],
        before[at].key() == r.key(),
        after[at].key() == r.key(),
        after[at].diversity() == before[at].diversity().with(r.feed()),
    ensures
        sorted(after),
        represents(after, absorb(summary, r)),
{
    let next = absorb(summary, r);
    assert forall|i: int, j: int| 0 <= i < j < after.len() implies key_lt(
        (#[trigger] after[i]).key(),
        (#[trigger] after[j]).key(),
    ) by {
        assert(key_lt(before[i].key(), before[j].key()));
    }
    assert forall|i: int| 0 <= i < after.len() implies {
        let e = #[trigger] after[i];
        next.dom().contains(e.key()) && next[e.key()] == e.diversity()
    } by {
        if i != at {
            assert(after[i] == before[i]);
            if i < at {
                assert(key_lt(before[i].key(), before[at].key()));
                lemma_key_lt_asymmetric(before[i].key(), before[at].key());
            } else {
                assert(key_lt(before[at].key(), before[i].key()));
                lemma_key_lt_asymmetric(before[at].key(), before[i].key());
            }
        }
    }
    assert forall|k: Key| #[trigger] next.dom().contains(k) implies exists|i: int|
        0 <= i < after.len() && (#[trigger] after[i]).key() == k by {
        if k == r.key() {
            assert(after[at].key() == k);
        } else {
            assert(summary.dom().contains(k));
            let i = choose|i: int| 0 <= i < before.len() && (#[trigger] before[i]).key() == k;
            assert(after[i].key() == k);
        }
    }
}

/// Inserting a first entry for a key, at the key's place in the order, absorbs the sighting.
proof fn lemma_insert_represents(
    before: Seq<Entry>,
    at: int,
    fresh: Entry,
    summary: Summary,
    r: ObservationView,
)
    requires
        sorted(before),
        represents(before, summary),
        0 <= at <= before.len(),
        forall|i: int| 0 <= i < at ==> key_lt((#[trigger] before[i]).key(), r.key()),
        forall|i: int| at <= i < before.len() ==> key_lt(r.key(), (#[trigger] before[i]).key()),
        fresh.key() == r.key(),
        fresh.diversity() == Diversity::none().with(r.feed()),
    ensures
        sorted(before.insert(at, fresh)),
        represents(before.insert(at, fresh), absorb(summary, r)),
{
    let after = before.insert(at, fresh);
    let next = absorb(summary, r);
    assert forall|i: int| 0 <= i < before.len() implies (#[trigger] before[i]).key()
        != r.key() by {
        if i < at {
            lemma_key_lt_asymmetric(before[i].key(), r.key());
        } else {
            lemma_key_lt_asymmetric(r.key(), before[i].key());
        }
    }
    if summary.dom().contains(r.key()) {
        let i = choose|i: int| 0 <= i < before.len() && (#[trigger] before[i]).key() == r.key();
        assert(false);
    }
    assert forall|i: int| 0 <= i < after.len() implies (#[trigger] after[i]) == (if i < at {
        before[i]
    } else if i == at {
        fresh
    } else {
        before[i - 1]
    }) by {}
    assert forall|i: int, j: int| 0 <= i < j < after.len() implies key_lt(
        (#[trigger] after[i]).key(),
        (#[trigger] after[j]).key(),
    ) by {
        if j < at {
            assert(key_lt(before[i].key(), before[j].key()));
        } else if j == at {
            assert(key_lt(before[i].key(), r.key()));
        } else if i < at {
            assert(key_lt(before[i].key(), before[j - 1].key()));
        } else if i == at {
            assert(key_lt(r.key(), before[j - 1].key()));
        } else {
            assert(key_lt(before[i - 1].key(), before[j - 1].key()));
        }
    }
    assert forall|i: int| 0 <= i < after.len() implies {
        let e = #[trigger] after[i];
        next.dom().contains(e.key()) && next[e.key()] == e.diversity()
    } by {
        if i < at {
            assert(before[i].key() != r.key());
        } else if i > at {
            assert(before[i - 1].key() != r.key());
        }
    }
    assert forall|k: Key| #[trigger] next.dom().contains(k) implies exists|i: int|
        0 <= i < after.len() && (#[trigger] after[i]).key() == k by {
        if k == r.key() {
            assert(after[at].key() == k);
        } else {
            assert(summary.dom().contains(k));
            let i = choose|i: int| 0 <= i < before.len() && (#[trigger] before[i]).key() == k;
            if i < at {
                assert(after[i].key() == k);
            } else {
                assert(after[i + 1].key() == k);
            }
        }
    }
}

/// Whether `asn` is among `asns`.
fn holds_asn(asns: &Vec<u32>, asn: u32) -> (held: bool)
    ensures
        held == asns@.contains(asn),
{
    let mut i: usize = 0;
    while i < asns.len()
        invariant
            i <= asns.len(),
            forall|j: int| 0 <= j < i ==> asns@[j] != asn,
        decreases asns.len() - i,
    {
        if asns[i] == asn {
            return true;
        }
        i += 1;
    }
    false
}

/// Whether the feed `(peer_asn, peer_ip)` is among `feeds`.
fn holds_feed(feeds: &Vec<PeerFeed>, peer_asn: u32, peer_ip: &String) -> (held: bool)
    ensures
        held == feeds@.map_values(|f: PeerFeed| f.feed()).contains((peer_asn, peer_ip@)),
{
    let ghost all = feeds@.map_values(|f: PeerFeed| f.feed());
    let mut i: usize = 0;
    while i < feeds.len()
        invariant
            i <= feeds.len(),
            all == feeds@.map_values(|f: PeerFeed| f.feed()),
            forall|j: int| 0 <= j < i ==> all[j] != (peer_asn, peer_ip@),
        decreases feeds.len() - i,
    {
        if feeds[i].peer_asn == peer_asn && feeds[i].peer_ip == *peer_ip {
            assert(all[i as int] == (peer_asn, peer_ip@));
            return true;
        }
        i += 1;
    }
    false
}

/// Adds one sighting to an entry.
fn note(entry: &mut Entry, peer_asn: u32, peer_ip: String)
    requires
        old(entry).wf(),
    ensures
        final(entry).wf(),
        final(entry).key() == old(entry).key(),
        final(entry).diversity() == old(entry).diversity().with((peer_asn, peer_ip@)),
{
    let ghost feed: Feed = (peer_asn, peer_ip@);
    let ghost asns0 = entry.peer_asns@;
    let ghost feeds0 = entry.feeds();
    if !holds_asn(&entry.peer_asns, peer_asn) {
        entry.peer_asns.push(peer_asn);
        proof {
            asns0.lemma_push_to_set_commute(peer_asn);
        }
    } else {
        assert(asns0.to_set().insert(peer_asn) =~= asns0.to_set());
    }
    if !holds_feed(&entry.peer_feeds, peer_asn, &peer_ip) {
        entry.peer_feeds.push(PeerFeed { peer_asn, peer_ip });
        proof {
            assert(entry.feeds() =~= feeds0.push(feed));
            feeds0.lemma_push_to_set_commute(feed);
        }
    } else {
        assert(feeds0.to_set().insert(feed) =~= feeds0.to_set());
    }
}

/// The running summary of the observations received so far.
pub struct Aggregator {
    entries: Vec<Entry>,
    received: Ghost<Seq<ObservationView>>,
}

impl View for Aggregator {
    type V = Summary;

    /// The summary of everything received.
    open spec fn view(&self) -> Summary {
        summarize(self.received())
    }
}

impl Aggregator {
    /// The observations received so far, in order of arrival.
    pub closed spec fn received(&self) -> Seq<ObservationView> {
        self.received@
    }

    /// The stored entries stand for the summary of what was received.
    pub closed spec fn wf(&self) -> bool {
        &&& forall|i: int| 0 <= i < self.entries@.len() ==> (#[trigger] self.entries@[i]).wf()
        &&& sorted(self.entries@)
        &&& represents(self.entries@, summarize(self.received@))
    }

    /// An aggregator that has received nothing.
    pub fn new() -> (agg: Aggregator)
        ensures
            agg.wf(),
            agg.received() == Seq::<ObservationView>::empty(),
            agg@ == Map::<Key, Diversity>::empty(),
    {
        proof {
            lemma_summarize_empty();
        }
        Aggregator { entries: Vec::new(), received: Ghost(Seq::empty()) }
    }

    /// Finds the place of the key `(prefix, origin)`: the index of its entry if it has one,
    /// and otherwise the index at which its entry belongs.
    fn locate(&self, prefix: &str, origin: u32) -> (place: (usize, bool))
        requires
            self.wf(),
        ensures
            place.0 <= self.entries@.len(),
            forall|i: int|
                0 <= i < place.0 ==> key_lt((#[trigger] self.entries@[i]).key(), (prefix@, origin)),
            place.1 ==> place.0 < self.entries@.len() && self.entries@[place.0 as int].key() == (
                prefix@,
                origin,
            ),
            !place.1 ==> forall|i: int|
                place.0 <= i < self.entries@.len() ==> key_lt(
                    (prefix@, origin),
                    (#[trigger] self.entries@[i]).key(),
                ),
    {
        let ghost k: Key = (prefix@, origin);
        let mut lo: usize = 0;
        let mut hi: usize = self.entries.len();
        while lo < hi
            invariant
                lo <= hi <= self.entries@.len(),
                sorted(self.entries@),
                k == (prefix@, origin),
                forall|i: int| 0 <= i < lo ==> key_lt((#[trigger] self.entries@[i]).key(), k),
                forall|i: int|
                    hi <= i < self.entries@.len() ==> key_lt(
                        k,
                        (#[trigger] self.entries@[i]).key(),
                    ),
            decreases hi - lo,
        {
            let mid: usize = lo + (hi - lo) / 2;
            let e = &self.entries[mid];
            let ghost km = self.entries@[mid as int].key();
            match compare_keys(e.prefix.as_str(), e.origin, prefix, origin) {
                Rank::Before => {
                    proof {
                        assert forall|i: int| 0 <= i < mid + 1 implies key_lt(
                            (#[trigger] self.entries@[i]).key(),
                            k,
                        ) by {
                            if i < mid {
                                assert(key_lt(self.entries@[i].key(), km));
                                lemma_key_lt_transitive(self.entries@[i].key(), km, k);
                            }
                        }
                    }
                    lo = mid + 1;
                },
                Rank::Same => {
                    proof {
                        assert forall|i: int| 0 <= i < mid implies key_lt(
                            (#[trigger] self.entries@[i]).key(),
                            k,
                        ) by {
                            assert(key_lt(self.entries@[i].key(), km));
                        }
                    }
                    return (mid, true);
                },
                Rank::After => {
                    proof {
                        assert forall|i: int| mid <= i < self.entries@.len() implies key_lt(
                            k,
                            (#[trigger] self.entries@[i]).key(),
                        ) by {
                            if i > mid {
                                assert(key_lt(km, self.entries@[i].key()));
                                lemma_key_lt_transitive(k, km, self.entries@[i].key());
                            }
                        }
                    }
                    hi = mid;
                },
            }
        }
        (lo, false)
    }

    /// Receives one observation: its peer AS and its feed join the sets of its key.
    pub fn record(&mut self, obs: Observation)
        requires
            old(self).wf(),
        ensures
            final(self).wf(),
            final(self).received() == old(self).received().push(obs@),
            final(self)@ == absorb(old(self)@, obs@),
    {
        let ghost r = obs@;
        let ghost before = self.entries@;
        let ghost summary = summarize(self.received@);
        let Observation { origin, peer_asn, peer_ip, prefix } = obs;
        let (at, found) = self.locate(prefix.as_str(), origin);
        if found {
            let entry = &mut self.entries[at];
            note(entry, peer_asn, peer_ip);
            proof {
                lemma_update_represents(before, self.entries@, at as int, summary, r);
            }
        } else {
            let mut peer_asns: Vec<u32> = Vec::new();
            peer_asns.push(peer_asn);
            let mut peer_feeds: Vec<PeerFeed> = Vec::new();
            peer_feeds.push(PeerFeed { peer_asn, peer_ip });
            let fresh = Entry { prefix, origin, peer_asns, peer_feeds };
            proof {
                let no_asns = Seq::<u32>::empty();
                let no_feeds = Seq::<Feed>::empty();
                assert(fresh.peer_asns@ =~= no_asns.push(peer_asn));
                assert(fresh.feeds() =~= no_feeds.push(r.feed()));
                no_asns.lemma_push_to_set_commute(peer_asn);
                no_feeds.lemma_push_to_set_commute(r.feed());
                assert(no_asns.to_set() =~= Set::<u32>::empty());
                assert(no_feeds.to_set() =~= Set::<Feed>::empty());
                lemma_insert_represents(before, at as int, fresh, summary, r);
            }
            self.entries.insert(at, fresh);
        }
        proof {
            lemma_summarize_push(self.received@, r);
        }
        self.received = Ghost(self.received@.push(r));
    }

    /// The number of keys seen so far.
    pub fn len(&self) -> (n: usize)
        requires
            self.wf(),
        ensures
            self@.dom().finite(),
            n == self@.dom().len(),
    {
        proof {
            self.lemma_keys();
        }
        self.entries.len()
    }

    /// The sizes of the two sets of the key `(prefix, origin)`: first the number of peer ASes,
    /// then the number of feeds. `None` if the key was never seen.
    pub fn counts(&self, prefix: &str, origin: u32) -> (found: Option<(usize, usize)>)
        requires
            self.wf(),
        ensures
            found is Some <==> self@.dom().contains((prefix@, origin)),
            found matches Some(pair) ==> {
                &&& pair.0 == self@[(prefix@, origin)].peer_asns.len()
                &&& pair.1 == self@[(prefix@, origin)].peer_feeds.len()
                &&& pair.0 <= pair.1
            },
    {
        let ghost k: Key = (prefix@, origin);
        let (at, found) = self.locate(prefix, origin);
        if found {
            let e = &self.entries[at];
            proof {
                self.lemma_entry_counts(at as int);
            }
            Some((e.peer_asns.len(), e.peer_feeds.len()))
        } else {
            proof {
                if self@.dom().contains(k) {
                    let i = choose|i: int|
                        0 <= i < self.entries@.len() && (#[trigger] self.entries@[i]).key() == k;
                    if i < at {
                        lemma_key_lt_asymmetric(self.entries@[i].key(), k);
                    } else {
                        lemma_key_lt_asymmetric(k, self.entries@[i].key());
                    }
                }
            }
            None
        }
    }

    /// The rows of the report: one per key, in ascending order of key. In every row the
    /// number of feeds is at least the number of peer ASes.
    pub fn rows(&self) -> (rows: Vec<Row>)
        requires
            self.wf(),
        ensures
            lists(row_views(rows@), self@),
            row_views(rows@) == rows_of(self@),
            forall|i: int| 0 <= i < rows@.len() ==> (#[trigger] rows@[i]).peer_asns <= rows@[i].peer_feeds,
    {
        let mut rows: Vec<Row> = Vec::new();
        let mut i: usize = 0;
        while i < self.entries.len()
            invariant
                self.wf(),
                i <= self.entries@.len(),
                rows@.len() == i,
                forall|j: int|
                    0 <= j < i ==> {
                        let row = #[trigger] rows@[j];
                        let e = self.entries@[j];
                        &&& row.prefix@ == e.prefix@
                        &&& row.origin == e.origin
                        &&& row.peer_asns == e.peer_asns@.len()
                        &&& row.peer_feeds == e.peer_feeds@.len()
                    },
            decreases self.entries@.len() - i,
        {
            let e = &self.entries[i];
            rows.push(
                Row {
                    prefix: e.prefix.clone(),
                    origin: e.origin,
                    peer_asns: e.peer_asns.len(),
                    peer_feeds: e.peer_feeds.len(),
                },
            );
            i += 1;
        }
        proof {
            let listing = row_views(rows@);
            assert forall|j: int| 0 <= j < listing.len() implies {
                let row = #[trigger] listing[j];
                &&& row.key() == self.entries@[j].key()
                &&& self@.dom().contains(row.key())
                &&& row.peer_asns == self@[row.key()].peer_asns.len()
                &&& row.peer_feeds == self@[row.key()].peer_feeds.len()
                &&& row.peer_asns <= row.peer_feeds
            } by {
                assert(listing[j] == rows@[j]@);
                self.lemma_entry_counts(j);
            }
            assert forall|a: int, b: int| 0 <= a < b < listing.len() implies key_lt(
                (#[trigger] listing[a]).key(),
                (#[trigger] listing[b]).key(),
            ) by {
                assert(key_lt(self.entries@[a].key(), self.entries@[b].key()));
            }
            assert forall|k: Key| #[trigger] self@.dom().contains(k) implies exists|j: int|
                0 <= j < listing.len() && (#[trigger] listing[j]).key() == k by {
                let j = choose|j: int|
                    0 <= j < self.entries@.len() && (#[trigger] self.entries@[j]).key() == k;
                assert(listing[j].key() == k);
            }
            assert(lists(listing, self@));
            lemma_listing_unique(listing, rows_of(self@), self@);
            assert forall|i: int| 0 <= i < rows@.len() implies (#[trigger] rows@[i]).peer_asns
                <= rows@[i].peer_feeds by {
                assert(listing[i] == rows@[i]@);
            }
        }
        rows
    }

    /// Writes the report of the summary: the header, then one line per key in ascending
    /// order of key.
    pub fn report(&self) -> (text: String)
        requires
            self.wf(),
        ensures
            text@ == render_text(rows_of(self@)),
    {
        let rows = self.rows();
        render(&rows)
    }

    /// The stored lengths of entry `at` are the cardinalities of its key's two sets.
    proof fn lemma_entry_counts(&self, at: int)
        requires
            self.wf(),
            0 <= at < self.entries@.len(),
        ensures
            self@.dom().contains(self.entries@[at].key()),
            self.entries@[at].peer_asns@.len() == self@[self.entries@[at].key()].peer_asns.len(),
            self.entries@[at].peer_feeds@.len() == self@[self.entries@[at].key()].peer_feeds.len(),
            self.entries@[at].peer_asns@.len() <= self.entries@[at].peer_feeds@.len(),
    {
        let e = self.entries@[at];
        assert(e.wf());
        e.peer_asns@.unique_seq_to_set();
        e.feeds().unique_seq_to_set();
        lemma_feeds_cover_asns(self.received@, e.key());
    }

    /// The keys of the summary are the keys of the entries, each once.
    proof fn lemma_keys(&self)
        requires
            self.wf(),
        ensures
            self@.dom().finite(),
            self@.dom().len() == self.entries@.len(),
    {
        let keys = self.entries@.map_values(|e: Entry| e.key());
        assert forall|i: int, j: int| 0 <= i < j < keys.len() implies keys[i] != keys[j] by {
            assert(key_lt(self.entries@[i].key(), self.entries@[j].key()));
            lemma_key_lt_asymmetric(keys[i], keys[j]);
        }
        assert(keys.no_duplicates());
        keys.unique_seq_to_set();
        seq_to_set_is_finite(keys);
        assert forall|k: Key| self@.dom().contains(k) <==> keys.to_set().contains(k) by {
            if self@.dom().contains(k) {
                let i = choose|i: int|
                    0 <= i < self.entries@.len() && (#[trigger] self.entries@[i]).key() == k;
                assert(keys[i] == k);
            }
            if keys.to_set().contains(k) {
                let i = choose|i: int| 0 <= i < keys.len() && keys[i] == k;
                assert(self.entries@[i].key() == k);
            }
        }
        assert(self@.dom() =~= keys.to_set());
    }
}

} // verus!
