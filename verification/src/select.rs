//! The source selector: which snapshot sources belong to a day, and in which order they are
//! dispatched.
//!
//! Sources are asked for in a window of one hour either side of the target time, because
//! early archives were named after the time of upload rather than the time of capture. The
//! largest sources are dispatched first, so that the slowest jobs do not start last.

use vstd::prelude::*;
use vstd::seq_lib::*;
use vstd::multiset::*;
use itertools::Itertools;

verus! {

/// Half-width, in seconds, of the selection window around the target time.
pub const WINDOW_SECS: i64 = 3600;

/// The kinds of data that a route collector archives.
#[derive(Clone, Copy, Debug, PartialEq, Eq, Structural)]
pub enum DataKind {
    /// A full routing table at one point in time.
    Rib,
    /// The updates received over an interval.
    Updates,
}

/// One snapshot that the directory service knows of.
#[derive(Debug, PartialEq, Eq)]
pub struct SnapshotSource {
    /// Where the archive can be read.
    pub url: String,
    /// The approximate size of the archive, in bytes.
    pub rough_size: i64,
    /// When the snapshot was taken, in seconds since the epoch.
    pub observed: i64,
}

/// A question to the directory service: the sources of one kind observed within
/// `ts_start ..= ts_end`.
#[derive(Clone, Copy, Debug, PartialEq, Eq)]
pub struct SourceQuery {
    pub ts_start: i64,
    pub ts_end: i64,
    pub kind: DataKind,
}

/// Whether `observed` lies within the selection window around `target`.
pub open spec fn in_window(target: int, observed: int) -> bool {
    target - WINDOW_SECS <= observed <= target + WINDOW_SECS
}

/// The test for a source to lie within the window around `target`.
pub open spec fn selectable(target: i64) -> spec_fn(SnapshotSource) -> bool {
    |s: SnapshotSource| in_window(target as int, s.observed as int)
}

/// The rank by which sources are dispatched, lowest first: the larger the source, the lower
/// its rank.
pub open spec fn dispatch_rank(s: SnapshotSource) -> int {
    -(s.rough_size as int)
}

/// The test for a source to have rank `rank`.
pub open spec fn ranked(rank: int) -> spec_fn(SnapshotSource) -> bool {
    |s: SnapshotSource| dispatch_rank(s) == rank
}

/// The ends of the window around `target`, held to the range of timestamps.
pub open spec fn query_for(target: i64) -> SourceQuery {
    SourceQuery {
        ts_start: if target - WINDOW_SECS < i64::MIN {
            i64::MIN
        } else {
            (target - WINDOW_SECS) as i64
        },
        ts_end: if target + WINDOW_SECS > i64::MAX {
            i64::MAX
        } else {
            (target + WINDOW_SECS) as i64
        },
        kind: DataKind::Rib,
    }
}

/// Whether `sources` is in dispatch order: no source comes before a larger one.
pub open spec fn size_ordered(sources: Seq<SnapshotSource>) -> bool {
    forall|i: int, j: int|
        0 <= i < j < sources.len() ==> (#[trigger] sources[i]).rough_size
            >= (#[trigger] sources[j]).rough_size
}

/// Whether `selected` is the selection from `candidates` for the day that starts at
/// `target`: exactly the candidates observed within the window, largest first, those of equal
/// size in the order in which they were listed.
pub open spec fn is_selection(
    target: i64,
    candidates: Seq<SnapshotSource>,
    selected: Seq<SnapshotSource>,
) -> bool {
    &&& selected.to_multiset() == candidates.filter(selectable(target)).to_multiset()
    &&& forall|i: int|
        0 <= i < selected.len() ==> in_window(
            target as int,
            (#[trigger] selected[i]).observed as int,
        )
    &&& size_ordered(selected)
    &&& forall|rank: int| #[trigger]
        selected.filter(ranked(rank)) == candidates.filter(selectable(target)).filter(
            ranked(rank),
        )
}

impl DataKind {
    /// The name of the kind in queries to the directory service.
    pub fn label(&self) -> (name: &'static str)
        ensures
            name@ == (match *self {
                DataKind::Rib => "rib"@,
                DataKind::Updates => "updates"@,
            }),
    {
        match self {
            DataKind::Rib => "rib",
            DataKind::Updates => "updates",
        }
    }
}

/// Decides whether a source observed at `observed` belongs to the window around `target`.
pub fn within_window(target: i64, observed: i64) -> (inside: bool)
    ensures
        inside == in_window(target as int, observed as int),
{
    let lo: i128 = target as i128 - WINDOW_SECS as i128;
    let hi: i128 = target as i128 + WINDOW_SECS as i128;
    lo <= observed as i128 && observed as i128 <= hi
}

/// The query for the full-table snapshots of the day that starts at `target`. Its bounds are
/// the ends of the window, held to the range of timestamps, so a timestamp lies between them
/// exactly if it lies in the window.
pub fn window_query(target: i64) -> (query: SourceQuery)
    ensures
        query == query_for(target),
        forall|t: i64|
            query.ts_start <= t <= query.ts_end <==> #[trigger] in_window(target as int, t as int),
{
    let ts_start: i64 = if target < i64::MIN + WINDOW_SECS {
        i64::MIN
    } else {
        target - WINDOW_SECS
    };
    let ts_end: i64 = if target > i64::MAX - WINDOW_SECS {
        i64::MAX
    } else {
        target + WINDOW_SECS
    };
    SourceQuery { ts_start, ts_end, kind: DataKind::Rib }
}

/// The key by which sources are sorted for dispatch.
pub fn dispatch_key(source: &SnapshotSource) -> (key: i128)
    ensures
        key == dispatch_rank(*source),
{
    -(source.rough_size as i128)
}

/// Sorts sources by ascending dispatch key, through `Itertools::sorted_by_key`, which
/// collects the items and sorts them with the standard library's stable `sort_by_key`.
/// Trusted: the result holds the same sources, in ascending order of key, and sources with
/// equal keys keep the order they came in.
#[verifier::external_body]
fn sorted_by_dispatch_key(sources: Vec<SnapshotSource>) -> (sorted: Vec<SnapshotSource>)
    ensures
        sorted@.to_multiset() == sources@.to_multiset(),
        forall|i: int, j: int|
            0 <= i < j < sorted@.len() ==> dispatch_rank(#[trigger] sorted@[i]) <= dispatch_rank(
                #[trigger] sorted@[j],
            ),
        forall|rank: int| #[trigger] sorted@.filter(ranked(rank)) == sources@.filter(ranked(rank)),
{
    sources.into_iter().sorted_by_key(|source| dispatch_key(source)).collect()
}

/// Keeps the candidates that lie within the window around `target`, in their order.
fn keep_in_window(target: i64, candidates: Vec<SnapshotSource>) -> (kept: Vec<SnapshotSource>)
    ensures
        kept@ == candidates@.filter(selectable(target)),
{
    let ghost all = candidates@;
    let mut kept: Vec<SnapshotSource> = Vec::new();
    proof {
        reveal(Seq::filter);
        assert(all.take(0) =~= Seq::<SnapshotSource>::empty());
    }
    for source in it: candidates
        invariant
            it.seq() == all,
            kept@ == all.take(it.index() as int).filter(selectable(target)),
    {
        proof {
            reveal(Seq::filter);
            let next = all.take(it.index() + 1);
            assert(next.drop_last() =~= all.take(it.index() as int));
            assert(next.last() == source);
        }
        if within_window(target, source.observed) {
            kept.push(source);
        }
    }
    proof {
        assert(all.take(all.len() as int) =~= all);
    }
    kept
}

/// Selects the sources of the day that starts at `target` and puts them in dispatch order.
///
/// Exactly the candidates observed within the window are selected. They come out largest
/// first, and sources of equal size keep the order in which the directory service listed
/// them.
pub fn select_sources(target: i64, candidates: Vec<SnapshotSource>) -> (selected: Vec<
    SnapshotSource,
>)
    ensures
        is_selection(target, candidates@, selected@),
{
    let kept = keep_in_window(target, candidates);
    let ghost eligible = kept@;
    let selected = sorted_by_dispatch_key(kept);
    proof {
        assert forall|i: int| 0 <= i < selected@.len() implies in_window(
            target as int,
            (#[trigger] selected@[i]).observed as int,
        ) by {
            let s = selected@[i];
            selected@.to_multiset_ensures();
            eligible.to_multiset_ensures();
            assert(selected@.contains(s));
            assert(selected@.to_multiset().count(s) > 0);
            assert(eligible.to_multiset().count(s) > 0);
            assert(eligible.contains(s));
            candidates@.lemma_filter_contains_rev(selectable(target), s);
        }
        assert forall|i: int, j: int| 0 <= i < j < selected@.len() implies (
        #[trigger] selected@[i]).rough_size >= (#[trigger] selected@[j]).rough_size by {
            assert(dispatch_rank(selected@[i]) <= dispatch_rank(selected@[j]));
        }
    }
    selected
}

} // verus!
