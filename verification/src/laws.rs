//! What holds of every run, stated over the mathematical model and proved.

use vstd::prelude::*;
use vstd::seq_lib::*;
use crate::filter::{RouteElementView, lemma_qualifying_members, normalized, qualifying, sole_origin};
use crate::order::Key;
use crate::record::{Feed, ObservationView};
use crate::report::{RowView, lemma_listing_exists, lists, render_text, rows_of};
use crate::run::{Action, Event, RunView, failed_in, is_course, observed_in, steps, texts};
use crate::select::{
    SnapshotSource, dispatch_rank, in_window, is_selection, ranked, selectable, size_ordered,
};
use crate::summary::{
    Summary, absorb, lemma_feeds_cover_asns, lemma_summary_by_membership,
    lemma_summary_is_finite, summarize,
};

verus! {

/// The report that a collection of observations leads to.
pub open spec fn report_of(records: Seq<ObservationView>) -> Seq<char> {
    render_text(rows_of(summarize(records)))
}

/// Rearrangements of one another have the same members.
pub proof fn lemma_same_members<A>(a: Seq<A>, b: Seq<A>)
    requires
        a.to_multiset() == b.to_multiset(),
    ensures
        forall|x: A| a.contains(x) <==> b.contains(x),
{
    a.to_multiset_ensures();
    b.to_multiset_ensures();
    assert forall|x: A| a.contains(x) <==> b.contains(x) by {
        assert(a.contains(x) <==> a.to_multiset().count(x) > 0);
        assert(b.contains(x) <==> b.to_multiset().count(x) > 0);
    }
}

/// Something is in the concatenation of streams exactly if it is in one of the streams.
pub proof fn lemma_flatten_members<A>(streams: Seq<Seq<A>>, x: A)
    ensures
        streams.flatten().contains(x) <==> exists|i: int|
            0 <= i < streams.len() && (#[trigger] streams[i]).contains(x),
    decreases streams.len(),
{
    if streams.len() == 0 {
        assert(streams.flatten() =~= Seq::<A>::empty());
    } else {
        let front = streams.drop_last();
        let last = streams.last();
        lemma_flatten_members(front, x);
        front.lemma_flatten_push(last);
        assert(front.push(last) =~= streams);
        let flat = streams.flatten();
        assert(flat =~= front.flatten() + last);
        if flat.contains(x) {
            let j = choose|j: int| 0 <= j < flat.len() && flat[j] == x;
            if j < front.flatten().len() {
                assert(front.flatten()[j] == x);
                assert(front.flatten().contains(x));
                let i = choose|i: int| 0 <= i < front.len() && (#[trigger] front[i]).contains(x);
                assert(streams[i] == front[i]);
            } else {
                assert(last[j - front.flatten().len()] == x);
                assert(streams[streams.len() - 1].contains(x));
            }
        }
        if exists|i: int| 0 <= i < streams.len() && (#[trigger] streams[i]).contains(x) {
            let i = choose|i: int| 0 <= i < streams.len() && (#[trigger] streams[i]).contains(x);
            if i < front.len() {
                assert(front[i] == streams[i]);
                assert(front.flatten().contains(x));
                let j = choose|j: int| 0 <= j < front.flatten().len() && front.flatten()[j] == x;
                assert(flat[j] == x);
            } else {
                let j = choose|j: int| 0 <= j < last.len() && last[j] == x;
                assert(flat[front.flatten().len() + j] == x);
            }
        }
    }
}

/// An element whose origin is missing or ambiguous never contributes: the summary is the
/// same as if the element had not been in the stream.
pub proof fn law_ambiguous_elements_never_count(elems: Seq<RouteElementView>, at: int)
    requires
        0 <= at < elems.len(),
        sole_origin(elems[at].origin_asns) is None,
    ensures
        summarize(qualifying(elems)) == summarize(qualifying(elems.remove(at))),
        report_of(qualifying(elems)) == report_of(qualifying(elems.remove(at))),
{
    let rest = elems.remove(at);
    assert forall|obs: ObservationView| qualifying(elems).contains(obs) <==> qualifying(
        rest,
    ).contains(obs) by {
        lemma_qualifying_members(elems, obs);
        lemma_qualifying_members(rest, obs);
        if qualifying(elems).contains(obs) {
            let i = choose|i: int|
                0 <= i < elems.len() && normalized(#[trigger] elems[i]) == Some(obs);
            if i < at {
                assert(rest[i] == elems[i]);
            } else {
                assert(rest[i - 1] == elems[i]);
            }
        }
        if qualifying(rest).contains(obs) {
            let i = choose|i: int|
                0 <= i < rest.len() && normalized(#[trigger] rest[i]) == Some(obs);
            if i < at {
                assert(elems[i] == rest[i]);
            } else {
                assert(elems[i + 1] == rest[i]);
            }
        }
    }
    lemma_summary_by_membership(qualifying(elems), qualifying(rest));
}

/// An element with exactly one origin always contributes: its key is in the summary, with
/// its peer AS among the key's peer ASes and its feed among the key's feeds.
pub proof fn law_single_origin_elements_always_count(elems: Seq<RouteElementView>, at: int)
    requires
        0 <= at < elems.len(),
        sole_origin(elems[at].origin_asns) is Some,
    ensures
        ({
            let e = elems[at];
            let key = (e.prefix, sole_origin(e.origin_asns)->Some_0);
            let summary = summarize(qualifying(elems));
            &&& summary.dom().contains(key)
            &&& summary[key].peer_asns.contains(e.peer_asn)
            &&& summary[key].peer_feeds.contains((e.peer_asn, e.peer_ip))
        }),
{
    let e = elems[at];
    let obs = normalized(e)->Some_0;
    let records = qualifying(elems);
    lemma_qualifying_members(elems, obs);
    assert(records.contains(obs));
    let j = choose|j: int| 0 <= j < records.len() && records[j] == obs;
    assert(records[j].key() == obs.key());
    assert(records[j].peer_asn == e.peer_asn);
    assert(records[j].feed() == (e.peer_asn, e.peer_ip));
}

/// Every key of a summary has at least as many feeds as peer ASes.
pub proof fn law_feeds_at_least_peers(records: Seq<ObservationView>, key: Key)
    requires
        summarize(records).dom().contains(key),
    ensures
        summarize(records)[key].peer_asns.finite(),
        summarize(records)[key].peer_feeds.finite(),
        summarize(records)[key].peer_feeds.len() >= summarize(records)[key].peer_asns.len(),
{
    lemma_feeds_cover_asns(records, key);
}

/// Whatever was observed, the report has a row for each key of the summary and for nothing
/// else, in ascending order of key, with the sizes of the key's two sets.
pub proof fn law_report_lists_the_summary(records: Seq<ObservationView>)
    ensures
        lists(rows_of(summarize(records)), summarize(records)),
{
    lemma_summary_is_finite(records);
    lemma_listing_exists(summarize(records));
}

/// In every row of a report, the count of feeds is at least the count of peer ASes.
pub proof fn law_rows_have_feeds_at_least_peers(
    records: Seq<ObservationView>,
    rows: Seq<RowView>,
    i: int,
)
    requires
        lists(rows, summarize(records)),
        0 <= i < rows.len(),
    ensures
        rows[i].peer_feeds >= rows[i].peer_asns,
{
    law_feeds_at_least_peers(records, rows[i].key());
}

/// The order in which observations arrive does not matter: rearranging them changes
/// neither the summary nor the report.
pub proof fn law_record_order_is_immaterial(a: Seq<ObservationView>, b: Seq<ObservationView>)
    requires
        a.to_multiset() == b.to_multiset(),
    ensures
        summarize(a) == summarize(b),
        report_of(a) == report_of(b),
{
    lemma_same_members(a, b);
    lemma_summary_by_membership(a, b);
}

/// The order of the elements within a source does not matter.
pub proof fn law_element_order_is_immaterial(a: Seq<RouteElementView>, b: Seq<RouteElementView>)
    requires
        a.to_multiset() == b.to_multiset(),
    ensures
        summarize(qualifying(a)) == summarize(qualifying(b)),
        report_of(qualifying(a)) == report_of(qualifying(b)),
{
    lemma_same_members(a, b);
    lemma_same_elements_same_summary(a, b);
}

/// Streams with the same elements lead to the same summary.
proof fn lemma_same_elements_same_summary(a: Seq<RouteElementView>, b: Seq<RouteElementView>)
    requires
        forall|e: RouteElementView| a.contains(e) <==> b.contains(e),
    ensures
        summarize(qualifying(a)) == summarize(qualifying(b)),
{
    assert forall|obs: ObservationView| qualifying(a).contains(obs) <==> qualifying(b).contains(
        obs,
    ) by {
        lemma_qualifying_members(a, obs);
        lemma_qualifying_members(b, obs);
        if qualifying(a).contains(obs) {
            let i = choose|i: int| 0 <= i < a.len() && normalized(#[trigger] a[i]) == Some(obs);
            assert(a.contains(a[i]));
            let j = choose|j: int| 0 <= j < b.len() && b[j] == a[i];
            assert(normalized(b[j]) == Some(obs));
        }
        if qualifying(b).contains(obs) {
            let i = choose|i: int| 0 <= i < b.len() && normalized(#[trigger] b[i]) == Some(obs);
            assert(b.contains(b[i]));
            let j = choose|j: int| 0 <= j < a.len() && a[j] == b[i];
            assert(normalized(a[j]) == Some(obs));
        }
    }
    lemma_summary_by_membership(qualifying(a), qualifying(b));
}

/// The order in which sources are processed does not matter: taking the same sources in
/// another order changes neither the summary nor the report.
pub proof fn law_source_order_is_immaterial(
    sources: Seq<Seq<RouteElementView>>,
    reordered: Seq<Seq<RouteElementView>>,
)
    requires
        sources.to_multiset() == reordered.to_multiset(),
    ensures
        summarize(qualifying(sources.flatten())) == summarize(qualifying(reordered.flatten())),
        report_of(qualifying(sources.flatten())) == report_of(qualifying(reordered.flatten())),
{
    lemma_same_members(sources, reordered);
    let a = sources.flatten();
    let b = reordered.flatten();
    assert forall|e: RouteElementView| a.contains(e) <==> b.contains(e) by {
        lemma_flatten_members(sources, e);
        lemma_flatten_members(reordered, e);
        if a.contains(e) {
            let i = choose|i: int| 0 <= i < sources.len() && (#[trigger] sources[i]).contains(e);
            assert(sources.contains(sources[i]));
            let j = choose|j: int| 0 <= j < reordered.len() && reordered[j] == sources[i];
            assert(reordered[j].contains(e));
        }
        if b.contains(e) {
            let i = choose|i: int|
                0 <= i < reordered.len() && (#[trigger] reordered[i]).contains(e);
            assert(reordered.contains(reordered[i]));
            let j = choose|j: int| 0 <= j < sources.len() && sources[j] == reordered[i];
            assert(sources[j].contains(e));
        }
    }
    lemma_same_elements_same_summary(a, b);
}

/// Whether `arrival` is a schedule of `streams`: what arrives at the aggregator is what the
/// workers sent, each observation as often as it was sent, in whatever order.
pub open spec fn is_schedule(
    streams: Seq<Seq<ObservationView>>,
    arrival: Seq<ObservationView>,
) -> bool {
    arrival.to_multiset() == streams.flatten().to_multiset()
}

/// The outcome of a run does not depend on scheduling: whichever way the workers'
/// observations interleave, the summary and the report are the same.
pub proof fn law_schedule_is_immaterial(
    streams: Seq<Seq<ObservationView>>,
    first: Seq<ObservationView>,
    second: Seq<ObservationView>,
)
    requires
        is_schedule(streams, first),
        is_schedule(streams, second),
    ensures
        summarize(first) == summarize(second),
        report_of(first) == report_of(second),
        summarize(first) == summarize(streams.flatten()),
{
    law_record_order_is_immaterial(first, second);
    law_record_order_is_immaterial(first, streams.flatten());
}

/// A source observed outside the window is never selected.
pub proof fn law_selection_stays_in_window(
    target: i64,
    candidates: Seq<SnapshotSource>,
    selected: Seq<SnapshotSource>,
    source: SnapshotSource,
)
    requires
        is_selection(target, candidates, selected),
        !in_window(target as int, source.observed as int),
    ensures
        !selected.contains(source),
{
    if selected.contains(source) {
        let i = choose|i: int| 0 <= i < selected.len() && selected[i] == source;
        assert(in_window(target as int, selected[i].observed as int));
    }
}

/// Every candidate observed within the window is selected.
pub proof fn law_selection_covers_window(
    target: i64,
    candidates: Seq<SnapshotSource>,
    selected: Seq<SnapshotSource>,
    source: SnapshotSource,
)
    requires
        is_selection(target, candidates, selected),
        candidates.contains(source),
        in_window(target as int, source.observed as int),
    ensures
        selected.contains(source),
{
    let eligible = candidates.filter(selectable(target));
    let i = choose|i: int| 0 <= i < candidates.len() && candidates[i] == source;
    candidates.lemma_filter_contains(selectable(target), i);
    assert(eligible.contains(source));
    lemma_same_members(selected, eligible);
}

/// Of two selected sources of different size, the larger is dispatched first.
pub proof fn law_larger_sources_go_first(
    target: i64,
    candidates: Seq<SnapshotSource>,
    selected: Seq<SnapshotSource>,
    i: int,
    j: int,
)
    requires
        is_selection(target, candidates, selected),
        0 <= i < selected.len(),
        0 <= j < selected.len(),
        selected[i].rough_size > selected[j].rough_size,
    ensures
        i < j,
{
    if j < i {
        assert(selected[j].rough_size >= selected[i].rough_size);
    }
}

/// The selection is determined: two selections from the same candidates for the same day
/// are the same list, source by source.
pub proof fn law_selection_is_unique(
    target: i64,
    candidates: Seq<SnapshotSource>,
    first: Seq<SnapshotSource>,
    second: Seq<SnapshotSource>,
)
    requires
        is_selection(target, candidates, first),
        is_selection(target, candidates, second),
    ensures
        first == second,
{
    assert forall|rank: int| #[trigger] first.filter(ranked(rank)) == second.filter(
        ranked(rank),
    ) by {
        assert(first.filter(ranked(rank)) == candidates.filter(selectable(target)).filter(
            ranked(rank),
        ));
    }
    lemma_ordered_groups_determine(first, second);
}

/// In a list in dispatch order, nothing outranks the first source.
proof fn lemma_first_ranks_lowest(a: Seq<SnapshotSource>, rank: int)
    requires
        size_ordered(a),
        a.len() > 0,
        rank < dispatch_rank(a[0]),
    ensures
        a.filter(ranked(rank)).len() == 0,
{
    let group = a.filter(ranked(rank));
    if group.len() > 0 {
        let s = group[0];
        assert(group.contains(s));
        a.lemma_filter_contains_rev(ranked(rank), s);
        let k = choose|k: int| 0 <= k < a.len() && a[k] == s;
        if k > 0 {
            assert(a[0].rough_size >= a[k].rough_size);
        }
    }
}

/// Two lists in dispatch order that agree rank by rank are the same list.
proof fn lemma_ordered_groups_determine(a: Seq<SnapshotSource>, b: Seq<SnapshotSource>)
    requires
        size_ordered(a),
        size_ordered(b),
        forall|rank: int| #[trigger] a.filter(ranked(rank)) == b.filter(ranked(rank)),
    ensures
        a == b,
    decreases a.len() + b.len(),
{
    if a.len() == 0 || b.len() == 0 {
        if a.len() > 0 {
            let r = dispatch_rank(a[0]);
            a.lemma_filter_contains(ranked(r), 0);
            b.lemma_filter_len(ranked(r));
            assert(a.filter(ranked(r)) == b.filter(ranked(r)));
        }
        if b.len() > 0 {
            let r = dispatch_rank(b[0]);
            b.lemma_filter_contains(ranked(r), 0);
            a.lemma_filter_len(ranked(r));
            assert(a.filter(ranked(r)) == b.filter(ranked(r)));
        }
        assert(a =~= b);
    } else {
        let ra = dispatch_rank(a[0]);
        let rb = dispatch_rank(b[0]);
        let ta = a.drop_first();
        let tb = b.drop_first();
        assert(a =~= seq![a[0]] + ta);
        assert(b =~= seq![b[0]] + tb);
        a.lemma_filter_contains(ranked(ra), 0);
        b.lemma_filter_contains(ranked(rb), 0);
        assert(a.filter(ranked(ra)) == b.filter(ranked(ra)));
        assert(a.filter(ranked(rb)) == b.filter(ranked(rb)));
        if ra < rb {
            lemma_first_ranks_lowest(b, ra);
        }
        if rb < ra {
            lemma_first_ranks_lowest(a, rb);
        }
        assert(ra == rb);
        ta.lemma_filter_prepend(a[0], ranked(ra));
        tb.lemma_filter_prepend(b[0], ranked(ra));
        let ga = seq![a[0]] + ta.filter(ranked(ra));
        let gb = seq![b[0]] + tb.filter(ranked(ra));
        assert(ga == gb);
        assert(ga[0] == gb[0]);
        assert(a[0] == b[0]);
        assert forall|rank: int| #[trigger] ta.filter(ranked(rank)) == tb.filter(
            ranked(rank),
        ) by {
            ta.lemma_filter_prepend(a[0], ranked(rank));
            tb.lemma_filter_prepend(b[0], ranked(rank));
            assert(a.filter(ranked(rank)) == b.filter(ranked(rank)));
            if rank == ra {
                let x = seq![a[0]] + ta.filter(ranked(rank));
                let y = seq![b[0]] + tb.filter(ranked(rank));
                assert(x.drop_first() =~= ta.filter(ranked(rank)));
                assert(y.drop_first() =~= tb.filter(ranked(rank)));
            } else {
                assert(Seq::<SnapshotSource>::empty() + ta.filter(ranked(rank)) =~= ta.filter(
                    ranked(rank),
                ));
                assert(Seq::<SnapshotSource>::empty() + tb.filter(ranked(rank)) =~= tb.filter(
                    ranked(rank),
                ));
            }
        }
        assert forall|i: int, j: int| 0 <= i < j < ta.len() implies (#[trigger] ta[i]).rough_size
            >= (#[trigger] ta[j]).rough_size by {
            assert(a[i + 1].rough_size >= a[j + 1].rough_size);
        }
        assert forall|i: int, j: int| 0 <= i < j < tb.len() implies (#[trigger] tb[i]).rough_size
            >= (#[trigger] tb[j]).rough_size by {
            assert(b[i + 1].rough_size >= b[j + 1].rough_size);
        }
        lemma_ordered_groups_determine(ta, tb);
    }
}

/// A run that finds the day's artifact in place does nothing: it is told to skip, and
/// whatever it is told afterwards it never asks the directory service, dispatches a source
/// or writes a report.
pub proof fn law_existing_artifact_is_left_alone(
    states: Seq<RunView>,
    events: Seq<Event>,
    actions: Seq<Action>,
)
    requires
        is_course(states, events, actions),
        events.len() > 0,
        states[0].stage is Probing,
        events[0] == (Event::Artifact { exists: true }),
    ensures
        actions[0] is Skip,
        forall|i: int| 0 < i < actions.len() ==> #[trigger] actions[i] is Ignore,
        forall|i: int| 0 < i < states.len() ==> (#[trigger] states[i]).stage is Finished,
{
    assert(steps(states[0], events[0], states[1], actions[0]));
    lemma_finished_stays_finished(states, events, actions, events.len() as int);
}

/// Once a run has finished, every later event is ignored.
proof fn lemma_finished_stays_finished(
    states: Seq<RunView>,
    events: Seq<Event>,
    actions: Seq<Action>,
    upto: int,
)
    requires
        is_course(states, events, actions),
        1 <= upto <= events.len(),
        states[1].stage is Finished,
    ensures
        forall|i: int| 0 < i < upto ==> #[trigger] actions[i] is Ignore,
        forall|i: int| 0 < i <= upto ==> (#[trigger] states[i]).stage is Finished,
    decreases upto,
{
    if upto > 1 {
        lemma_finished_stays_finished(states, events, actions, upto - 1);
        assert(steps(states[upto - 1], events[upto - 1], states[upto], actions[upto - 1]));
    }
}

/// A finished run ignores whatever it is told, and stays as it is.
pub proof fn law_finished_run_is_inert(pre: RunView, event: Event, post: RunView, action: Action)
    requires
        pre.stage is Finished,
        steps(pre, event, post, action),
    ensures
        post == pre,
        action is Ignore,
{
}

/// Absorbing is commutative: two observations can be absorbed in either order.
pub proof fn law_absorb_commutes(summary: Summary, a: ObservationView, b: ObservationView)
    ensures
        absorb(absorb(summary, a), b) == absorb(absorb(summary, b), a),
{
    let ab = absorb(absorb(summary, a), b);
    let ba = absorb(absorb(summary, b), a);
    assert forall|k: Key| ab.dom().contains(k) implies ab[k] == ba[k] by {
        assert(ab[k].peer_asns =~= ba[k].peer_asns);
        assert(ab[k].peer_feeds =~= ba[k].peer_feeds);
    }
    assert(ab =~= ba);
}

/// Absorbing is idempotent: an observation that is absorbed again changes nothing.
pub proof fn law_absorb_idempotent(summary: Summary, a: ObservationView)
    ensures
        absorb(absorb(summary, a), a) == absorb(summary, a),
{
    let once = absorb(summary, a);
    let twice = absorb(once, a);
    assert forall|k: Key| once.dom().contains(k) implies once[k] == twice[k] by {
        assert(once[k].peer_asns =~= twice[k].peer_asns);
        assert(once[k].peer_feeds =~= twice[k].peer_feeds);
    }
    assert(once =~= twice);
}

/// While a run collects, it keeps every observation and every failure it is told of, in
/// the order told, and loses none that it had.
pub proof fn law_collecting_keeps_everything(
    states: Seq<RunView>,
    events: Seq<Event>,
    actions: Seq<Action>,
)
    requires
        is_course(states, events, actions),
        states[0].stage is Collecting,
        forall|i: int| 0 <= i < events.len() ==> !(#[trigger] events[i] is Drained),
    ensures
        states.last().stage is Collecting,
        states.last().target == states[0].target,
        states.last().received == states[0].received + observed_in(events),
        states.last().failed == states[0].failed + failed_in(events),
    decreases events.len(),
{
    if events.len() == 0 {
        assert(states.last().received =~= states[0].received + observed_in(events));
        assert(states.last().failed =~= states[0].failed + failed_in(events));
    } else {
        let n = events.len() as int;
        let s = states.drop_last();
        let e = events.drop_last();
        let a = actions.drop_last();
        assert forall|i: int| 0 <= i < e.len() implies steps(s[i], #[trigger] e[i], s[i + 1], a[i]) by {
            assert(steps(states[i], events[i], states[i + 1], actions[i]));
        }
        law_collecting_keeps_everything(s, e, a);
        assert(s.last() == states[n - 1]);
        assert(steps(states[n - 1], events[n - 1], states[n], actions[n - 1]));
        assert(!(events[n - 1] is Drained));
        assert(states.last().received =~= states[0].received + observed_in(events));
        assert(states.last().failed =~= states[0].failed + failed_in(events));
    }
}

/// A run that collects until it is told that every worker has finished reports on all it
/// had and all it was told of, and on nothing else; and it names every source that failed.
pub proof fn law_drained_run_reports_everything(
    states: Seq<RunView>,
    events: Seq<Event>,
    actions: Seq<Action>,
)
    requires
        is_course(states, events, actions),
        states[0].stage is Collecting,
        events.len() >= 1,
        events.last() is Drained,
        forall|i: int| 0 <= i < events.len() - 1 ==> !(#[trigger] events[i] is Drained),
    ensures
        states.last().stage is Finished,
        actions.last() matches Action::Write { text, failed } && text@ == report_of(
            states[0].received + observed_in(events.drop_last()),
        ) && texts(failed@) == states[0].failed + failed_in(events.drop_last()),
{
    let n = events.len() as int;
    let s = states.drop_last();
    let e = events.drop_last();
    let a = actions.drop_last();
    assert forall|i: int| 0 <= i < e.len() implies steps(s[i], #[trigger] e[i], s[i + 1], a[i]) by {
        assert(steps(states[i], events[i], states[i + 1], actions[i]));
    }
    assert forall|i: int| 0 <= i < e.len() implies !(#[trigger] e[i] is Drained) by {
        assert(e[i] == events[i]);
    }
    law_collecting_keeps_everything(s, e, a);
    assert(s.last() == states[n - 1]);
    assert(steps(states[n - 1], events[n - 1], states[n], actions[n - 1]));
}

} // verus!
