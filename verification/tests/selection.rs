use pfx2as::select::{
    dispatch_key, select_sources, window_query, within_window, DataKind, SnapshotSource,
    WINDOW_SECS,
};

fn source(url: &str, rough_size: i64, observed: i64) -> SnapshotSource {
    SnapshotSource { url: url.to_string(), rough_size, observed }
}

fn urls(sources: &Vec<SnapshotSource>) -> Vec<String> {
    sources.iter().map(|s| s.url.clone()).collect()
}

#[test]
fn window_is_one_hour_either_side() {
    assert_eq!(WINDOW_SECS, 3600);
    let ts = 1_577_836_800;
    assert!(within_window(ts, ts));
    assert!(within_window(ts, ts - 3600));
    assert!(within_window(ts, ts + 3600));
    assert!(!within_window(ts, ts - 3601));
    assert!(!within_window(ts, ts + 3601));
}

#[test]
fn window_at_the_ends_of_time() {
    assert!(within_window(i64::MAX, i64::MAX));
    assert!(within_window(i64::MAX, i64::MAX - 3600));
    assert!(!within_window(i64::MAX, i64::MAX - 3601));
    assert!(within_window(i64::MIN, i64::MIN + 3600));
    assert!(!within_window(i64::MIN, i64::MIN + 3601));
    assert!(!within_window(i64::MIN, i64::MAX));
}

#[test]
fn query_spans_the_window() {
    let q = window_query(1_215_388_800);
    assert_eq!(q.ts_start, 1_215_385_200);
    assert_eq!(q.ts_end, 1_215_392_400);
    assert_eq!(q.kind, DataKind::Rib);
    assert_eq!(q.kind.label(), "rib");
    assert_eq!(DataKind::Updates.label(), "updates");
}

#[test]
fn query_bounds_stay_in_range() {
    let q = window_query(i64::MAX - 10);
    assert_eq!(q.ts_start, i64::MAX - 3610);
    assert_eq!(q.ts_end, i64::MAX);
    let q = window_query(i64::MIN + 10);
    assert_eq!(q.ts_start, i64::MIN);
    assert_eq!(q.ts_end, i64::MIN + 3610);
}

#[test]
fn dispatch_key_is_the_negated_size() {
    assert_eq!(dispatch_key(&source("a", 5, 0)), -5);
    assert_eq!(dispatch_key(&source("a", 0, 0)), 0);
    assert_eq!(dispatch_key(&source("a", i64::MIN, 0)), 9_223_372_036_854_775_808i128);
    assert_eq!(dispatch_key(&source("a", i64::MAX, 0)), -9_223_372_036_854_775_807i128);
}

#[test]
fn sources_outside_the_window_are_never_selected() {
    let ts = 1_000_000;
    let selected = select_sources(
        ts,
        vec![
            source("early", 10, ts - 3601),
            source("first", 10, ts - 3600),
            source("late", 10, ts + 3601),
            source("last", 10, ts + 3600),
            source("far", 99, ts + 86_400),
        ],
    );
    assert_eq!(urls(&selected), vec!["first", "last"]);
}

#[test]
fn larger_sources_are_dispatched_first() {
    let ts = 0;
    let selected = select_sources(
        ts,
        vec![source("small", 1, 0), source("large", 300, 10), source("medium", 20, -10)],
    );
    assert_eq!(urls(&selected), vec!["large", "medium", "small"]);
    for pair in selected.windows(2) {
        assert!(pair[0].rough_size >= pair[1].rough_size);
    }
}

#[test]
fn equal_sizes_keep_their_listing_order() {
    let selected = select_sources(
        50,
        vec![
            source("a", 7, 50),
            source("b", 9, 50),
            source("c", 7, 50),
            source("d", 9, 50),
            source("e", 7, 50),
        ],
    );
    assert_eq!(urls(&selected), vec!["b", "d", "a", "c", "e"]);
}

#[test]
fn nothing_in_the_window_selects_nothing() {
    assert!(select_sources(0, vec![]).is_empty());
    assert!(select_sources(0, vec![source("x", 1, 4000)]).is_empty());
}

#[test]
fn selection_keeps_every_field() {
    let selected = select_sources(100, vec![source("http://example.net/rib.bz2", 42, 99)]);
    assert_eq!(selected.len(), 1);
    assert_eq!(selected[0].url, "http://example.net/rib.bz2");
    assert_eq!(selected[0].rough_size, 42);
    assert_eq!(selected[0].observed, 99);
}

#[test]
fn extreme_sizes_are_ordered_without_overflow() {
    let selected = select_sources(
        0,
        vec![source("min", i64::MIN, 0), source("max", i64::MAX, 0), source("zero", 0, 0)],
    );
    assert_eq!(urls(&selected), vec!["max", "zero", "min"]);
}
