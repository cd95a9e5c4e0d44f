use crossbeam_channel::unbounded;
use threadpool::ThreadPool;
use pfx2as::record::Observation;
use pfx2as::run::{exit_code, run_consumer, Action, Event, Outcome, Run, Stage, POOL_WIDTH};
use pfx2as::select::{DataKind, SnapshotSource};
use pfx2as::startup::StartupError;

fn observed(origin: u32, peer_asn: u32, peer_ip: &str, prefix: &str) -> Event {
    Event::Observed {
        obs: Observation::new(origin, peer_asn, peer_ip.to_string(), prefix.to_string()),
    }
}

fn failure(url: &str) -> Event {
    Event::SourceFailed { url: url.to_string() }
}

fn source(url: &str, rough_size: i64, observed: i64) -> SnapshotSource {
    SnapshotSource { url: url.to_string(), rough_size, observed }
}

fn collecting(target: i64) -> Run {
    let mut run = Run::new(target);
    assert!(matches!(run.step(Event::Artifact { exists: false }), Action::Query { .. }));
    assert!(matches!(run.step(Event::Listing { candidates: vec![] }), Action::Dispatch { .. }));
    assert_eq!(run.stage(), Stage::Collecting);
    run
}

#[test]
fn pool_is_twenty_wide() {
    assert_eq!(POOL_WIDTH, 20);
}

#[test]
fn an_existing_artifact_is_skipped() {
    let mut run = Run::new(1_577_836_800);
    assert_eq!(run.stage(), Stage::Probing);
    assert!(matches!(run.step(Event::Artifact { exists: true }), Action::Skip));
    assert_eq!(run.stage(), Stage::Finished);
    assert!(matches!(run.step(Event::Artifact { exists: false }), Action::Ignore));
    assert!(matches!(run.step(Event::Listing { candidates: vec![] }), Action::Ignore));
    assert!(matches!(run.step(observed(1, 2, "a", "p")), Action::Ignore));
    assert!(matches!(run.step(failure("x")), Action::Ignore));
    assert!(matches!(run.step(Event::Drained), Action::Ignore));
    assert_eq!(run.stage(), Stage::Finished);
}

#[test]
fn a_missing_artifact_leads_to_a_query() {
    let mut run = Run::new(1_577_836_800);
    match run.step(Event::Artifact { exists: false }) {
        Action::Query { query } => {
            assert_eq!(query.ts_start, 1_577_833_200);
            assert_eq!(query.ts_end, 1_577_840_400);
            assert_eq!(query.kind, DataKind::Rib);
        }
        _ => panic!("expected a query"),
    }
    assert_eq!(run.stage(), Stage::Selecting);
}

#[test]
fn the_listing_is_dispatched_largest_first() {
    let mut run = Run::new(1000);
    run.step(Event::Artifact { exists: false });
    let candidates = vec![
        source("small", 1, 1000),
        source("outside", 500, 9000),
        source("large", 50, 900),
        source("medium", 10, 1100),
    ];
    match run.step(Event::Listing { candidates }) {
        Action::Dispatch { sources } => {
            let urls: Vec<&str> = sources.iter().map(|s| s.url.as_str()).collect();
            assert_eq!(urls, vec!["large", "medium", "small"]);
        }
        _ => panic!("expected a dispatch"),
    }
    assert_eq!(run.stage(), Stage::Collecting);
}

#[test]
fn no_sources_give_a_header_only_report() {
    let mut run = collecting(0);
    match run.step(Event::Drained) {
        Action::Write { text, failed } => {
            assert_eq!(text, "#pfx,origin,peer_asns,peer_feeds\n");
            assert!(failed.is_empty());
        }
        _ => panic!("expected a report"),
    }
    assert_eq!(run.stage(), Stage::Finished);
}

#[test]
fn observations_are_collected_until_drained() {
    let mut run = collecting(0);
    assert!(matches!(run.step(observed(100, 200, "1.1.1.1", "10.0.0.0/8")), Action::Continue));
    assert!(matches!(run.step(observed(100, 200, "1.1.1.2", "10.0.0.0/8")), Action::Continue));
    assert_eq!(run.stage(), Stage::Collecting);
    match run.step(Event::Drained) {
        Action::Write { text, failed } => {
            assert_eq!(text, "#pfx,origin,peer_asns,peer_feeds\n10.0.0.0/8,100,1,2\n");
            assert!(failed.is_empty());
        }
        _ => panic!("expected a report"),
    }
}

#[test]
fn failed_sources_are_counted_and_the_rest_is_kept() {
    let mut run = collecting(0);
    run.step(observed(1, 2, "a", "p"));
    assert!(matches!(run.step(failure("http://a")), Action::Continue));
    run.step(observed(1, 3, "b", "p"));
    assert!(matches!(run.step(failure("http://b")), Action::Continue));
    match run.step(Event::Drained) {
        Action::Write { text, failed } => {
            assert_eq!(text, "#pfx,origin,peer_asns,peer_feeds\np,1,2,2\n");
            assert_eq!(failed, vec!["http://a", "http://b"]);
        }
        _ => panic!("expected a report"),
    }
}

#[test]
fn events_out_of_turn_are_ignored() {
    let mut run = Run::new(0);
    assert!(matches!(run.step(Event::Drained), Action::Ignore));
    assert!(matches!(run.step(observed(1, 2, "a", "p")), Action::Ignore));
    assert!(matches!(run.step(Event::Listing { candidates: vec![] }), Action::Ignore));
    assert_eq!(run.stage(), Stage::Probing);
    run.step(Event::Artifact { exists: false });
    assert!(matches!(run.step(Event::Artifact { exists: true }), Action::Ignore));
    assert!(matches!(run.step(Event::Drained), Action::Ignore));
    assert_eq!(run.stage(), Stage::Selecting);
    run.step(Event::Listing { candidates: vec![] });
    assert!(matches!(run.step(Event::Artifact { exists: true }), Action::Ignore));
    assert!(matches!(run.step(Event::Listing { candidates: vec![] }), Action::Ignore));
    assert_eq!(run.stage(), Stage::Collecting);
}

#[test]
fn the_consumer_drains_the_channel() {
    let (ch_out, ch_in) = unbounded();
    ch_out.send(observed(100, 200, "1.1.1.1", "10.0.0.0/8")).unwrap();
    ch_out.send(failure("http://gone")).unwrap();
    ch_out.send(observed(100, 200, "1.1.1.2", "10.0.0.0/8")).unwrap();
    drop(ch_out);
    let mut run = collecting(0);
    match run_consumer(&mut run, &ch_in, usize::MAX) {
        Some(Action::Write { text, failed }) => {
            assert_eq!(text, "#pfx,origin,peer_asns,peer_feeds\n10.0.0.0/8,100,1,2\n");
            assert_eq!(failed, vec!["http://gone"]);
        }
        _ => panic!("expected a report"),
    }
    assert_eq!(run.stage(), Stage::Finished);
}

#[test]
fn the_consumer_takes_what_many_senders_send() {
    let (ch_out, ch_in) = unbounded();
    let pool = ThreadPool::new(3);
    for w in 0..4u32 {
        let ch_out_cl = ch_out.clone();
        pool.execute(move || {
            for n in 0..50u32 {
                ch_out_cl.send(observed(7, w, &format!("ip{}", n % 5), "10.0.0.0/8")).unwrap();
            }
        });
    }
    drop(ch_out);
    let mut run = collecting(0);
    let last = run_consumer(&mut run, &ch_in, usize::MAX);
    pool.join();
    match last {
        Some(Action::Write { text, failed }) => {
            assert_eq!(text, "#pfx,origin,peer_asns,peer_feeds\n10.0.0.0/8,7,4,20\n");
            assert!(failed.is_empty());
        }
        _ => panic!("expected a report"),
    }
}

#[test]
fn the_consumer_stops_at_its_limit() {
    let (ch_out, ch_in) = unbounded();
    for n in 0..5u32 {
        ch_out.send(observed(1, n, "a", "p")).unwrap();
    }
    let mut run = collecting(0);
    assert!(run_consumer(&mut run, &ch_in, 0).is_none());
    assert_eq!(ch_in.len(), 5);
    assert!(run_consumer(&mut run, &ch_in, 2).is_none());
    assert_eq!(ch_in.len(), 3);
    assert_eq!(run.stage(), Stage::Collecting);
    drop(ch_out);
    match run_consumer(&mut run, &ch_in, 10) {
        Some(Action::Write { text, .. }) => {
            assert_eq!(text, "#pfx,origin,peer_asns,peer_feeds\np,1,5,5\n");
        }
        _ => panic!("expected a report"),
    }
}

#[test]
fn the_consumer_of_a_skipped_run_writes_nothing() {
    let (ch_out, ch_in) = unbounded();
    ch_out.send(observed(1, 2, "a", "p")).unwrap();
    drop(ch_out);
    let mut run = Run::new(0);
    run.step(Event::Artifact { exists: true });
    assert!(matches!(run_consumer(&mut run, &ch_in, 100), Some(Action::Ignore)));
    assert_eq!(run.stage(), Stage::Finished);
}

#[test]
fn exit_codes_tell_the_outcomes_apart() {
    assert_eq!(exit_code(&Outcome::Skipped), 0);
    assert_eq!(exit_code(&Outcome::Written { failed: 0 }), 0);
    assert_eq!(exit_code(&Outcome::Written { failed: 1 }), 3);
    assert_eq!(exit_code(&Outcome::Written { failed: usize::MAX }), 3);
    assert_eq!(exit_code(&Outcome::NotStarted { reason: StartupError::DateFormat }), 2);
    assert_eq!(
        exit_code(&Outcome::NotStarted { reason: StartupError::ArgumentCount { given: 0 } }),
        2
    );
    assert_eq!(exit_code(&Outcome::NotWritten), 4);
}
