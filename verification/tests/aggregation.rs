use pfx2as::aggregate::Aggregator;
use pfx2as::filter::{ingest, normalize, single_origin, RouteElement};
use pfx2as::record::Observation;

fn obs(origin: u32, peer_asn: u32, peer_ip: &str, prefix: &str) -> Observation {
    Observation::new(origin, peer_asn, peer_ip.to_string(), prefix.to_string())
}

fn elem(origins: Option<Vec<u32>>, peer_asn: u32, peer_ip: &str, prefix: &str) -> RouteElement {
    RouteElement {
        origin_asns: origins,
        peer_asn,
        peer_ip: peer_ip.to_string(),
        prefix: prefix.to_string(),
    }
}

fn report_of(records: Vec<Observation>) -> String {
    let mut agg = Aggregator::new();
    for r in records {
        agg.record(r);
    }
    agg.report()
}

#[test]
fn end_to_end_example() {
    let elems = vec![
        elem(Some(vec![100]), 200, "1.1.1.1", "10.0.0.0/8"),
        elem(Some(vec![100]), 200, "1.1.1.2", "10.0.0.0/8"),
        elem(Some(vec![100, 101]), 300, "2.2.2.2", "10.0.0.0/8"),
    ];
    let mut agg = Aggregator::new();
    ingest(&mut agg, &elems);
    assert_eq!(agg.report(), "#pfx,origin,peer_asns,peer_feeds\n10.0.0.0/8,100,1,2\n");
}

#[test]
fn empty_summary_is_header_only() {
    let agg = Aggregator::new();
    assert_eq!(agg.len(), 0);
    assert!(agg.rows().is_empty());
    assert_eq!(agg.report(), "#pfx,origin,peer_asns,peer_feeds\n");
}

#[test]
fn no_qualifying_records_is_header_only() {
    let elems = vec![
        elem(None, 200, "1.1.1.1", "10.0.0.0/8"),
        elem(Some(vec![]), 200, "1.1.1.1", "10.0.0.0/8"),
        elem(Some(vec![1, 2, 3]), 200, "1.1.1.1", "10.0.0.0/8"),
    ];
    let mut agg = Aggregator::new();
    ingest(&mut agg, &elems);
    assert_eq!(agg.len(), 0);
    assert_eq!(agg.report(), "#pfx,origin,peer_asns,peer_feeds\n");
}

#[test]
fn single_origin_requires_exactly_one() {
    assert_eq!(single_origin(&None), None);
    assert_eq!(single_origin(&Some(vec![])), None);
    assert_eq!(single_origin(&Some(vec![64500])), Some(64500));
    assert_eq!(single_origin(&Some(vec![64500, 64501])), None);
    assert_eq!(single_origin(&Some(vec![64500, 64500])), None);
}

#[test]
fn normalize_keeps_the_four_fields() {
    let kept = normalize(&elem(Some(vec![100]), 200, "1.1.1.1", "10.0.0.0/8")).unwrap();
    assert_eq!(kept.origin, 100);
    assert_eq!(kept.peer_asn, 200);
    assert_eq!(kept.peer_ip, "1.1.1.1");
    assert_eq!(kept.prefix, "10.0.0.0/8");
}

#[test]
fn normalize_drops_missing_and_multiple_origins() {
    assert!(normalize(&elem(None, 200, "1.1.1.1", "10.0.0.0/8")).is_none());
    assert!(normalize(&elem(Some(vec![]), 200, "1.1.1.1", "10.0.0.0/8")).is_none());
    assert!(normalize(&elem(Some(vec![100, 101]), 200, "1.1.1.1", "10.0.0.0/8")).is_none());
}

#[test]
fn ambiguous_elements_leave_no_trace() {
    let with = vec![
        elem(Some(vec![100]), 200, "1.1.1.1", "10.0.0.0/8"),
        elem(Some(vec![100, 101]), 300, "2.2.2.2", "10.0.0.0/8"),
        elem(None, 400, "3.3.3.3", "192.0.2.0/24"),
    ];
    let without = vec![elem(Some(vec![100]), 200, "1.1.1.1", "10.0.0.0/8")];
    let mut a = Aggregator::new();
    ingest(&mut a, &with);
    let mut b = Aggregator::new();
    ingest(&mut b, &without);
    assert_eq!(a.report(), b.report());
    assert_eq!(a.counts("192.0.2.0/24", 400), None);
    assert_eq!(a.counts("10.0.0.0/8", 101), None);
}

#[test]
fn single_origin_elements_always_count() {
    let mut agg = Aggregator::new();
    ingest(&mut agg, &vec![elem(Some(vec![65000]), 7, "2001:db8::1", "2001:db8::/32")]);
    assert_eq!(agg.counts("2001:db8::/32", 65000), Some((1, 1)));
}

#[test]
fn counts_distinguish_peers_from_feeds() {
    let mut agg = Aggregator::new();
    agg.record(obs(100, 200, "1.1.1.1", "10.0.0.0/8"));
    agg.record(obs(100, 200, "1.1.1.2", "10.0.0.0/8"));
    agg.record(obs(100, 201, "1.1.1.1", "10.0.0.0/8"));
    agg.record(obs(100, 200, "1.1.1.1", "10.0.0.0/8"));
    assert_eq!(agg.counts("10.0.0.0/8", 100), Some((2, 3)));
    assert_eq!(agg.counts("10.0.0.0/8", 200), None);
    assert_eq!(agg.counts("10.0.0.0/9", 100), None);
    assert_eq!(agg.len(), 1);
}

#[test]
fn repeated_records_count_once() {
    let mut agg = Aggregator::new();
    for _ in 0..5 {
        agg.record(obs(1, 2, "a", "p"));
    }
    assert_eq!(agg.counts("p", 1), Some((1, 1)));
    assert_eq!(agg.report(), "#pfx,origin,peer_asns,peer_feeds\np,1,1,1\n");
}

#[test]
fn keys_differ_by_prefix_or_origin() {
    let mut agg = Aggregator::new();
    agg.record(obs(1, 10, "a", "p"));
    agg.record(obs(2, 10, "a", "p"));
    agg.record(obs(1, 10, "a", "q"));
    assert_eq!(agg.len(), 3);
    assert_eq!(agg.counts("p", 1), Some((1, 1)));
    assert_eq!(agg.counts("p", 2), Some((1, 1)));
    assert_eq!(agg.counts("q", 1), Some((1, 1)));
}

#[test]
fn feeds_never_fewer_than_peers() {
    let mut agg = Aggregator::new();
    let ips = ["a", "b", "c"];
    for peer in 0..6u32 {
        for (n, ip) in ips.iter().enumerate() {
            if (peer as usize + n) % 2 == 0 {
                agg.record(obs(peer % 2, peer, ip, "10.0.0.0/8"));
                agg.record(obs(peer % 3, peer / 2, ip, "10.1.0.0/16"));
            }
        }
    }
    let rows = agg.rows();
    assert!(!rows.is_empty());
    for row in rows.iter() {
        assert!(row.peer_feeds >= row.peer_asns);
        assert_eq!(agg.counts(&row.prefix, row.origin), Some((row.peer_asns, row.peer_feeds)));
    }
}

#[test]
fn order_of_records_does_not_matter() {
    let make = || {
        vec![
            obs(100, 200, "1.1.1.1", "10.0.0.0/8"),
            obs(100, 200, "1.1.1.2", "10.0.0.0/8"),
            obs(101, 300, "2.2.2.2", "10.0.0.0/8"),
            obs(100, 300, "2.2.2.2", "192.0.2.0/24"),
            obs(100, 201, "1.1.1.1", "10.0.0.0/8"),
        ]
    };
    let forward = report_of(make());
    let mut reversed = make();
    reversed.reverse();
    let mut rotated = make();
    rotated.rotate_left(2);
    assert_eq!(forward, report_of(reversed));
    assert_eq!(forward, report_of(rotated));
    assert_eq!(
        forward,
        "#pfx,origin,peer_asns,peer_feeds\n10.0.0.0/8,100,2,3\n10.0.0.0/8,101,1,1\n192.0.2.0/24,100,1,1\n"
    );
}

#[test]
fn order_of_sources_does_not_matter() {
    let first = || {
        vec![
            elem(Some(vec![100]), 200, "1.1.1.1", "10.0.0.0/8"),
            elem(Some(vec![100]), 201, "1.1.1.9", "10.0.0.0/8"),
        ]
    };
    let second = || {
        vec![
            elem(Some(vec![100]), 200, "1.1.1.2", "10.0.0.0/8"),
            elem(Some(vec![7]), 200, "1.1.1.2", "172.16.0.0/12"),
        ]
    };
    let mut a = Aggregator::new();
    ingest(&mut a, &first());
    ingest(&mut a, &second());
    let mut b = Aggregator::new();
    ingest(&mut b, &second());
    ingest(&mut b, &first());
    assert_eq!(a.report(), b.report());
    assert_eq!(a.counts("10.0.0.0/8", 100), Some((2, 3)));
}

#[test]
fn repeated_runs_give_the_same_report() {
    let run = || {
        report_of(vec![
            obs(3, 1, "x", "b"),
            obs(2, 1, "x", "b"),
            obs(1, 1, "x", "a"),
            obs(1, 2, "y", "a"),
        ])
    };
    assert_eq!(run(), run());
}

#[test]
fn rows_come_out_in_key_order() {
    let mut agg = Aggregator::new();
    agg.record(obs(5, 1, "x", "b"));
    agg.record(obs(10, 1, "x", "a"));
    agg.record(obs(2, 1, "x", "b"));
    agg.record(obs(1, 1, "x", "ab"));
    agg.record(obs(9, 1, "x", ""));
    let keys: Vec<(String, u32)> = agg.rows().into_iter().map(|r| (r.prefix, r.origin)).collect();
    assert_eq!(
        keys,
        vec![
            ("".to_string(), 9),
            ("a".to_string(), 10),
            ("ab".to_string(), 1),
            ("b".to_string(), 2),
            ("b".to_string(), 5),
        ]
    );
}

#[test]
fn many_keys_are_all_found_again() {
    let mut agg = Aggregator::new();
    for n in (0..200u32).rev() {
        agg.record(obs(n % 7, n, "ip", &format!("10.{}.0.0/16", n % 50)));
    }
    for n in 0..200u32 {
        let found = agg.counts(&format!("10.{}.0.0/16", n % 50), n % 7);
        assert!(found.is_some());
    }
    let rows = agg.rows();
    assert_eq!(rows.len(), agg.len());
    for pair in rows.windows(2) {
        let a = (pair[0].prefix.as_bytes(), pair[0].origin);
        let b = (pair[1].prefix.as_bytes(), pair[1].origin);
        assert!(a < b);
    }
}
