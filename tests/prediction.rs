use dtchat_predict::plan::{parse_contact_plan, parse_number, split_lines, ParseError};
use dtchat_predict::registry::bytes_equal;
use dtchat_predict::router::{Bundle, Contact, ContactGraphRouter};
use dtchat_predict::service::{PredictionConfig, PredictionError};

const ABC_PLAN: &str = "# three nodes\n\
a contact +0 +100 A B 1000\n\
a range +0 +100 A B 1\n\
a contact +50 +200 B C 1000\n";

fn contact(from: usize, to: usize, start: u64, end: u64) -> Contact {
    Contact { from, to, start, end, rate: 1000 }
}

fn bundle(source: usize, destination: usize) -> Bundle {
    Bundle { source, destination, priority: 0, size: 100, expiration: u64::MAX }
}

#[test]
fn concrete_scenario_a_to_c() {
    let cfg = PredictionConfig::new_at(ABC_PLAN, 1_000).unwrap();
    assert_eq!(cfg.predict_at("A", "C", 512, 1_000), Ok(1_050));
}

#[test]
fn concrete_scenario_route_stages() {
    let router = ContactGraphRouter::new(3, vec![contact(0, 1, 0, 100), contact(1, 2, 50, 200)]);
    let r = router.route(0, &bundle(0, 2), 0, &vec![]).unwrap();
    assert_eq!(r.injection_time, 0);
    assert_eq!(r.stages.len(), 2);
    assert_eq!((r.stages[0].node, r.stages[0].contact, r.stages[0].arrival), (1, 0, 0));
    assert_eq!((r.stages[1].node, r.stages[1].contact, r.stages[1].arrival), (2, 1, 50));
}

#[test]
fn send_during_first_window_waits_for_second() {
    let cfg = PredictionConfig::new_at(ABC_PLAN, 1_000).unwrap();
    assert_eq!(cfg.predict_at("A", "C", 1, 1_070), Ok(1_070));
    assert_eq!(cfg.predict_at("A", "B", 1, 1_020), Ok(1_020));
}

#[test]
fn closed_window_gives_no_route() {
    let cfg = PredictionConfig::new_at(ABC_PLAN, 1_000).unwrap();
    assert_eq!(
        cfg.predict_at("A", "C", 1, 1_100),
        Err(PredictionError::NoRouteFound("A".to_string(), "C".to_string()))
    );
}

#[test]
fn unreachable_destination_gives_no_route() {
    let cfg = PredictionConfig::new_at("node D\na contact +0 +100 A B 10\n", 0).unwrap();
    assert_eq!(
        cfg.predict_at("A", "D", 1, 0),
        Err(PredictionError::NoRouteFound("A".to_string(), "D".to_string()))
    );
    assert_eq!(
        cfg.predict_at("B", "A", 1, 0),
        Err(PredictionError::NoRouteFound("B".to_string(), "A".to_string()))
    );
}

#[test]
fn unknown_source_name() {
    let cfg = PredictionConfig::new_at(ABC_PLAN, 0).unwrap();
    assert_eq!(
        cfg.predict_at("ghost", "A", 10, 0),
        Err(PredictionError::NodeNotFound("ghost".to_string()))
    );
}

#[test]
fn unknown_destination_name() {
    let cfg = PredictionConfig::new_at(ABC_PLAN, 0).unwrap();
    assert_eq!(
        cfg.predict_at("A", "ghost", 10, 0),
        Err(PredictionError::NodeNotFound("ghost".to_string()))
    );
}

#[test]
fn unknown_name_through_the_clock() {
    let cfg = PredictionConfig::new(ABC_PLAN).unwrap();
    assert_eq!(
        cfg.predict("ghost", "A", 10),
        Err(PredictionError::NodeNotFound("ghost".to_string()))
    );
}

#[test]
fn self_route_is_immediate() {
    let cfg = PredictionConfig::new_at(ABC_PLAN, 500).unwrap();
    assert_eq!(cfg.predict_at("C", "C", 1, 700), Ok(700));
    assert_eq!(cfg.predict_at("C", "C", 1_000_000, 700), Ok(700));
    let empty = PredictionConfig::new_at("node X\n", 0).unwrap();
    assert_eq!(empty.predict_at("X", "X", 3, 42), Ok(42));
}

#[test]
fn self_route_through_the_clock() {
    let cfg = PredictionConfig::new(ABC_PLAN).unwrap();
    let start = cfg.cp_start_time();
    let t = cfg.predict("B", "B", 1).unwrap();
    assert!(t >= start);
    assert!(t > 1_600_000_000);
}

#[test]
fn repeated_predictions_agree() {
    let cfg = PredictionConfig::new_at(ABC_PLAN, 0).unwrap();
    let a = cfg.predict_at("A", "C", 9, 10);
    let b = cfg.predict_at("A", "C", 9, 10);
    assert_eq!(a, b);
    let router = ContactGraphRouter::new(
        4,
        vec![contact(0, 1, 0, 10), contact(0, 2, 0, 10), contact(1, 3, 5, 10), contact(2, 3, 5, 10)],
    );
    let r1 = router.route(0, &bundle(0, 3), 0, &vec![]).unwrap();
    let r2 = router.route(0, &bundle(0, 3), 0, &vec![]).unwrap();
    assert_eq!(r1.stages, r2.stages);
}

#[test]
fn arrivals_never_go_back_in_time() {
    let router = ContactGraphRouter::new(
        4,
        vec![contact(0, 1, 0, 50), contact(1, 2, 30, 60), contact(2, 3, 10, 100)],
    );
    let r = router.route(0, &bundle(0, 3), 5, &vec![]).unwrap();
    let mut prev = r.injection_time;
    assert_eq!(prev, 5);
    for s in r.stages.iter() {
        assert!(s.arrival >= prev);
        prev = s.arrival;
    }
    assert_eq!(prev, 30);
}

#[test]
fn excluded_node_is_not_relayed() {
    let router = ContactGraphRouter::new(
        4,
        vec![contact(0, 1, 0, 10), contact(1, 3, 0, 10), contact(0, 2, 0, 10), contact(2, 3, 20, 30)],
    );
    let r = router.route(0, &bundle(0, 3), 0, &vec![1]).unwrap();
    assert!(r.stages.iter().all(|s| s.node != 1));
    assert_eq!(r.stages.last().unwrap().arrival, 20);
    let direct = router.route(0, &bundle(0, 3), 0, &vec![]).unwrap();
    assert_eq!(direct.stages.last().unwrap().arrival, 0);
}

#[test]
fn excluded_destination_is_still_reached() {
    let router = ContactGraphRouter::new(2, vec![contact(0, 1, 3, 10)]);
    let r = router.route(0, &bundle(0, 1), 0, &vec![1]).unwrap();
    assert_eq!(r.stages.len(), 1);
    assert_eq!(r.stages[0].arrival, 3);
}

#[test]
fn excluding_the_only_relay_leaves_no_route() {
    let router = ContactGraphRouter::new(3, vec![contact(0, 1, 0, 10), contact(1, 2, 0, 10)]);
    assert!(router.route(0, &bundle(0, 2), 0, &vec![1]).is_none());
}

#[test]
fn deadline_cuts_late_routes() {
    let router = ContactGraphRouter::new(2, vec![contact(0, 1, 40, 50)]);
    let mut b = bundle(0, 1);
    b.expiration = 39;
    assert!(router.route(0, &b, 0, &vec![]).is_none());
    b.expiration = 40;
    assert_eq!(router.route(0, &b, 0, &vec![]).unwrap().stages[0].arrival, 40);
}

#[test]
fn earliest_of_several_routes_wins() {
    let router = ContactGraphRouter::new(
        4,
        vec![contact(0, 3, 90, 100), contact(0, 1, 0, 10), contact(1, 2, 5, 10), contact(2, 3, 7, 100)],
    );
    let r = router.route(0, &bundle(0, 3), 0, &vec![]).unwrap();
    assert_eq!(r.stages.len(), 3);
    assert_eq!(r.stages[2].arrival, 7);
}

#[test]
fn zero_length_window_is_never_used() {
    let router = ContactGraphRouter::new(2, vec![contact(0, 1, 5, 5)]);
    assert!(router.route(0, &bundle(0, 1), 5, &vec![]).is_none());
}

#[test]
fn registry_ids_follow_first_seen_order() {
    let cfg = PredictionConfig::new_at("a contact +0 +9 n2 n1 1\nnode n3\na contact 1 2 n1 n3 5\n", 0).unwrap();
    assert_eq!(cfg.get_node_id("n2"), Some(0));
    assert_eq!(cfg.get_node_id("n1"), Some(1));
    assert_eq!(cfg.get_node_id("n3"), Some(2));
    assert_eq!(cfg.get_node_id("n4"), None);
}

#[test]
fn registry_lookup_is_stable() {
    let cfg = PredictionConfig::new_at(ABC_PLAN, 0).unwrap();
    let first = cfg.get_node_id("B");
    for _ in 0..5 {
        assert_eq!(cfg.get_node_id("B"), first);
    }
    assert_eq!(first, Some(1));
}

#[test]
fn map_node_indices_matches_service_ids() {
    let reg = PredictionConfig::map_node_indices(ABC_PLAN).unwrap();
    let cfg = PredictionConfig::new_at(ABC_PLAN, 0).unwrap();
    assert_eq!(reg.len(), 3);
    for name in ["A", "B", "C", "Z"] {
        assert_eq!(reg.get_node_id(name), cfg.get_node_id(name));
    }
}

#[test]
fn parse_reads_contacts_and_names() {
    let plan = parse_contact_plan(ABC_PLAN).unwrap();
    assert_eq!(plan.names, vec![b"A".to_vec(), b"B".to_vec(), b"C".to_vec()]);
    assert_eq!(plan.contacts.len(), 2);
    assert_eq!(plan.contacts[0], Contact { from: 0, to: 1, start: 0, end: 100, rate: 1000 });
    assert_eq!(plan.contacts[1], Contact { from: 1, to: 2, start: 50, end: 200, rate: 1000 });
}

#[test]
fn parse_accepts_tabs_crlf_and_blank_lines() {
    let plan = parse_contact_plan("\r\n\ta\tcontact  +1 +2\tX Y 3\r\n\n   \n# end").unwrap();
    assert_eq!(plan.names, vec![b"X".to_vec(), b"Y".to_vec()]);
    assert_eq!(plan.contacts, vec![Contact { from: 0, to: 1, start: 1, end: 2, rate: 3 }]);
}

#[test]
fn parse_keeps_duplicates_and_zero_length_windows() {
    let plan = parse_contact_plan("a contact 5 5 A B 1\na contact 5 5 A B 1\n").unwrap();
    assert_eq!(plan.contacts.len(), 2);
}

#[test]
fn parse_empty_text_gives_empty_plan() {
    let plan = parse_contact_plan("").unwrap();
    assert!(plan.names.is_empty());
    assert!(plan.contacts.is_empty());
}

#[test]
fn parse_rejects_unknown_line() {
    assert!(matches!(
        parse_contact_plan("a contact +0 +1 A B 1\nhello world\n"),
        Err(ParseError { line: 2 })
    ));
}

#[test]
fn parse_rejects_reversed_window() {
    assert!(matches!(parse_contact_plan("a contact +10 +5 A B 1"), Err(ParseError { line: 1 })));
}

#[test]
fn parse_rejects_self_loop() {
    assert!(matches!(parse_contact_plan("\na contact +0 +5 A A 1"), Err(ParseError { line: 2 })));
}

#[test]
fn parse_rejects_bad_numbers() {
    assert!(parse_contact_plan("a contact +x +5 A B 1").is_err());
    assert!(parse_contact_plan("a contact + +5 A B 1").is_err());
    assert!(parse_contact_plan("a contact 0 18446744073709551616 A B 1").is_err());
    assert!(parse_contact_plan("a contact 0 5 A B").is_err());
}

#[test]
fn new_reports_parse_error() {
    assert!(matches!(
        PredictionConfig::new("node A\nnode\n"),
        Err(PredictionError::ParseError(ParseError { line: 2 }))
    ));
    assert!(PredictionConfig::map_node_indices("bogus").is_err());
}

#[test]
fn number_words() {
    assert_eq!(parse_number(&b"+42".to_vec()), Some(42));
    assert_eq!(parse_number(&b"0".to_vec()), Some(0));
    assert_eq!(parse_number(&b"18446744073709551615".to_vec()), Some(u64::MAX));
    assert_eq!(parse_number(&b"18446744073709551616".to_vec()), None);
    assert_eq!(parse_number(&b"++1".to_vec()), None);
    assert_eq!(parse_number(&b"".to_vec()), None);
    assert_eq!(parse_number(&b"12a".to_vec()), None);
}

#[test]
fn splitting_lines_and_words() {
    let ls = split_lines(b"a b\n\nc  d ");
    assert_eq!(
        ls,
        vec![vec![b"a".to_vec(), b"b".to_vec()], vec![], vec![b"c".to_vec(), b"d".to_vec()]]
    );
}

#[test]
fn byte_equality() {
    assert!(bytes_equal(b"abc", b"abc"));
    assert!(!bytes_equal(b"abc", b"abd"));
    assert!(!bytes_equal(b"ab", b"abc"));
}

#[test]
fn large_origin_overflow_is_internal_error() {
    let cfg = PredictionConfig::new_at("a contact 0 18446744073709551615 A B 1\n", i64::MAX).unwrap();
    assert_eq!(cfg.predict_at("A", "B", 1, i64::MAX), Ok(i64::MAX));
    let late = PredictionConfig::new_at("a contact 100 200 A B 1\n", i64::MAX - 10).unwrap();
    assert_eq!(late.predict_at("A", "B", 1, i64::MAX - 10), Err(PredictionError::InternalError));
}

#[test]
fn clock_before_origin_counts_as_origin() {
    let cfg = PredictionConfig::new_at(ABC_PLAN, 1_000).unwrap();
    assert_eq!(cfg.predict_at("A", "C", 1, 900), Ok(1_050));
}

#[test]
fn equal_arrival_prefers_fewer_hops() {
    let router = ContactGraphRouter::new(
        3,
        vec![contact(0, 1, 0, 10), contact(1, 2, 5, 10), contact(0, 2, 5, 10)],
    );
    let r = router.route(0, &bundle(0, 2), 0, &vec![]).unwrap();
    assert_eq!(r.stages.len(), 1);
    assert_eq!((r.stages[0].node, r.stages[0].contact, r.stages[0].arrival), (2, 2, 5));
}

#[test]
fn self_route_in_router_has_no_stages() {
    let router = ContactGraphRouter::new(2, vec![contact(0, 1, 0, 10)]);
    let r = router.route(1, &bundle(1, 1), 7, &vec![]).unwrap();
    assert!(r.stages.is_empty());
    assert_eq!(r.injection_time, 7);
}

#[test]
fn equal_arrival_and_hops_prefers_lowest_next_hop() {
    let router = ContactGraphRouter::new(
        4,
        vec![contact(0, 2, 0, 10), contact(2, 3, 5, 10), contact(0, 1, 0, 10), contact(1, 3, 5, 10)],
    );
    let r = router.route(0, &bundle(0, 3), 0, &vec![]).unwrap();
    assert_eq!(r.stages.len(), 2);
    assert_eq!(r.stages[0].node, 1);
    assert_eq!(r.stages[1].arrival, 5);
}

#[test]
fn lowest_next_hop_even_through_a_later_relay() {
    // Through node 1 the relay X is reached later than through node 2, yet
    // both routes deliver together; the lower next hop wins.
    let router = ContactGraphRouter::new(
        5,
        vec![
            contact(0, 2, 0, 10),
            contact(2, 3, 3, 10),
            contact(0, 1, 0, 10),
            contact(1, 3, 5, 10),
            contact(3, 4, 10, 20),
        ],
    );
    let r = router.route(0, &bundle(0, 4), 0, &vec![]).unwrap();
    assert_eq!(r.stages.len(), 3);
    assert_eq!(r.stages[0].node, 1);
    assert_eq!(r.stages[2].arrival, 10);
}
