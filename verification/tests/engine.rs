use hetu::util::bdd_table::BDDTable;
use hetu::util::layer_cache::LayerCache;
use hetu::util::npbdd::{Engine, EngineError, DEVICE_ID_BITS, NPBDD};

const BITS: usize = 48;

fn engine() -> Engine {
    Engine::init(BITS).expect("an engine of this width exists")
}

#[test]
fn engine_needs_room_for_the_device_id() {
    assert!(Engine::init(DEVICE_ID_BITS - 1).is_none());
    assert!(Engine::init(DEVICE_ID_BITS).is_some());
    assert!(Engine::init(65533).is_some());
    assert!(Engine::init(65534).is_none());
    assert!(NPBDD::init(0).is_none());
    assert_eq!(engine().ip_bits_len(), BITS);
}

#[test]
fn empty_and_full_space_are_complements() {
    let e = engine();
    let none = e.make_none_space_bdd();
    let all = e.make_all_space_bdd();
    assert!(none.is_false());
    assert!(all.is_true());
    assert_eq!(all.not(), none);
    assert!(e.owns(&none));
    assert!(e.owns(&all));
    let other = Engine::init(BITS + 1).unwrap();
    assert!(!e.owns(&other.make_all_space_bdd()));
}

#[test]
fn prefix_of_length_zero_matches_everything() {
    let e = engine();
    assert_eq!(e.encode_dst_ip_prefix_clause("0.0.0.0", 0), Ok(e.make_all_space_bdd()));
    assert_eq!(e.encode_dst_ip_prefix_clause("not an address", 0), Ok(e.make_all_space_bdd()));
}

#[test]
fn prefix_fixes_exactly_its_leading_bits() {
    let e = engine();
    let p = e.encode_dst_ip_prefix_clause("10.0.0.0", 24).unwrap();
    // 24 of the 48 variables are fixed, the other 24 are free.
    assert_eq!(p.cardinality(), (1u64 << 24) as f64);
    // The bits behind the prefix length do not matter.
    assert_eq!(e.encode_dst_ip_prefix_clause("10.0.0.77", 24), Ok(p.clone()));
    assert_ne!(e.encode_dst_ip_prefix_clause("10.0.1.0", 24), Ok(p.clone()));
    let host = e.encode_dst_ip_prefix_clause("10.0.0.77", 32).unwrap();
    assert_eq!(host.cardinality(), (1u64 << 16) as f64);
    assert_eq!(host.and(&p), host);
}

#[test]
fn longer_prefix_lies_within_the_shorter() {
    let e = engine();
    let whole = e.encode_dst_ip_prefix_clause("10.0.0.0", 24).unwrap();
    let lower = e.encode_dst_ip_prefix_clause("10.0.0.0", 25).unwrap();
    let upper = e.encode_dst_ip_prefix_clause("10.0.0.128", 25).unwrap();
    assert_eq!(lower.and(&whole), lower);
    assert_eq!(upper.and(&whole), upper);
    assert!(lower.and(&upper).is_false());
    assert_eq!(lower.or(&upper), whole);
}

#[test]
fn prefix_that_cannot_be_encoded_is_refused() {
    let e = engine();
    assert_eq!(e.encode_dst_ip_prefix_clause("10.0.0", 24), Err(EngineError::BadPrefix));
    assert_eq!(e.encode_dst_ip_prefix_clause("10.0.0.256", 8), Err(EngineError::BadPrefix));
    assert_eq!(e.encode_dst_ip_prefix_clause("", 1), Err(EngineError::BadPrefix));
    // Longer than the address.
    assert_eq!(e.encode_dst_ip_prefix_clause("10.0.0.0", 33), Err(EngineError::BadPrefix));
    // Longer than the variables that the device id leaves.
    let narrow = Engine::init(40).unwrap();
    assert!(narrow.encode_dst_ip_prefix_clause("10.0.0.0", 24).is_ok());
    assert_eq!(narrow.encode_dst_ip_prefix_clause("10.0.0.0", 25), Err(EngineError::BadPrefix));
}

#[test]
fn ipv6_prefix_is_encoded_over_a_wide_engine() {
    let e = Engine::init(144).unwrap();
    let p = e.encode_dst_ip_prefix_clause("2001:db8::", 32).unwrap();
    assert_eq!(e.encode_dst_ip_prefix_clause("2001:db8:0:0:0:0:0:1", 32), Ok(p.clone()));
    assert_ne!(e.encode_dst_ip_prefix_clause("2001:db9::", 32), Ok(p.clone()));
    let host = e.encode_dst_ip_prefix_clause("2001:db8::1", 128).unwrap();
    assert_eq!(host.and(&p), host);
    assert_eq!(e.encode_dst_ip_prefix_clause("2001:db8::1", 129), Err(EngineError::BadPrefix));
}

#[test]
fn device_id_fixes_the_sixteen_leading_variables() {
    let e = engine();
    let five = e.encode_src_device_constraint(5);
    assert_eq!(five.cardinality(), (1u64 << 32) as f64);
    assert!(five.and(&e.encode_src_device_constraint(6)).is_false());
    // Only the low sixteen bits of the id count.
    assert_eq!(e.encode_src_device_constraint(5 + 65536), five);
    // The id and the destination prefix are over different variables.
    let p = e.encode_dst_ip_prefix_clause("10.0.0.0", 32).unwrap();
    assert_eq!(five.and(&p).cardinality(), 1.0);
}

#[test]
fn device_id_bits_are_read_from_the_highest_down() {
    let e = Engine::init(16).unwrap();
    let one = e.encode_src_device_constraint(1);
    let mut expected = e.make_all_space_bdd();
    let vars = biodivine_lib_bdd::BddVariableSet::new_anonymous(16);
    for (j, v) in vars.variables().into_iter().enumerate() {
        expected = expected.and(&vars.mk_literal(v, j == 15));
    }
    assert_eq!(one, expected);
}

#[test]
fn table_gives_one_id_to_one_diagram() {
    let e = engine();
    let mut table = BDDTable::init(BITS);
    assert_eq!(table.get_next_id(), 1);
    assert_eq!(table.get_id_num(), 0);
    let a = e.encode_dst_ip_prefix_clause("10.0.0.0", 24).unwrap();
    let b = e.encode_dst_ip_prefix_clause("10.0.1.0", 24).unwrap();
    assert_eq!(table.insert_bdd(a.clone()), Ok(1));
    assert_eq!(table.insert_bdd(b.clone()), Ok(2));
    assert_eq!(table.insert_bdd(a.clone()), Ok(1));
    // The same set built another way is the same diagram.
    assert_eq!(table.insert_bdd(e.encode_dst_ip_prefix_clause("10.0.0.9", 24).unwrap()), Ok(1));
    assert_eq!(table.get_id_num(), 2);
    assert_eq!(table.get_bdd_num(), 2);
    assert_eq!(table.get_next_id(), 3);
    assert_eq!(table.get_bdd_by_id(1), Some(a.clone()));
    assert_eq!(table.get_bdd_by_id(2), Some(b));
    assert_eq!(table.bdd_ref(1), &a);
}

#[test]
fn table_knows_no_other_ids() {
    let e = engine();
    let mut table = BDDTable::init(BITS);
    assert_eq!(table.get_bdd_by_id(0), None);
    assert_eq!(table.get_bdd_by_id(1), None);
    assert!(!table.has_id(1));
    table.insert_bdd(e.make_all_space_bdd()).unwrap();
    assert!(table.has_id(1));
    assert!(!table.has_id(0));
    assert!(!table.has_id(2));
    assert_eq!(table.get_bdd_by_id(2), None);
}

#[test]
fn table_remembers_prefixes_by_their_text() {
    let mut table = BDDTable::init(BITS);
    assert_eq!(table.prefix_id("10.0.0.0", 24), None);
    table.intern_prefix("10.0.0.0", 24, 7);
    assert_eq!(table.prefix_id("10.0.0.0", 24), Some(7));
    assert_eq!(table.prefix_id("10.0.0.0", 25), None);
    assert_eq!(table.prefix_id("10.0.0.1", 24), None);
    table.intern_prefix("10.0.0.0", 24, 9);
    assert_eq!(table.prefix_id("10.0.0.0", 24), Some(9));
}

#[test]
fn handle_interns_through_its_table() {
    let mut bdd = NPBDD::init(BITS).unwrap();
    let p = bdd.make_prefix_bdd("10.0.0.0", 24).unwrap();
    let id = bdd.intern(p.clone()).unwrap();
    assert_eq!(bdd.intern(p.clone()), Ok(id));
    assert_eq!(bdd.table.get_bdd_by_id(id), Some(p));
    assert_eq!(bdd.make_prefix_bdd("10.0.0.0", 40), Err(EngineError::BadPrefix));
    assert!(bdd.make_none_space_bdd().is_false());
    assert!(bdd.make_all_space_bdd().is_true());
    assert_eq!(bdd.make_src_device_bdd(3), bdd.engine.encode_src_device_constraint(3));
}

#[test]
fn cached_operations_give_the_plain_results() {
    let e = engine();
    let mut table = BDDTable::init(BITS);
    let mut cache = LayerCache::init();
    let a = e.encode_dst_ip_prefix_clause("10.0.0.0", 24).unwrap();
    let b = e.encode_dst_ip_prefix_clause("10.0.0.0", 25).unwrap();
    let a_id = table.insert_bdd(a.clone()).unwrap();
    let b_id = table.insert_bdd(b.clone()).unwrap();

    let and_id = cache.l3_and(&mut table, a_id, b_id).unwrap();
    assert_eq!(table.get_bdd_by_id(and_id), Some(a.and(&b)));
    let or_id = cache.l3_or(&mut table, a_id, b_id).unwrap();
    assert_eq!(table.get_bdd_by_id(or_id), Some(a.or(&b)));
    let not_id = cache.l3_not(&mut table, a_id).unwrap();
    assert_eq!(table.get_bdd_by_id(not_id), Some(a.not()));
    assert_eq!(cache.get_cache_stats(), (0, 0, 0, 3));

    // Asked again, in either order of operands, the answers are the same.
    assert_eq!(cache.l3_and(&mut table, a_id, b_id), Ok(and_id));
    assert_eq!(cache.l3_and(&mut table, b_id, a_id), Ok(and_id));
    assert_eq!(cache.l3_or(&mut table, a_id, b_id), Ok(or_id));
    assert_eq!(cache.l3_or(&mut table, b_id, a_id), Ok(or_id));
    assert_eq!(cache.l3_not(&mut table, a_id), Ok(not_id));
    assert_eq!(cache.cached_or(&mut table, a_id, b_id), Ok(or_id));
}

#[test]
fn cache_state_does_not_change_an_answer() {
    let e = engine();
    let a = e.encode_dst_ip_prefix_clause("10.1.0.0", 16).unwrap();
    let b = e.encode_dst_ip_prefix_clause("10.1.2.0", 24).unwrap();

    let mut cold_table = BDDTable::init(BITS);
    let mut cold = LayerCache::init();
    let a_cold = cold_table.insert_bdd(a.clone()).unwrap();
    let b_cold = cold_table.insert_bdd(b.clone()).unwrap();
    let and_cold = cold.l3_and(&mut cold_table, a_cold, b_cold).unwrap();

    let mut warm_table = BDDTable::init(BITS);
    let mut warm = LayerCache::init();
    let b_warm = warm_table.insert_bdd(b.clone()).unwrap();
    let a_warm = warm_table.insert_bdd(a.clone()).unwrap();
    warm.l3_or(&mut warm_table, a_warm, b_warm).unwrap();
    warm.l3_not(&mut warm_table, b_warm).unwrap();
    warm.l3_and(&mut warm_table, b_warm, a_warm).unwrap();
    let and_warm = warm.l3_and(&mut warm_table, a_warm, b_warm).unwrap();

    assert_eq!(cold_table.get_bdd_by_id(and_cold), Some(a.and(&b)));
    assert_eq!(warm_table.get_bdd_by_id(and_warm), Some(a.and(&b)));
}

#[test]
fn cache_counts_hits_and_misses() {
    let e = engine();
    let mut table = BDDTable::init(BITS);
    let mut cache = LayerCache::init();
    assert_eq!(cache.get_cache_stats(), (0, 0, 0, 0));
    let first = cache.l3_make(&e, &mut table, "10.0.0.0", 24).unwrap();
    assert_eq!(cache.get_cache_stats(), (0, 0, 0, 1));
    assert_eq!(cache.l3_make(&e, &mut table, "10.0.0.0", 24), Ok(first));
    assert_eq!(cache.get_cache_stats(), (0, 0, 1, 1));
    // Another text for the same set is a miss that gives the same id.
    assert_eq!(cache.l3_make(&e, &mut table, "10.0.0.5", 24), Ok(first));
    assert_eq!(cache.get_cache_stats(), (0, 0, 1, 2));
    assert_eq!(
        table.get_bdd_by_id(first),
        Some(e.encode_dst_ip_prefix_clause("10.0.0.0", 24).unwrap())
    );

    let rule = cache.l2_encode_rule(&e, &mut table, "10.0.0.0", 24).unwrap();
    assert_eq!(rule, first);
    assert_eq!(cache.get_cache_stats(), (0, 0, 2, 2));
    assert_eq!(cache.l2_encode_rule(&e, &mut table, "10.0.0.0", 24), Ok(first));
    assert_eq!(cache.get_cache_stats(), (0, 1, 2, 2));
}

#[test]
fn cache_refuses_unknown_ids_and_bad_prefixes() {
    let e = engine();
    let mut table = BDDTable::init(BITS);
    let mut cache = LayerCache::init();
    let id = table.insert_bdd(e.make_all_space_bdd()).unwrap();
    assert_eq!(cache.l3_and(&mut table, id, 99), Err(EngineError::UnknownId));
    assert_eq!(cache.l3_and(&mut table, 0, id), Err(EngineError::UnknownId));
    assert_eq!(cache.l3_or(&mut table, 99, id), Err(EngineError::UnknownId));
    assert_eq!(cache.l3_not(&mut table, 99), Err(EngineError::UnknownId));
    assert_eq!(cache.l2_cal_hit(&mut table, id, 99), Err(EngineError::UnknownId));
    assert_eq!(cache.l2_merge_port_space(&mut table, id, &vec![id, 99]), Err(EngineError::UnknownId));
    assert_eq!(cache.l2_merge_port_space(&mut table, 99, &vec![id]), Err(EngineError::UnknownId));
    // With nothing to merge into, the hit is not looked at.
    assert_eq!(cache.l2_merge_port_space(&mut table, 99, &vec![]), Ok(vec![]));
    assert_eq!(cache.cached_prefix_match(&mut table, 99, id), Err(EngineError::UnknownId));
    assert_eq!(cache.cached_relevance(&mut table, id, 99), Err(EngineError::UnknownId));
    assert_eq!(cache.l3_make(&e, &mut table, "10.0.0", 24), Err(EngineError::BadPrefix));
    assert_eq!(cache.l2_encode_rule(&e, &mut table, "10.0.0.0", 33), Err(EngineError::BadPrefix));
    assert_eq!(table.get_id_num(), 1);
}

#[test]
fn hit_is_the_prefix_without_what_is_used() {
    let e = engine();
    let mut table = BDDTable::init(BITS);
    let mut cache = LayerCache::init();
    let whole = e.encode_dst_ip_prefix_clause("10.0.0.0", 24).unwrap();
    let lower = e.encode_dst_ip_prefix_clause("10.0.0.0", 25).unwrap();
    let upper = e.encode_dst_ip_prefix_clause("10.0.0.128", 25).unwrap();
    let whole_id = table.insert_bdd(whole.clone()).unwrap();
    let lower_id = table.insert_bdd(lower.clone()).unwrap();

    let (hit, used) = cache.l2_cal_hit(&mut table, whole_id, lower_id).unwrap();
    assert_eq!(table.get_bdd_by_id(hit), Some(upper.clone()));
    assert_eq!(table.get_bdd_by_id(used), Some(whole.clone()));
    assert_eq!(cache.l2_cal_hit(&mut table, whole_id, lower_id), Ok((hit, used)));

    let (all, fresh) = cache.cached_prefix_match(&mut table, lower_id, whole_id).unwrap();
    assert_eq!(table.get_bdd_by_id(all), Some(whole));
    assert_eq!(table.get_bdd_by_id(fresh), Some(upper));
}

#[test]
fn merging_keeps_the_order_of_the_port_spaces() {
    let e = engine();
    let mut table = BDDTable::init(BITS);
    let mut cache = LayerCache::init();
    let hit = e.encode_dst_ip_prefix_clause("10.0.0.0", 24).unwrap();
    let one = e.encode_dst_ip_prefix_clause("10.0.1.0", 24).unwrap();
    let two = e.encode_dst_ip_prefix_clause("10.0.2.0", 24).unwrap();
    let hit_id = table.insert_bdd(hit.clone()).unwrap();
    let one_id = table.insert_bdd(one.clone()).unwrap();
    let two_id = table.insert_bdd(two.clone()).unwrap();

    let merged = cache.l2_merge_port_space(&mut table, hit_id, &vec![one_id, two_id]).unwrap();
    assert_eq!(merged.len(), 2);
    assert_eq!(table.get_bdd_by_id(merged[0]), Some(one.or(&hit)));
    assert_eq!(table.get_bdd_by_id(merged[1]), Some(two.or(&hit)));

    let swapped = cache.l2_merge_port_space(&mut table, hit_id, &vec![two_id, one_id]).unwrap();
    assert_eq!(swapped, vec![merged[1], merged[0]]);
    let before = cache.get_cache_stats().1;
    assert_eq!(cache.l2_merge_port_space(&mut table, hit_id, &vec![one_id, two_id]), Ok(merged));
    assert_eq!(cache.get_cache_stats().1, before + 1);
    assert_eq!(cache.l2_merge_port_space(&mut table, hit_id, &vec![]), Ok(vec![]));
}

#[test]
fn relevance_says_whether_two_spaces_meet() {
    let e = engine();
    let mut table = BDDTable::init(BITS);
    let mut cache = LayerCache::init();
    let whole = table.insert_bdd(e.encode_dst_ip_prefix_clause("10.0.0.0", 24).unwrap()).unwrap();
    let inside = table.insert_bdd(e.encode_dst_ip_prefix_clause("10.0.0.64", 26).unwrap()).unwrap();
    let apart = table.insert_bdd(e.encode_dst_ip_prefix_clause("10.0.1.0", 24).unwrap()).unwrap();
    let none = table.insert_bdd(e.make_none_space_bdd()).unwrap();
    assert_eq!(cache.cached_relevance(&mut table, whole, inside), Ok(true));
    assert_eq!(cache.cached_relevance(&mut table, whole, apart), Ok(false));
    assert_eq!(cache.cached_relevance(&mut table, whole, none), Ok(false));
}

#[test]
fn whole_rule_applications_are_found_once_registered() {
    let mut cache = LayerCache::init();
    let rule = hetu::util::rule::Rule::new(
        24,
        "10.0.0.0".to_string(),
        "forward".to_string(),
        vec!["p1".to_string(), "p2".to_string()],
    );
    assert_eq!(cache.l1_complete_rule(&rule, 3, &[5, 6]), None);
    assert_eq!(cache.get_cache_stats(), (0, 0, 0, 0));
    cache.l1_cache_result(&rule, 3, &[5, 6], 9, &[10, 11]);
    assert_eq!(cache.l1_complete_rule(&rule, 3, &[5, 6]), Some((9, vec![10, 11])));
    assert_eq!(cache.get_cache_stats(), (1, 0, 0, 0));
    // The order of the ports, the used space and the prefix are all part of the key.
    assert_eq!(cache.l1_complete_rule(&rule, 3, &[6, 5]), None);
    assert_eq!(cache.l1_complete_rule(&rule, 4, &[5, 6]), None);
    assert_eq!(cache.l1_complete_rule(&rule, 3, &[]), None);
    let longer = hetu::util::rule::Rule::new(
        25,
        "10.0.0.0".to_string(),
        "forward".to_string(),
        vec!["p1".to_string(), "p2".to_string()],
    );
    assert_eq!(cache.l1_complete_rule(&longer, 3, &[5, 6]), None);
    // The ports of the rule are not: only its prefix names it.
    let elsewhere =
        hetu::util::rule::Rule::new(24, "10.0.0.0".to_string(), "forward".to_string(), vec![]);
    assert_eq!(cache.l1_complete_rule(&elsewhere, 3, &[5, 6]), Some((9, vec![10, 11])));
    assert_eq!(cache.get_cache_stats(), (2, 0, 0, 0));
    // What is registered again takes the place of what was there.
    cache.l1_cache_result(&rule, 3, &[5, 6], 1, &[]);
    assert_eq!(cache.l1_complete_rule(&rule, 3, &[5, 6]), Some((1, vec![])));
}

#[test]
fn ipv6_prefix_with_a_dotted_tail_is_encoded() {
    let e = Engine::init(144).unwrap();
    let dotted = e.encode_dst_ip_prefix_clause("::ffff:10.0.0.1", 128).unwrap();
    let plain = e.encode_dst_ip_prefix_clause("::ffff:a00:1", 128).unwrap();
    assert_eq!(dotted, plain);
}
