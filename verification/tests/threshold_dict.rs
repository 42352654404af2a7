use threshold_dict::DefaultPolicy;
use threshold_dict::ThresholdDict;
use threshold_dict::DEFAULT_STRATEGY_THRESHOLD;

#[test]
fn test_from_btree_map() {
    let dict = ThresholdDict::new(vec![(10, 100), (20, 150), (50, 300)]);
    let correct_dict = ThresholdDict::from(vec![(10, 100), (20, 150), (50, 300)]);
    assert_eq!(dict.entries(), correct_dict.entries());
}

#[test]
fn test_clone() {
    let dict = ThresholdDict::from(vec![(10, 100), (20, 150), (50, 300)]);
    let dict2 = dict.clone();
    assert_eq!(dict.entries(), dict2.entries());
}

#[test]
fn test_query() {
    let dict = ThresholdDict::from(vec![(10, 100), (20, 150), (50, 300)]);
    assert_eq!(dict.query(&0), Some(&100));
    assert_eq!(dict.query(&10), Some(&150));
    assert_eq!(dict.query(&15), Some(&150));
    assert_eq!(dict.query(&40), Some(&300));
    assert_eq!(dict.query(&50), None);
    assert_eq!(dict.query(&60), None);
}

#[test]
fn construction_sorts_any_input_order() {
    let dict = ThresholdDict::from(vec![(50, 300), (10, 100), (20, 150)]);
    assert_eq!(dict.entries(), &vec![(10, 100), (20, 150), (50, 300)]);
}

#[test]
fn same_pairs_any_order_build_equal_dictionaries() {
    let a = ThresholdDict::from(vec![(10, 100), (20, 150), (50, 300)]);
    let b = ThresholdDict::from(vec![(20, 150), (50, 300), (10, 100)]);
    assert_eq!(a.entries(), b.entries());
}

#[test]
fn duplicate_keys_first_occurrence_survives() {
    let dict = ThresholdDict::from(vec![(20, 1), (10, 100), (20, 150)]);
    assert_eq!(dict.entries(), &vec![(10, 100), (20, 1)]);
}

#[test]
fn strategies_agree_on_every_query() {
    let mut pairs = Vec::new();
    for i in 1..=12u64 {
        pairs.push((i * 10, i));
    }
    let mut linear = ThresholdDict::from(pairs.clone());
    let mut binary = ThresholdDict::from(pairs);
    linear.set_strategy_threshold(usize::MAX);
    binary.set_strategy_threshold(0);
    for q in 0..=130u64 {
        assert_eq!(linear.query(&q), binary.query(&q));
    }
}

#[test]
fn search_strategies_return_the_same_index() {
    let dict = ThresholdDict::from(vec![(10, 100), (20, 150), (50, 300)]);
    for q in 0..=60u64 {
        assert_eq!(dict.search_linear(&q), dict.search_binary(&q));
    }
    assert_eq!(dict.search_linear(&0), Some(0));
    assert_eq!(dict.search_binary(&10), Some(1));
    assert_eq!(dict.search_linear(&50), None);
}

#[test]
fn query_at_stored_key_skips_that_entry() {
    let dict = ThresholdDict::from(vec![(10, 100), (20, 150), (50, 300)]);
    assert_eq!(dict.query(&20), Some(&300));
    assert_eq!(dict.query(&50), None);
}

#[test]
fn keys_in_same_bracket_resolve_alike() {
    let dict = ThresholdDict::from(vec![(10, 100), (20, 150), (50, 300)]);
    assert_eq!(dict.query(&10), dict.query(&15));
    assert_eq!(dict.query(&21), dict.query(&49));
}

#[test]
fn empty_dictionary_resolves_default() {
    let empty: ThresholdDict<i32> = ThresholdDict::from(vec![]);
    assert!(empty.is_empty());
    assert_eq!(empty.len(), 0);
    assert_eq!(empty.query(&0), None);
    assert_eq!(empty.query(&u64::MAX), None);
    let mut with_default: ThresholdDict<i32> = ThresholdDict::from(vec![]);
    with_default.set_default_policy(DefaultPolicy::Static(7));
    assert_eq!(with_default.query(&123), Some(&7));
}

#[test]
fn out_of_range_is_absent_without_default() {
    let dict = ThresholdDict::from(vec![(10, 100), (20, 150), (50, 300)]);
    assert_eq!(dict.query(&50), None);
    assert_eq!(dict.query(&60), None);
    assert_eq!(dict.query(&u64::MAX), None);
}

#[test]
fn static_default_answers_out_of_range() {
    let dict = ThresholdDict::from_pairs(
        vec![(10, 100), (20, 150), (50, 300)],
        DefaultPolicy::Static(500),
        DEFAULT_STRATEGY_THRESHOLD,
    );
    assert_eq!(dict.query(&0), Some(&100));
    assert_eq!(dict.query(&10), Some(&150));
    assert_eq!(dict.query(&15), Some(&150));
    assert_eq!(dict.query(&40), Some(&300));
    assert_eq!(dict.query(&50), Some(&500));
    assert_eq!(dict.query(&60), Some(&500));
}

#[test]
fn replacing_policy_keeps_entries() {
    let mut dict = ThresholdDict::from(vec![(10, 100), (20, 150)]);
    let before = dict.entries().clone();
    dict.set_default_policy(DefaultPolicy::Static(9));
    assert_eq!(dict.entries(), &before);
    assert_eq!(dict.query(&5), Some(&100));
    assert_eq!(dict.query(&99), Some(&9));
}

#[test]
fn computed_default_sees_the_query_key() {
    let dict = ThresholdDict::from(vec![(10, 100), (20, 150)]);
    let double = |k: u64| Some((k as i32) * 2);
    assert_eq!(dict.query_with(&5, double), Some(100));
    assert_eq!(dict.query_with(&30, double), Some(60));
    let nothing = |_k: u64| None::<i32>;
    assert_eq!(dict.query_with(&30, nothing), None);
}

#[test]
fn default_strategy_threshold_is_ten() {
    let dict: ThresholdDict<i32> = ThresholdDict::from(vec![]);
    assert_eq!(dict.strategy_threshold(), DEFAULT_STRATEGY_THRESHOLD);
    assert_eq!(DEFAULT_STRATEGY_THRESHOLD, 10);
}

#[test]
fn binary_search_path_on_large_dictionary() {
    let mut pairs = Vec::new();
    for i in 0..25u64 {
        pairs.push((i * 10, i));
    }
    let dict = ThresholdDict::from(pairs);
    assert_eq!(dict.len(), 25);
    assert_eq!(dict.query(&0), Some(&1));
    assert_eq!(dict.query(&95), Some(&10));
    assert_eq!(dict.query(&239), Some(&24));
    assert_eq!(dict.query(&240), None);
}
