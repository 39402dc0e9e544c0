use moth_fans_runtimes::file_cache::{
    after_compute, cache_file_path, from_cache_or, round_cache_key, CacheRead, CacheStep,
};

#[test]
fn cache_files_live_under_the_cache_directory() {
    assert_eq!(cache_file_path("rounds/7.json"), "cache/rounds/7.json");
    assert_eq!(cache_file_path("git_tree.json"), "cache/git_tree.json");
    assert_eq!(cache_file_path(""), "cache/");
}

#[test]
fn rounds_are_keyed_by_their_identifier() {
    assert_eq!(round_cache_key(191838), "rounds/191838.json");
    assert_eq!(round_cache_key(0), "rounds/0.json");
    assert_eq!(round_cache_key(-3), "rounds/-3.json");
    assert_eq!(cache_file_path(&round_cache_key(101)), "cache/rounds/101.json");
}

#[test]
fn a_hit_is_returned_without_computing() {
    assert_eq!(from_cache_or(CacheRead::Value(5u32)), CacheStep::Hit(5u32));
}

#[test]
fn a_miss_asks_for_the_value_to_be_computed() {
    assert_eq!(from_cache_or(CacheRead::<u32>::Missing), CacheStep::Compute);
}

#[test]
fn an_unreadable_file_is_a_failure_and_no_miss() {
    assert_eq!(from_cache_or(CacheRead::<u32>::Undecodable), CacheStep::Corrupt);
}

#[test]
fn a_computed_value_is_stored_and_returned() {
    let computed = after_compute::<u32, String>(Ok(9));
    assert_eq!(computed.outcome, Ok(9));
    assert!(computed.store);
}

#[test]
fn a_failure_is_handed_on_and_not_stored() {
    let computed = after_compute::<u32, String>(Err(String::from("no database")));
    assert_eq!(computed.outcome, Err(String::from("no database")));
    assert!(!computed.store);
}
