use moth_fans_runtimes::rounds::{Round, TestMerge, TestMergeDetails, Timestamp};
use moth_fans_runtimes::state::{trash_old_cache, used_cache_files, AppState, BlockingRead};

fn merge(number: u64, commit: &str) -> TestMerge {
    TestMerge {
        details: TestMergeDetails {
            number,
            title: String::from("title"),
            author: String::from("author"),
            commit: String::from(commit),
        },
        files_changed: None,
    }
}

fn round(round_id: i32, test_merges: Vec<TestMerge>) -> Round {
    Round {
        round_id,
        timestamp: Timestamp { year: 2022, month: 10, day: 3, hour: 0, minute: 0, second: 0, nanosecond: 0 },
        revision: String::from("deadbeef"),
        server: String::from("sybil"),
        runtimes: None,
        test_merges,
    }
}

fn texts(items: &[&str]) -> Vec<String> {
    items.iter().map(|item| String::from(*item)).collect()
}

#[test]
fn nothing_is_ready_before_the_first_refresh() {
    let state = AppState::new();
    assert_eq!(state.try_rounds(), None);
    assert_eq!(state.rounds(), BlockingRead::NotReady);
}

#[test]
fn nothing_is_read_while_the_first_refresh_runs() {
    let mut state = AppState::new();
    assert!(state.begin_refresh());
    assert_eq!(state.try_rounds(), None);
    assert_eq!(state.rounds(), BlockingRead::Wait);
    assert!(!state.begin_refresh());
}

#[test]
fn the_rounds_are_read_after_a_refresh() {
    let mut state = AppState::new();
    assert!(state.begin_refresh());
    state.save_new_rounds(Some(vec![round(102, Vec::new()), round(101, Vec::new())]));
    let expected = vec![round(102, Vec::new()), round(101, Vec::new())];
    assert_eq!(state.try_rounds(), Some(&expected));
    assert_eq!(state.rounds(), BlockingRead::Ready(&expected));
}

#[test]
fn a_refresh_under_way_hides_the_rounds_until_it_ends() {
    let mut state = AppState::new();
    state.begin_refresh();
    state.save_new_rounds(Some(vec![round(1, Vec::new())]));
    assert!(state.begin_refresh());
    assert_eq!(state.try_rounds(), None);
    assert_eq!(state.rounds(), BlockingRead::Wait);
    state.save_new_rounds(Some(vec![round(2, Vec::new()), round(1, Vec::new())]));
    let expected = vec![round(2, Vec::new()), round(1, Vec::new())];
    assert_eq!(state.rounds(), BlockingRead::Ready(&expected));
}

#[test]
fn a_failed_refresh_leaves_the_rounds_as_they_were() {
    let mut state = AppState::new();
    state.begin_refresh();
    state.save_new_rounds(None);
    assert_eq!(state.try_rounds(), None);
    assert_eq!(state.rounds(), BlockingRead::NotReady);
    state.begin_refresh();
    state.save_new_rounds(Some(vec![round(1, Vec::new())]));
    state.begin_refresh();
    state.save_new_rounds(None);
    let expected = vec![round(1, Vec::new())];
    assert_eq!(state.try_rounds(), Some(&expected));
    assert!(state.begin_refresh());
}

#[test]
fn an_empty_list_of_rounds_is_a_list() {
    let mut state = AppState::new();
    state.begin_refresh();
    state.save_new_rounds(Some(Vec::new()));
    assert_eq!(state.try_rounds(), Some(&Vec::new()));
}

#[test]
fn files_of_rounds_that_are_gone_are_trashed() {
    let rounds = vec![round(102, Vec::new()), round(101, Vec::new())];
    let found = texts(&["cache/rounds/99.json", "cache/rounds/101.json", "cache/rounds/102.json"]);
    assert_eq!(trash_old_cache(&rounds, &found), texts(&["cache/rounds/99.json"]));
}

#[test]
fn files_of_test_merges_that_are_gone_are_trashed() {
    let rounds = vec![
        round(102, vec![merge(5, "abc"), merge(7, "def")]),
        round(101, vec![merge(5, "abc")]),
    ];
    let found = texts(&[
        "cache/test_merges/5_abc.json",
        "cache/test_merges/5_abd.json",
        "cache/rounds/100.json",
        "cache/test_merges/7_def.json",
        "cache/test_merges/6_def.json",
        "cache/rounds/102.json",
        "cache/rounds/5_abc.json",
        "cache/git_tree.json",
    ]);
    assert_eq!(
        trash_old_cache(&rounds, &found),
        texts(&[
            "cache/test_merges/5_abd.json",
            "cache/rounds/100.json",
            "cache/test_merges/6_def.json",
            "cache/rounds/5_abc.json",
            "cache/git_tree.json",
        ])
    );
}

#[test]
fn without_rounds_every_file_is_trashed() {
    let found = texts(&["cache/rounds/1.json", "cache/test_merges/1_a.json"]);
    assert_eq!(trash_old_cache(&Vec::new(), &found), found);
    assert_eq!(trash_old_cache(&vec![round(1, Vec::new())], &Vec::new()), Vec::<String>::new());
}

#[test]
fn used_files_are_those_of_the_rounds_and_their_test_merges() {
    let used = used_cache_files(&vec![round(102, vec![merge(5, "abc")]), round(101, vec![merge(5, "abc")])]);
    assert_eq!(used.keys().len(), 3);
    assert!(used.contains_key(&String::from("cache/rounds/102.json")));
    assert!(used.contains_key(&String::from("cache/rounds/101.json")));
    assert!(used.contains_key(&String::from("cache/test_merges/5_abc.json")));
    assert!(!used.contains_key(&String::from("cache/rounds/99.json")));
}
