use moth_fans_runtimes::context::{
    cached_git_tree, get_git_tree, group_by_file_name, FilesResponse, MergeStep,
    RoundCollectionContext,
};
use moth_fans_runtimes::file_cache::CacheRead;
use moth_fans_runtimes::rounds::{TestMerge, TestMergeDetails};
use moth_fans_runtimes::runtimes::{BestGuessFilenames, RuntimeBatch};
use moth_fans_runtimes::text_map::TextMap;

fn texts(items: &[&str]) -> Vec<String> {
    items.iter().map(|item| String::from(*item)).collect()
}

fn details(number: u64, commit: &str) -> TestMergeDetails {
    TestMergeDetails {
        number,
        title: format!("title {}", number),
        author: String::from("author"),
        commit: String::from(commit),
    }
}

fn batch(source_file: &str, guess: Option<BestGuessFilenames>) -> RuntimeBatch {
    RuntimeBatch {
        count: 1,
        exception: String::from("e"),
        proc_path: String::from("/proc/p"),
        source_file: String::from(source_file),
        line: 1,
        best_guess_filenames: guess,
    }
}

fn sample_tree() -> TextMap<Vec<String>> {
    group_by_file_name(&texts(&[
        "code/game/turf.dm",
        "code/modules/mob/mob.dm",
        "code/modules/turf.dm",
        "README.md",
    ]))
}

#[test]
fn paths_are_grouped_by_file_name_in_order() {
    let index = sample_tree();
    assert_eq!(index.keys().len(), 3);
    assert_eq!(
        index.get(&String::from("turf.dm")),
        Some(&texts(&["code/game/turf.dm", "code/modules/turf.dm"]))
    );
    assert_eq!(index.get(&String::from("mob.dm")), Some(&texts(&["code/modules/mob/mob.dm"])));
    assert_eq!(index.get(&String::from("README.md")), Some(&texts(&["README.md"])));
    assert_eq!(index.get(&String::from("code")), None);
}

#[test]
fn paths_without_a_file_name_are_left_out() {
    let index = group_by_file_name(&texts(&["/", "", "a/b", "..", "code/.."]));
    assert_eq!(index.keys().len(), 1);
    assert_eq!(index.get(&String::from("b")), Some(&texts(&["a/b"])));
    assert_eq!(group_by_file_name(&Vec::new()).keys().len(), 0);
}

#[test]
fn a_listing_gives_the_index_to_use_and_to_keep() {
    let index = get_git_tree(Some(texts(&["a/x.dm", "b/x.dm"]))).unwrap();
    assert_eq!(index.get(&String::from("x.dm")), Some(&texts(&["a/x.dm", "b/x.dm"])));
    assert!(get_git_tree(None).is_none());
}

#[test]
fn without_a_listing_the_kept_index_is_used_or_an_empty_one() {
    let kept = cached_git_tree(Some(sample_tree()));
    assert_eq!(kept.keys().len(), 3);
    assert!(kept.contains_key(&String::from("mob.dm")));
    let empty = cached_git_tree(None);
    assert_eq!(empty.keys().len(), 0);
}

#[test]
fn resolving_twice_fetches_once() {
    let mut context = RoundCollectionContext::reload(&Vec::new(), TextMap::new());
    let wanted = details(70292, "abc");
    let url = match context.test_merge_from_details(&wanted) {
        MergeStep::Fetch(url) => url,
        MergeStep::Cached(_) => panic!("nothing is known yet"),
    };
    assert_eq!(url, "https://api.github.com/repos/tgstation/tgstation/pulls/70292/files");
    let recorded = context
        .record_test_merge(wanted.clone(), FilesResponse::Files(texts(&["code/a.dm", "code/b.dm"])));
    assert_eq!(
        recorded,
        TestMerge { details: wanted.clone(), files_changed: Some(texts(&["code/a.dm", "code/b.dm"])) }
    );
    assert_eq!(context.test_merge_from_details(&wanted), MergeStep::Cached(recorded.clone()));
    assert_eq!(context.test_merge_from_details(&wanted), MergeStep::Cached(recorded.clone()));
    let same_commit = details(1, "abc");
    assert_eq!(context.test_merge_from_details(&same_commit), MergeStep::Cached(recorded));
    assert!(matches!(context.test_merge_from_details(&details(70292, "def")), MergeStep::Fetch(_)));
}

#[test]
fn a_failed_lookup_is_recorded_without_files() {
    let mut context = RoundCollectionContext::reload(&Vec::new(), TextMap::new());
    let failed = context.record_test_merge(details(1, "a"), FilesResponse::Failed);
    assert_eq!(failed.files_changed, None);
    let late = context.record_test_merge(details(2, "b"), FilesResponse::TimedOut);
    assert_eq!(late.files_changed, None);
    let unreadable = context.record_test_merge(details(3, "c"), FilesResponse::Undecodable);
    assert_eq!(unreadable.files_changed, None);
    assert_eq!(context.test_merge_from_details(&details(1, "a")), MergeStep::Cached(failed));
    assert_eq!(context.test_merge_from_details(&details(2, "b")), MergeStep::Cached(late));
    assert_eq!(context.test_merge_from_details(&details(3, "c")), MergeStep::Cached(unreadable));
}

#[test]
fn a_change_that_touches_no_file_is_recorded_with_an_empty_list() {
    let mut context = RoundCollectionContext::reload(&Vec::new(), TextMap::new());
    let untouched = context.record_test_merge(details(4, "d"), FilesResponse::Files(Vec::new()));
    assert_eq!(untouched.files_changed, Some(Vec::new()));
}

#[test]
fn kept_test_merges_are_known_from_the_start() {
    let first = TestMerge { details: details(1, "a"), files_changed: None };
    let second = TestMerge { details: details(2, "b"), files_changed: Some(texts(&["x"])) };
    let replaced = TestMerge { details: details(3, "a"), files_changed: Some(Vec::new()) };
    let context = RoundCollectionContext::reload(
        &vec![
            CacheRead::Value(first),
            CacheRead::Undecodable,
            CacheRead::Value(second.clone()),
            CacheRead::Missing,
            CacheRead::Value(replaced.clone()),
        ],
        TextMap::new(),
    );
    assert_eq!(context.test_merge_from_details(&details(9, "b")), MergeStep::Cached(second));
    assert_eq!(context.test_merge_from_details(&details(9, "a")), MergeStep::Cached(replaced));
    assert!(matches!(context.test_merge_from_details(&details(9, "c")), MergeStep::Fetch(_)));
}

#[test]
fn files_that_hold_no_test_merge_are_passed_over() {
    let context = RoundCollectionContext::reload(
        &vec![CacheRead::Undecodable, CacheRead::Missing],
        TextMap::new(),
    );
    assert!(matches!(context.test_merge_from_details(&details(1, "a")), MergeStep::Fetch(_)));
}

#[test]
fn file_names_are_looked_up_in_the_index() {
    let context = RoundCollectionContext::reload(&Vec::new(), sample_tree());
    let certain = Some(BestGuessFilenames::Definitely(String::from("elsewhere/turf.dm")));
    let guessed = context.best_guess_filenames(vec![
        batch("turf.dm", None),
        batch("unknown.dm", None),
        batch("turf.dm", certain.clone()),
        batch("mob.dm", Some(BestGuessFilenames::Possible(Vec::new()))),
    ]);
    assert_eq!(
        guessed,
        vec![
            batch(
                "turf.dm",
                Some(BestGuessFilenames::Possible(texts(&["code/game/turf.dm", "code/modules/turf.dm"])))
            ),
            batch("unknown.dm", None),
            batch("turf.dm", certain),
            batch("mob.dm", Some(BestGuessFilenames::Possible(texts(&["code/modules/mob/mob.dm"])))),
        ]
    );
}
