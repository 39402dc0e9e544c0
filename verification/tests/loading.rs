use moth_fans_runtimes::context::{group_by_file_name, FilesResponse, RoundCollectionContext};
use moth_fans_runtimes::file_cache::CacheRead;
use moth_fans_runtimes::loading::{
    load_round_from_row, load_rounds_over_cloud, load_runtimes_from, plan_round, runtime_log_url,
    server_label_of, MergeColumn, RoundLoad, RoundPlan, RoundRow, RowError,
};
use moth_fans_runtimes::rounds::{
    NumberField, Round, TestMerge, TestMergeDetails, TestMergeRecord, Timestamp,
};
use moth_fans_runtimes::runtimes::{BestGuessFilenames, FieldError, RuntimeBatch};
use moth_fans_runtimes::text_map::TextMap;

fn timestamp() -> Timestamp {
    Timestamp { year: 2022, month: 10, day: 3, hour: 21, minute: 4, second: 59, nanosecond: 0 }
}

fn record(number: NumberField, commit: &str) -> TestMergeRecord {
    TestMergeRecord {
        number,
        title: String::from("title"),
        author: String::from("author"),
        commit: String::from(commit),
    }
}

fn row() -> RoundRow {
    RoundRow {
        id: Some(191838),
        initialize_datetime: Some(timestamp()),
        server_port: Some(1337),
        commit_hash: Some(String::from("deadbeef")),
        test_merges: MergeColumn::Records(vec![
            record(NumberField::Number(5), "a"),
            record(NumberField::Text(String::from("7")), "b"),
            record(NumberField::Text(String::from("5")), "c"),
        ]),
    }
}

fn round(round_id: i32) -> Round {
    Round {
        round_id,
        timestamp: timestamp(),
        revision: String::from("deadbeef"),
        server: String::from("sybil"),
        runtimes: None,
        test_merges: Vec::new(),
    }
}

fn empty_context() -> RoundCollectionContext {
    RoundCollectionContext::reload(&Vec::new(), TextMap::new())
}

const LOG: &str = "The following runtime has occurred 3 time(s).\nruntime error: Cannot read null.name\nproc name: foo (/datum/thing/proc/foo)\n  source file: thing.dm,42\n  usr: null\n";

#[test]
fn servers_are_shown_by_name_or_by_port() {
    assert_eq!(server_label_of(1337), "sybil");
    assert_eq!(server_label_of(4447), "event-hall-us");
    assert_eq!(server_label_of(1234), "unknown server: 1234");
    assert_eq!(server_label_of(0), "unknown server: 0");
}

#[test]
fn log_address_holds_server_date_and_round() {
    assert_eq!(
        runtime_log_url(191838, 1337, &timestamp()),
        Some(String::from(
            "https://tgstation13.org/parsed-logs/sybil/data/logs/2022/10/03/round-191838/runtime.condensed.txt"
        ))
    );
    let early = Timestamp { year: 2023, month: 1, day: 12, hour: 0, minute: 0, second: 0, nanosecond: 0 };
    assert_eq!(
        runtime_log_url(7, 2337, &early),
        Some(String::from(
            "https://tgstation13.org/parsed-logs/basil/data/logs/2023/01/12/round-7/runtime.condensed.txt"
        ))
    );
    assert_eq!(runtime_log_url(7, 1, &early), None);
}

#[test]
fn a_row_is_read_into_a_plan() {
    let plan = plan_round(&row()).unwrap();
    assert_eq!(plan.round_id, 191838);
    assert_eq!(plan.timestamp, timestamp());
    assert_eq!(plan.revision, "deadbeef");
    assert_eq!(plan.server, "sybil");
    assert_eq!(plan.server_port, 1337);
    assert_eq!(plan.test_merges.iter().map(|item| item.number).collect::<Vec<u64>>(), vec![5, 7]);
    assert_eq!(plan.test_merges[0].commit, "a");
    assert_eq!(
        plan.log_url,
        Some(String::from(
            "https://tgstation13.org/parsed-logs/sybil/data/logs/2022/10/03/round-191838/runtime.condensed.txt"
        ))
    );
}

#[test]
fn a_row_without_test_merges_has_none() {
    let mut bare = row();
    bare.test_merges = MergeColumn::Absent;
    assert_eq!(plan_round(&bare).unwrap().test_merges, Vec::new());
}

#[test]
fn an_unknown_port_gives_a_placeholder_and_no_log() {
    let mut odd = row();
    odd.server_port = Some(9999);
    let plan = plan_round(&odd).unwrap();
    assert_eq!(plan.server, "unknown server: 9999");
    assert_eq!(plan.log_url, None);
}

#[test]
fn each_missing_field_fails_the_row() {
    let mut missing = row();
    missing.id = None;
    assert_eq!(plan_round(&missing), Err(RowError::MissingId));
    let mut missing = row();
    missing.server_port = None;
    assert_eq!(plan_round(&missing), Err(RowError::MissingServerPort));
    let mut missing = row();
    missing.commit_hash = None;
    assert_eq!(plan_round(&missing), Err(RowError::MissingCommitHash));
    let mut missing = row();
    missing.initialize_datetime = None;
    assert_eq!(plan_round(&missing), Err(RowError::MissingTimestamp));
    let mut malformed = row();
    malformed.test_merges = MergeColumn::Undecodable;
    assert_eq!(plan_round(&malformed), Err(RowError::UndecodableTestMerges));
    let mut malformed = row();
    malformed.test_merges = MergeColumn::Records(vec![record(NumberField::Text(String::from("x")), "a")]);
    assert_eq!(plan_round(&malformed), Err(RowError::UndecodableTestMerges));
    let mut several = row();
    several.id = None;
    several.commit_hash = None;
    assert_eq!(plan_round(&several), Err(RowError::MissingId));
}

#[test]
fn runtimes_of_a_log_get_their_best_guesses() {
    let tree = group_by_file_name(&vec![String::from("code/a/thing.dm"), String::from("code/b/thing.dm")]);
    let context = RoundCollectionContext::reload(&Vec::new(), tree);
    let runtimes = load_runtimes_from(&context, LOG).unwrap();
    assert_eq!(
        runtimes,
        vec![RuntimeBatch {
            count: 3,
            exception: String::from("Cannot read null.name"),
            proc_path: String::from("/datum/thing/proc/foo"),
            source_file: String::from("thing.dm"),
            line: 42,
            best_guess_filenames: Some(BestGuessFilenames::Possible(vec![
                String::from("code/a/thing.dm"),
                String::from("code/b/thing.dm"),
            ])),
        }]
    );
    let broken = "The following runtime has occurred 99999999999999999999 time(s).\nruntime error: e\nproc name: p (/proc/p)\n  source file: p.dm,1\n";
    assert_eq!(load_runtimes_from(&context, broken).unwrap_err().field, FieldError::InvalidCount);
}

#[test]
fn a_round_without_its_log_has_no_runtimes_and_is_kept() {
    let context = empty_context();
    let plan: RoundPlan = plan_round(&row()).unwrap();
    let merges = vec![TestMerge {
        details: TestMergeDetails {
            number: 5,
            title: String::from("title"),
            author: String::from("author"),
            commit: String::from("a"),
        },
        files_changed: None,
    }];
    let missing = load_round_from_row(&context, plan, merges.clone(), None);
    assert_eq!(missing.round_id, 191838);
    assert_eq!(missing.timestamp, timestamp());
    assert_eq!(missing.revision, "deadbeef");
    assert_eq!(missing.server, "sybil");
    assert_eq!(missing.runtimes, None);
    assert_eq!(missing.test_merges, merges);
    let rounds = load_rounds_over_cloud(vec![Ok(round(3)), Ok(missing), Ok(round(1))]);
    assert_eq!(rounds.iter().map(|item| item.round_id).collect::<Vec<i32>>(), vec![3, 191838, 1]);
    assert_eq!(rounds[1].runtimes, None);
}

#[test]
fn a_round_with_its_log_has_the_runtimes_of_the_log() {
    let context = empty_context();
    let loaded = load_round_from_row(&context, plan_round(&row()).unwrap(), Vec::new(), Some(String::from(LOG)));
    let runtimes = loaded.runtimes.unwrap();
    assert_eq!(runtimes.len(), 1);
    assert_eq!(runtimes[0].count, 3);
    assert_eq!(runtimes[0].best_guess_filenames, None);
    let quiet = load_round_from_row(&context, plan_round(&row()).unwrap(), Vec::new(), Some(String::new()));
    assert_eq!(quiet.runtimes, Some(Vec::new()));
}

#[test]
fn a_round_with_a_broken_log_has_no_runtimes() {
    let context = empty_context();
    let broken = "The following runtime has occurred 99999999999999999999 time(s).\nruntime error: e\nproc name: p (/proc/p)\n  source file: p.dm,1\n";
    let loaded = load_round_from_row(&context, plan_round(&row()).unwrap(), Vec::new(), Some(String::from(broken)));
    assert_eq!(loaded.runtimes, None);
}

#[test]
fn rows_that_fail_are_skipped_and_the_others_stay_in_order() {
    let rounds = load_rounds_over_cloud(vec![
        Ok(round(104)),
        Err(RowError::MissingId),
        Ok(round(102)),
        Err(RowError::CorruptCache),
        Err(RowError::UndecodableTestMerges),
        Ok(round(101)),
    ]);
    assert_eq!(rounds, vec![round(104), round(102), round(101)]);
    assert_eq!(load_rounds_over_cloud(Vec::new()), Vec::new());
    assert_eq!(load_rounds_over_cloud(vec![Err(RowError::MissingId)]), Vec::new());
}

#[test]
fn rounds_of_falling_rows_fall() {
    let rounds = load_rounds_over_cloud(vec![
        Ok(round(9)),
        Ok(round(7)),
        Err(RowError::MissingCommitHash),
        Ok(round(4)),
        Ok(round(-2)),
    ]);
    for pair in rounds.windows(2) {
        assert!(pair[0].round_id > pair[1].round_id);
    }
    assert_eq!(rounds.len(), 4);
}

fn merge(number: u64, commit: &str, files: Option<Vec<String>>) -> TestMerge {
    TestMerge {
        details: TestMergeDetails {
            number,
            title: String::from("title"),
            author: String::from("author"),
            commit: String::from(commit),
        },
        files_changed: files,
    }
}

#[test]
fn the_round_of_a_row_has_each_test_merge_once_in_the_order_of_the_row() {
    let mut context = empty_context();
    let mut load = RoundLoad::new(plan_round(&row()).unwrap());
    assert!(!load.is_complete());
    assert_eq!(
        load.advance(&context),
        Some(String::from("https://api.github.com/repos/tgstation/tgstation/pulls/5/files"))
    );
    assert_eq!(
        load.answer(&mut context, FilesResponse::Files(vec![String::from("code/a.dm")])),
        Some(merge(5, "a", Some(vec![String::from("code/a.dm")])))
    );
    assert_eq!(
        load.advance(&context),
        Some(String::from("https://api.github.com/repos/tgstation/tgstation/pulls/7/files"))
    );
    assert_eq!(load.answer(&mut context, FilesResponse::TimedOut), Some(merge(7, "b", None)));
    assert_eq!(load.advance(&context), None);
    assert!(load.is_complete());
    let made = load.finish(&context, Some(String::from(LOG))).unwrap();
    assert_eq!(made.round_id, 191838);
    assert_eq!(
        made.test_merges,
        vec![merge(5, "a", Some(vec![String::from("code/a.dm")])), merge(7, "b", None)]
    );
    assert_eq!(made.runtimes.unwrap().len(), 1);
}

#[test]
fn known_test_merges_are_taken_without_asking() {
    let known = merge(5, "a", Some(Vec::new()));
    let mut context =
        RoundCollectionContext::reload(&vec![CacheRead::Value(known.clone())], TextMap::new());
    let mut load = RoundLoad::new(plan_round(&row()).unwrap());
    assert_eq!(
        load.advance(&context),
        Some(String::from("https://api.github.com/repos/tgstation/tgstation/pulls/7/files"))
    );
    assert_eq!(load.answer(&mut context, FilesResponse::Failed), Some(merge(7, "b", None)));
    assert_eq!(load.advance(&context), None);
    let made = load.finish(&context, None).unwrap();
    assert_eq!(made.test_merges, vec![known, merge(7, "b", None)]);
    assert_eq!(made.runtimes, None);

    let mut again = RoundLoad::new(plan_round(&row()).unwrap());
    assert_eq!(again.advance(&context), None);
    assert_eq!(again.finish(&context, None).unwrap().test_merges.len(), 2);
}

#[test]
fn there_is_no_round_before_each_test_merge_is_found() {
    let mut context = empty_context();
    let mut load = RoundLoad::new(plan_round(&row()).unwrap());
    assert!(load.advance(&context).is_some());
    load.answer(&mut context, FilesResponse::Failed);
    assert!(!load.is_complete());
    assert_eq!(load.finish(&context, None), None);
}

#[test]
fn an_answer_that_nothing_waits_for_changes_nothing() {
    let mut context = empty_context();
    let mut bare = row();
    bare.test_merges = MergeColumn::Absent;
    let mut load = RoundLoad::new(plan_round(&bare).unwrap());
    assert!(load.is_complete());
    assert_eq!(load.advance(&context), None);
    assert_eq!(load.answer(&mut context, FilesResponse::Files(Vec::new())), None);
    assert_eq!(load.finish(&context, None).unwrap().test_merges, Vec::new());
}

#[test]
fn an_answer_for_a_known_test_merge_is_passed_over() {
    let known = merge(5, "a", None);
    let mut context =
        RoundCollectionContext::reload(&vec![CacheRead::Value(known.clone())], TextMap::new());
    let mut load = RoundLoad::new(plan_round(&row()).unwrap());
    assert_eq!(load.answer(&mut context, FilesResponse::Files(vec![String::from("x")])), None);
    assert!(load.advance(&context).is_some());
    load.answer(&mut context, FilesResponse::Failed);
    assert_eq!(load.finish(&context, None).unwrap().test_merges, vec![known, merge(7, "b", None)]);
}

#[test]
fn the_log_of_a_round_is_where_its_plan_says() {
    let load = RoundLoad::new(plan_round(&row()).unwrap());
    assert_eq!(
        load.log_url(),
        Some(&String::from(
            "https://tgstation13.org/parsed-logs/sybil/data/logs/2022/10/03/round-191838/runtime.condensed.txt"
        ))
    );
    let mut odd = row();
    odd.server_port = Some(1);
    assert_eq!(RoundLoad::new(plan_round(&odd).unwrap()).log_url(), None);
}
