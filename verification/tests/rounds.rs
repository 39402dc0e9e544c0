use moth_fans_runtimes::rounds::{
    copy_texts, decode_test_merges, dedup_by_number, deserialize_string_to_u64, NumberField,
    TestMerge, TestMergeDetails, TestMergeRecord,
};

fn details(number: u64, title: &str) -> TestMergeDetails {
    TestMergeDetails {
        number,
        title: String::from(title),
        author: String::from("author"),
        commit: format!("commit{}", number),
    }
}

fn record(number: NumberField, title: &str) -> TestMergeRecord {
    TestMergeRecord {
        number,
        title: String::from(title),
        author: String::from("someone"),
        commit: String::from("abc123"),
    }
}

fn numbers(list: &Vec<TestMergeDetails>) -> Vec<u64> {
    list.iter().map(|item| item.number).collect()
}

#[test]
fn duplicate_numbers_keep_their_first_entry() {
    let list = vec![details(5, "first five"), details(7, "seven"), details(5, "second five")];
    let kept = dedup_by_number(&list);
    assert_eq!(numbers(&kept), vec![5, 7]);
    assert_eq!(kept[0].title, "first five");
    assert_eq!(kept[1].title, "seven");
}

#[test]
fn neighbours_with_the_same_number_are_merged_too() {
    let list = vec![details(5, "a"), details(5, "b"), details(5, "c"), details(1, "d")];
    let kept = dedup_by_number(&list);
    assert_eq!(numbers(&kept), vec![5, 1]);
    assert_eq!(kept[0].title, "a");
}

#[test]
fn lists_without_duplicates_stay_as_they_are() {
    let list = vec![details(3, "a"), details(2, "b"), details(1, "c")];
    assert_eq!(dedup_by_number(&list), list);
    assert_eq!(dedup_by_number(&Vec::new()), Vec::new());
}

#[test]
fn number_as_text_and_as_number_decode_alike() {
    let as_text = deserialize_string_to_u64(&NumberField::Text(String::from("42")));
    let as_number = deserialize_string_to_u64(&NumberField::Number(42));
    assert_eq!(as_text, Some(42));
    assert_eq!(as_number, Some(42));
    assert_eq!(as_text, as_number);
    let from_text = TestMergeDetails::from_record(&record(NumberField::Text(String::from("42")), "t"));
    let from_number = TestMergeDetails::from_record(&record(NumberField::Number(42), "t"));
    assert!(from_text.is_some());
    assert!(from_text == from_number);
}

#[test]
fn number_that_is_no_number_does_not_decode() {
    assert_eq!(deserialize_string_to_u64(&NumberField::Text(String::from("forty-two"))), None);
    assert_eq!(deserialize_string_to_u64(&NumberField::Text(String::from(""))), None);
    assert_eq!(deserialize_string_to_u64(&NumberField::Text(String::from("-1"))), None);
    assert_eq!(
        deserialize_string_to_u64(&NumberField::Text(String::from("18446744073709551616"))),
        None
    );
    assert_eq!(deserialize_string_to_u64(&NumberField::Number(u64::MAX)), Some(u64::MAX));
}

#[test]
fn records_decode_field_by_field() {
    let decoded = TestMergeDetails::from_record(&record(NumberField::Text(String::from("70292")), "Fix"));
    assert_eq!(
        decoded,
        Some(TestMergeDetails {
            number: 70292,
            title: String::from("Fix"),
            author: String::from("someone"),
            commit: String::from("abc123"),
        })
    );
    assert_eq!(TestMergeDetails::from_record(&record(NumberField::Text(String::from("x")), "Fix")), None);
}

#[test]
fn a_list_of_records_decodes_as_a_whole() {
    let good = vec![
        record(NumberField::Number(1), "one"),
        record(NumberField::Text(String::from("2")), "two"),
    ];
    let decoded = decode_test_merges(&good).unwrap();
    assert_eq!(numbers(&decoded), vec![1, 2]);
    assert_eq!(decoded[1].title, "two");
    let bad = vec![
        record(NumberField::Number(1), "one"),
        record(NumberField::Text(String::from("two")), "two"),
        record(NumberField::Number(3), "three"),
    ];
    assert_eq!(decode_test_merges(&bad), None);
    assert_eq!(decode_test_merges(&Vec::new()), Some(Vec::new()));
}

#[test]
fn details_compare_by_all_their_fields() {
    let one = details(5, "title");
    assert!(one == one.clone());
    let mut other = one.clone();
    other.number = 6;
    assert!(one != other);
    let mut other = one.clone();
    other.title = String::from("another");
    assert!(one != other);
    let mut other = one.clone();
    other.author = String::from("another");
    assert!(one != other);
    let mut other = one.clone();
    other.commit = String::from("another");
    assert!(one != other);
}

#[test]
fn test_merge_cache_file_is_named_by_number_and_commit() {
    let merge = TestMerge {
        details: TestMergeDetails {
            number: 70292,
            title: String::from("t"),
            author: String::from("a"),
            commit: String::from("0a1b2c"),
        },
        files_changed: None,
    };
    assert_eq!(merge.cache_file_path(), "cache/test_merges/70292_0a1b2c.json");
    let copy = merge.clone();
    assert_eq!(copy, merge);
    assert_eq!(copy.cache_file_path(), merge.cache_file_path());
}

#[test]
fn test_merge_clone_keeps_the_files() {
    let merge = TestMerge {
        details: details(1, "t"),
        files_changed: Some(vec![String::from("code/a.dm"), String::from("code/b.dm")]),
    };
    assert_eq!(merge.clone(), merge);
    assert_eq!(
        copy_texts(&vec![String::from("x"), String::from("y")]),
        vec![String::from("x"), String::from("y")]
    );
}
