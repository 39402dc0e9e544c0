//! Rounds and what they are enriched with: the test merges that were active,
//! the runtime errors of the crash log, and the repository paths that a
//! logged file name may stand for.

use crate::runtimes::{batch_views, RuntimeBatch, RuntimeBatchView};
use crate::text::{parse_u64, parsed_u64, push_decimal, decimal_text, texts};
use vstd::prelude::*;

verus! {

/// The identifier of a round.
pub type RoundId = i32;

/// A local date and time, without a time zone.
#[derive(Clone, Copy, Debug, PartialEq, Eq, Structural)]
pub struct Timestamp {
    pub year: i32,
    pub month: u32,
    pub day: u32,
    pub hour: u32,
    pub minute: u32,
    pub second: u32,
    pub nanosecond: u32,
}

/// The identity of a merged change.
#[derive(Debug, Hash)]
pub struct TestMergeDetails {
    pub number: u64,
    pub title: String,
    pub author: String,
    pub commit: String,
}

/// The model of a [`TestMergeDetails`].
pub struct TestMergeDetailsView {
    pub number: u64,
    pub title: Seq<char>,
    pub author: Seq<char>,
    pub commit: Seq<char>,
}

impl View for TestMergeDetails {
    type V = TestMergeDetailsView;

    open spec fn view(&self) -> TestMergeDetailsView {
        TestMergeDetailsView {
            number: self.number,
            title: self.title@,
            author: self.author@,
            commit: self.commit@,
        }
    }
}

impl Clone for TestMergeDetails {
    fn clone(&self) -> (copy: Self)
        ensures
            copy@ == self@,
    {
        TestMergeDetails {
            number: self.number,
            title: self.title.clone(),
            author: self.author.clone(),
            commit: self.commit.clone(),
        }
    }
}

impl PartialEq for TestMergeDetails {
    fn eq(&self, other: &Self) -> (equal: bool) {
        self.number == other.number && self.title == other.title && self.author == other.author
            && self.commit == other.commit
    }
}

impl vstd::std_specs::cmp::PartialEqSpecImpl for TestMergeDetails {
    open spec fn obeys_eq_spec() -> bool {
        true
    }

    open spec fn eq_spec(&self, other: &Self) -> bool {
        self.number == other.number && self.title@ == other.title@ && self.author@ == other.author@
            && self.commit@ == other.commit@
    }
}

impl Eq for TestMergeDetails {

}

/// The views of a run of details, in order.
pub open spec fn details_views(details: Seq<TestMergeDetails>) -> Seq<TestMergeDetailsView> {
    details.map_values(|item: TestMergeDetails| item@)
}

/// A merged change with the files that it touches, where they are known.
#[derive(Debug, PartialEq, Eq)]
pub struct TestMerge {
    pub details: TestMergeDetails,
    pub files_changed: Option<Vec<String>>,
}

/// The model of a [`TestMerge`].
pub struct TestMergeView {
    pub details: TestMergeDetailsView,
    pub files_changed: Option<Seq<Seq<char>>>,
}

impl View for TestMerge {
    type V = TestMergeView;

    open spec fn view(&self) -> TestMergeView {
        TestMergeView {
            details: self.details@,
            files_changed: match self.files_changed {
                Some(files) => Some(texts(files@)),
                None => None,
            },
        }
    }
}

/// The views of a run of test merges, in order.
pub open spec fn merge_views(merges: Seq<TestMerge>) -> Seq<TestMergeView> {
    merges.map_values(|merge: TestMerge| merge@)
}

/// Copies a list of texts.
pub fn copy_texts(items: &Vec<String>) -> (copy: Vec<String>)
    ensures
        texts(copy@) == texts(items@),
{
    let mut copy: Vec<String> = Vec::new();
    let mut index: usize = 0;
    while index < items.len()
        invariant
            index <= items.len(),
            texts(copy@) == texts(items@.take(index as int)),
        decreases items.len() - index,
    {
        let ghost before = texts(copy@);
        copy.push(items[index].clone());
        assert(texts(copy@) =~= before.push(items[index as int]@));
        assert(texts(items@.take(index + 1)) =~= texts(items@.take(index as int)).push(
            items[index as int]@,
        ));
        index += 1;
    }
    assert(items@.take(index as int) =~= items@);
    copy
}

impl Clone for TestMerge {
    fn clone(&self) -> (copy: Self)
        ensures
            copy@ == self@,
    {
        TestMerge {
            details: self.details.clone(),
            files_changed: match &self.files_changed {
                Some(files) => Some(copy_texts(files)),
                None => None,
            },
        }
    }
}

/// A listing of files.
#[derive(Clone, Debug, PartialEq, Eq)]
pub struct Tree {
    pub files: Vec<String>,
}

/// One completed game session.
#[derive(Clone, Debug, PartialEq, Eq)]
pub struct Round {
    pub round_id: RoundId,
    pub timestamp: Timestamp,
    pub revision: String,
    pub server: String,
    pub runtimes: Option<Vec<RuntimeBatch>>,
    pub test_merges: Vec<TestMerge>,
}

/// The model of a [`Round`].
pub struct RoundView {
    pub round_id: RoundId,
    pub timestamp: Timestamp,
    pub revision: Seq<char>,
    pub server: Seq<char>,
    pub runtimes: Option<Seq<RuntimeBatchView>>,
    pub test_merges: Seq<TestMergeView>,
}

impl View for Round {
    type V = RoundView;

    open spec fn view(&self) -> RoundView {
        RoundView {
            round_id: self.round_id,
            timestamp: self.timestamp,
            revision: self.revision@,
            server: self.server@,
            runtimes: match self.runtimes {
                Some(batches) => Some(batch_views(batches@)),
                None => None,
            },
            test_merges: merge_views(self.test_merges@),
        }
    }
}

/// The views of a run of rounds, in order.
pub open spec fn round_views(rounds: Seq<Round>) -> Seq<RoundView> {
    rounds.map_values(|round: Round| round@)
}

/// The file under which a test merge is cached.
pub open spec fn merge_cache_path(number: u64, commit: Seq<char>) -> Seq<char> {
    "cache/test_merges/"@ + decimal_text(number as nat) + "_"@ + commit + ".json"@
}

impl TestMerge {
    /// The file under which this test merge is cached, by its number and its
    /// commit.
    pub fn cache_file_path(&self) -> (path: String)
        ensures
            path@ == merge_cache_path(self.details.number, self.details.commit@),
    {
        let mut path = String::from_str("cache/test_merges/");
        push_decimal(&mut path, self.details.number);
        path.append("_");
        path.append(self.details.commit.as_str());
        path.append(".json");
        path
    }
}

/// The number of a merged change as it arrives: a number, or the text of one.
#[derive(Clone, Debug, PartialEq, Eq)]
pub enum NumberField {
    Number(u64),
    Text(String),
}

/// The number that a number field stands for, if it stands for one.
pub open spec fn field_number(field: NumberField) -> Option<u64> {
    match field {
        NumberField::Number(number) => Some(number),
        NumberField::Text(text) => parsed_u64(text@),
    }
}

/// Reads the number of a merged change, given as a number or as text.
pub fn deserialize_string_to_u64(field: &NumberField) -> (number: Option<u64>)
    ensures
        number == field_number(*field),
{
    match field {
        NumberField::Number(number) => Some(*number),
        NumberField::Text(text) => parse_u64(text.as_str()),
    }
}

/// A number decodes to the same value whether it arrives as a number or as
/// its decimal text.
pub proof fn lemma_number_as_text(number: u64, text: String)
    requires
        text@ == decimal_text(number as nat),
    ensures
        field_number(NumberField::Text(text)) == field_number(NumberField::Number(number)),
{
    crate::text::lemma_parse_decimal_text(number);
}

/// The identity of a merged change as it arrives.
#[derive(Clone, Debug, PartialEq, Eq)]
pub struct TestMergeRecord {
    pub number: NumberField,
    pub title: String,
    pub author: String,
    pub commit: String,
}

/// The details that a record stands for, if its number can be read.
pub open spec fn record_details(record: TestMergeRecord) -> Option<TestMergeDetailsView> {
    match field_number(record.number) {
        Some(number) => Some(
            TestMergeDetailsView {
                number,
                title: record.title@,
                author: record.author@,
                commit: record.commit@,
            },
        ),
        None => None,
    }
}

/// Whether the number of every record can be read.
pub open spec fn all_records_decode(records: Seq<TestMergeRecord>) -> bool {
    forall|i: int| 0 <= i < records.len() ==> (#[trigger] record_details(records[i])).is_some()
}

/// The details that a run of records stands for, in order.
pub open spec fn records_details(records: Seq<TestMergeRecord>) -> Seq<TestMergeDetailsView> {
    records.map_values(|record: TestMergeRecord| record_details(record).unwrap())
}

impl TestMergeDetails {
    /// Decodes one record.
    pub fn from_record(record: &TestMergeRecord) -> (details: Option<TestMergeDetails>)
        ensures
            match details {
                Some(decoded) => record_details(*record) == Some(decoded@),
                None => record_details(*record).is_none(),
            },
    {
        match deserialize_string_to_u64(&record.number) {
            Some(number) => Some(
                TestMergeDetails {
                    number,
                    title: record.title.clone(),
                    author: record.author.clone(),
                    commit: record.commit.clone(),
                },
            ),
            None => None,
        }
    }
}

/// Decodes a list of records: all of them, or none where one cannot be read.
pub fn decode_test_merges(records: &Vec<TestMergeRecord>) -> (details: Option<
    Vec<TestMergeDetails>,
>)
    ensures
        match details {
            Some(decoded) => all_records_decode(records@) && details_views(decoded@)
                == records_details(records@),
            None => !all_records_decode(records@),
        },
{
    let mut decoded: Vec<TestMergeDetails> = Vec::new();
    let mut index: usize = 0;
    while index < records.len()
        invariant
            index <= records.len(),
            decoded.len() == index,
            forall|i: int|
                0 <= i < index ==> (#[trigger] record_details(records[i])) == Some(decoded[i]@),
        decreases records.len() - index,
    {
        match TestMergeDetails::from_record(&records[index]) {
            Some(details) => {
                decoded.push(details);
            },
            None => {
                assert(record_details(records[index as int]).is_none());
                return None;
            },
        }
        index += 1;
    }
    assert(details_views(decoded@) =~= records_details(records@));
    Some(decoded)
}

/// Whether one of the details has `number`.
pub open spec fn number_seen(details: Seq<TestMergeDetailsView>, number: u64) -> bool {
    exists|j: int| 0 <= j < details.len() && (#[trigger] details[j]).number == number
}

/// Whether no earlier entry has the number of the entry at `index`.
pub open spec fn first_of_its_number(details: Seq<TestMergeDetailsView>, index: int) -> bool {
    forall|j: int| 0 <= j < index ==> (#[trigger] details[j]).number != details[index].number
}

/// The details without the entries whose number an earlier entry has: of
/// each number the first entry stays, in the order of the list.
pub open spec fn deduplicated(details: Seq<TestMergeDetailsView>) -> Seq<TestMergeDetailsView>
    decreases details.len(),
{
    if details.len() == 0 {
        Seq::empty()
    } else {
        let front = deduplicated(details.drop_last());
        if number_seen(details.drop_last(), details.last().number) {
            front
        } else {
            front.push(details.last())
        }
    }
}

/// The places in a list from which its deduplicated form was taken.
pub open spec fn kept_places(details: Seq<TestMergeDetailsView>) -> Seq<int>
    decreases details.len(),
{
    if details.len() == 0 {
        Seq::empty()
    } else {
        let front = kept_places(details.drop_last());
        if number_seen(details.drop_last(), details.last().number) {
            front
        } else {
            front.push(details.len() - 1)
        }
    }
}

/// Deduplication keeps of each number its first entry and nothing else, in
/// the order of the list: the kept places rise, each is the first of its
/// number, each first of its number is kept, and no number is kept twice.
pub proof fn lemma_deduplicated(details: Seq<TestMergeDetailsView>)
    ensures
        deduplicated(details).len() == kept_places(details).len(),
        forall|k: int|
            0 <= k < kept_places(details).len() ==> 0 <= (#[trigger] kept_places(details)[k])
                < details.len() && deduplicated(details)[k] == details[kept_places(details)[k]]
                && first_of_its_number(details, kept_places(details)[k]),
        forall|k: int, l: int|
            0 <= k < l < kept_places(details).len() ==> (#[trigger] kept_places(details)[k]) < (
            #[trigger] kept_places(details)[l]),
        forall|i: int|
            0 <= i < details.len() && first_of_its_number(details, i) ==> kept_places(
                details,
            ).contains(i),
        forall|k: int, l: int|
            0 <= k < l < deduplicated(details).len() ==> (#[trigger] deduplicated(
                details,
            )[k]).number != (#[trigger] deduplicated(details)[l]).number,
        forall|number: u64|
            number_seen(deduplicated(details), number) <==> number_seen(details, number),
    decreases details.len(),
{
    if details.len() > 0 {
        let front = details.drop_last();
        let last = details.len() - 1;
        lemma_deduplicated(front);
        let kept = deduplicated(details);
        let places = kept_places(details);
        let front_kept = deduplicated(front);
        let front_places = kept_places(front);
        let repeated = number_seen(front, details.last().number);
        assert forall|k: int| 0 <= k < places.len() implies 0 <= (#[trigger] places[k])
            < details.len() && kept[k] == details[places[k]] && first_of_its_number(
            details,
            places[k],
        ) by {
            if k < front_places.len() {
                let place = front_places[k];
                assert(places[k] == place);
                assert(front[place] == details[place]);
                assert forall|j: int| 0 <= j < place implies (#[trigger] details[j]).number
                    != details[place].number by {
                    assert(front[j] == details[j]);
                }
            } else {
                assert(places[k] == last);
                assert forall|j: int| 0 <= j < last implies (#[trigger] details[j]).number
                    != details[last].number by {
                    assert(front[j] == details[j]);
                }
            }
        }
        assert forall|k: int, l: int| 0 <= k < l < places.len() implies (#[trigger] places[k]) < (
        #[trigger] places[l]) by {
            if l < front_places.len() {
                assert(places[k] == front_places[k]);
                assert(places[l] == front_places[l]);
            } else {
                assert(places[k] == front_places[k]);
            }
        }
        assert forall|i: int|
            0 <= i < details.len() && first_of_its_number(details, i) implies places.contains(
            i,
        ) by {
            if i < last {
                assert forall|j: int| 0 <= j < i implies (#[trigger] front[j]).number
                    != front[i].number by {
                    assert(front[j] == details[j]);
                    assert(front[i] == details[i]);
                }
                assert(first_of_its_number(front, i));
                assert(front_places.contains(i));
                let k = choose|k: int| 0 <= k < front_places.len() && front_places[k] == i;
                assert(places[k] == i);
            } else {
                if repeated {
                    let j = choose|j: int|
                        0 <= j < front.len() && (#[trigger] front[j]).number
                            == details.last().number;
                    assert(front[j] == details[j]);
                    assert(false);
                }
                assert(places[places.len() - 1] == last);
            }
        }
        assert forall|number: u64| number_seen(kept, number) <==> number_seen(
            details,
            number,
        ) by {
            if number_seen(kept, number) {
                let k = choose|k: int| 0 <= k < kept.len() && (#[trigger] kept[k]).number == number;
                assert(kept[k] == details[places[k]]);
                assert(details[places[k]].number == number);
            }
            if number_seen(details, number) {
                let i = choose|i: int|
                    0 <= i < details.len() && (#[trigger] details[i]).number == number;
                if i < last {
                    assert(front[i] == details[i]);
                    assert(number_seen(front, number));
                    assert(number_seen(front_kept, number));
                    let k = choose|k: int|
                        0 <= k < front_kept.len() && (#[trigger] front_kept[k]).number == number;
                    assert(kept[k] == front_kept[k]);
                } else if repeated {
                    assert(number_seen(front_kept, number));
                    let k = choose|k: int|
                        0 <= k < front_kept.len() && (#[trigger] front_kept[k]).number == number;
                    assert(kept[k] == front_kept[k]);
                } else {
                    assert(kept[kept.len() - 1].number == number);
                }
            }
        }
        assert forall|k: int, l: int| 0 <= k < l < kept.len() implies (#[trigger] kept[k]).number
            != (#[trigger] kept[l]).number by {
            if l < front_kept.len() {
                assert(kept[k] == front_kept[k]);
                assert(kept[l] == front_kept[l]);
            } else {
                assert(kept[k] == front_kept[k]);
                assert(kept[l] == details.last());
                if kept[k].number == kept[l].number {
                    assert(number_seen(front_kept, details.last().number));
                }
            }
        }
    }
}

/// Whether one of the details has `number`.
fn has_number(details: &Vec<TestMergeDetails>, number: u64) -> (seen: bool)
    ensures
        seen == number_seen(details_views(details@), number),
{
    let mut index: usize = 0;
    while index < details.len()
        invariant
            index <= details.len(),
            forall|j: int| 0 <= j < index ==> (#[trigger] details_views(details@)[j]).number != number,
        decreases details.len() - index,
    {
        if details[index].number == number {
            assert(details_views(details@)[index as int].number == number);
            return true;
        }
        index += 1;
    }
    false
}

/// Drops the details whose number an earlier entry has.
pub fn dedup_by_number(details: &Vec<TestMergeDetails>) -> (kept: Vec<TestMergeDetails>)
    ensures
        details_views(kept@) == deduplicated(details_views(details@)),
{
    let ghost all = details_views(details@);
    let mut kept: Vec<TestMergeDetails> = Vec::new();
    let mut index: usize = 0;
    assert(all.take(0) =~= Seq::<TestMergeDetailsView>::empty());
    assert(details_views(kept@) =~= Seq::<TestMergeDetailsView>::empty());
    while index < details.len()
        invariant
            index <= details.len(),
            all == details_views(details@),
            details_views(kept@) == deduplicated(all.take(index as int)),
        decreases details.len() - index,
    {
        let ghost next = all.take(index + 1);
        let ghost before = details_views(kept@);
        proof {
            assert(next.drop_last() =~= all.take(index as int));
            assert(next.last() == details[index as int]@);
            lemma_deduplicated(all.take(index as int));
        }
        if !has_number(&kept, details[index].number) {
            kept.push(details[index].clone());
            assert(details_views(kept@) =~= before.push(details[index as int]@));
        }
        index += 1;
    }
    assert(all.take(index as int) =~= all);
    kept
}

} // verus!
