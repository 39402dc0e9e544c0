//! From the rows of the round table to the rounds of a refresh.

use crate::context::{
    files_changed_of,
    files_url,
    with_best_guesses,
    FilesResponse,
    MergeStep,
    RoundCollectionContext,
};
use crate::rounds::{
    all_records_decode,
    decode_test_merges,
    dedup_by_number,
    deduplicated,
    first_of_its_number,
    kept_places,
    lemma_deduplicated,
    details_views,
    merge_views,
    records_details,
    round_views,
    Round,
    RoundId,
    RoundView,
    TestMerge,
    TestMergeDetails,
    TestMergeDetailsView,
    TestMergeRecord,
    TestMergeView,
    Timestamp,
};
use crate::runtimes::{
    get_runtimes_for_round,
    runtime_block_captures,
    runtimes_of,
    ParseError,
    RuntimeBatch,
    RuntimeBatchView,
};
use crate::servers::{server_by_port, server_name};
use crate::text::{
    decimal_text,
    push_decimal,
    push_signed_decimal,
    push_two_digits,
    signed_decimal_text,
    two_digit_text,
};
use vstd::prelude::*;

verus! {

/// The name under which the server on `port` is shown: its name in the table
/// of servers, or a placeholder that holds the port.
pub open spec fn server_label(port: u16) -> Seq<char> {
    match server_name(port) {
        Some(name) => name,
        None => "unknown server: "@ + decimal_text(port as nat),
    }
}

/// The address of the condensed runtime log of a round on a server.
pub open spec fn log_url(server: Seq<char>, round_id: RoundId, timestamp: Timestamp) -> Seq<char> {
    "https://tgstation13.org/parsed-logs/"@ + server + "/data/logs/"@ + signed_decimal_text(
        timestamp.year as int,
    ) + "/"@ + two_digit_text(timestamp.month as nat) + "/"@ + two_digit_text(timestamp.day as nat)
        + "/round-"@ + signed_decimal_text(round_id as int) + "/runtime.condensed.txt"@
}

/// The address of the condensed runtime log of a round, where its server is
/// known.
pub open spec fn round_log_url(round_id: RoundId, port: u16, timestamp: Timestamp) -> Option<
    Seq<char>,
> {
    match server_name(port) {
        Some(name) => Some(log_url(name, round_id, timestamp)),
        None => None,
    }
}

/// The name under which the server on `port` is shown.
pub fn server_label_of(port: u16) -> (label: String)
    ensures
        label@ == server_label(port),
{
    match server_by_port(port) {
        Some(server) => String::from_str(server.name),
        None => {
            let mut label = String::from_str("unknown server: ");
            push_decimal(&mut label, port as u64);
            label
        },
    }
}

/// The address of the condensed runtime log of a round, or nothing where no
/// server is known for the port.
pub fn runtime_log_url(round_id: RoundId, port: u16, timestamp: &Timestamp) -> (url: Option<String>)
    ensures
        match url {
            Some(text) => round_log_url(round_id, port, *timestamp) == Some(text@),
            None => round_log_url(round_id, port, *timestamp).is_none(),
        },
{
    match server_by_port(port) {
        Some(server) => {
            let mut url = String::from_str("https://tgstation13.org/parsed-logs/");
            url.append(server.name);
            url.append("/data/logs/");
            push_signed_decimal(&mut url, timestamp.year);
            url.append("/");
            push_two_digits(&mut url, timestamp.month);
            url.append("/");
            push_two_digits(&mut url, timestamp.day);
            url.append("/round-");
            push_signed_decimal(&mut url, round_id);
            url.append("/runtime.condensed.txt");
            Some(url)
        },
        None => None,
    }
}

/// The runtime batches that the text of a log stands for, with the paths that
/// the index of the repository has for their file names.
pub open spec fn log_runtimes(
    text: Seq<char>,
    tree: Map<Seq<char>, Seq<Seq<char>>>,
) -> Result<Seq<RuntimeBatchView>, crate::runtimes::ParseErrorView> {
    match runtimes_of(runtime_block_captures(text)) {
        Ok(batches) => Ok(with_best_guesses(batches, tree)),
        Err(error) => Err(error),
    }
}

/// Parses the text of a round's log and looks up the file names of its
/// batches.
pub fn load_runtimes_from(context: &RoundCollectionContext, text: &str) -> (outcome: Result<
    Vec<RuntimeBatch>,
    ParseError,
>)
    ensures
        crate::runtimes::outcome_view(outcome) == log_runtimes(text@, context.git_tree()),
{
    match get_runtimes_for_round(text) {
        Ok(runtimes) => Ok(context.best_guess_filenames(runtimes)),
        Err(error) => Err(error),
    }
}

/// The column of a row that lists the test merges of its round.
#[derive(Clone, Debug, PartialEq, Eq)]
pub enum MergeColumn {
    /// The row has no such column.
    Absent,
    /// The column holds something other than a list of test merges.
    Undecodable,
    /// The test merges, as listed.
    Records(Vec<TestMergeRecord>),
}

/// One row of the round table, each field as far as it could be read.
#[derive(Clone, Debug, PartialEq, Eq)]
pub struct RoundRow {
    pub id: Option<RoundId>,
    pub initialize_datetime: Option<Timestamp>,
    pub server_port: Option<u16>,
    pub commit_hash: Option<String>,
    pub test_merges: MergeColumn,
}

/// Why a row gives no round.
#[derive(Clone, Copy, Debug, PartialEq, Eq, Structural)]
pub enum RowError {
    MissingId,
    MissingServerPort,
    MissingCommitHash,
    MissingTimestamp,
    UndecodableTestMerges,
    /// What the cache holds for the round cannot be read.
    CorruptCache,
}

/// What a row says of its round, before anything is asked of other services.
#[derive(Clone, Debug, PartialEq, Eq)]
pub struct RoundPlan {
    pub round_id: RoundId,
    pub timestamp: Timestamp,
    pub revision: String,
    pub server: String,
    pub server_port: u16,
    /// The test merges of the round, each number once.
    pub test_merges: Vec<TestMergeDetails>,
    /// Where the log of the round is, if its server is known.
    pub log_url: Option<String>,
}

/// The model of a [`RoundPlan`].
pub struct RoundPlanView {
    pub round_id: RoundId,
    pub timestamp: Timestamp,
    pub revision: Seq<char>,
    pub server: Seq<char>,
    pub server_port: u16,
    pub test_merges: Seq<TestMergeDetailsView>,
    pub log_url: Option<Seq<char>>,
}

impl View for RoundPlan {
    type V = RoundPlanView;

    open spec fn view(&self) -> RoundPlanView {
        RoundPlanView {
            round_id: self.round_id,
            timestamp: self.timestamp,
            revision: self.revision@,
            server: self.server@,
            server_port: self.server_port,
            test_merges: details_views(self.test_merges@),
            log_url: crate::runtimes::optional_text(self.log_url),
        }
    }
}

/// Whether the column of test merges can be read.
pub open spec fn column_decodes(column: MergeColumn) -> bool {
    match column {
        MergeColumn::Absent => true,
        MergeColumn::Undecodable => false,
        MergeColumn::Records(records) => all_records_decode(records@),
    }
}

/// The test merges that a column lists, each number once: none for a row
/// without the column.
pub open spec fn column_details(column: MergeColumn) -> Seq<TestMergeDetailsView> {
    match column {
        MergeColumn::Records(records) => deduplicated(records_details(records@)),
        _ => Seq::empty(),
    }
}

/// What a row says of its round, or the first thing that it lacks: the
/// identifier, the port, the commit, the time, a readable list of test merges.
pub open spec fn row_plan(row: RoundRow) -> Result<RoundPlanView, RowError> {
    if row.id.is_none() {
        Err(RowError::MissingId)
    } else if row.server_port.is_none() {
        Err(RowError::MissingServerPort)
    } else if row.commit_hash.is_none() {
        Err(RowError::MissingCommitHash)
    } else if row.initialize_datetime.is_none() {
        Err(RowError::MissingTimestamp)
    } else if !column_decodes(row.test_merges) {
        Err(RowError::UndecodableTestMerges)
    } else {
        Ok(
            RoundPlanView {
                round_id: row.id.unwrap(),
                timestamp: row.initialize_datetime.unwrap(),
                revision: row.commit_hash.unwrap()@,
                server: server_label(row.server_port.unwrap()),
                server_port: row.server_port.unwrap(),
                test_merges: column_details(row.test_merges),
                log_url: round_log_url(
                    row.id.unwrap(),
                    row.server_port.unwrap(),
                    row.initialize_datetime.unwrap(),
                ),
            },
        )
    }
}

/// Reads what a row says of its round.
pub fn plan_round(row: &RoundRow) -> (outcome: Result<RoundPlan, RowError>)
    ensures
        match outcome {
            Ok(plan) => row_plan(*row) == Ok::<RoundPlanView, RowError>(plan@),
            Err(error) => row_plan(*row) == Err::<RoundPlanView, RowError>(error),
        },
{
    let round_id: RoundId = match row.id {
        Some(id) => id,
        None => {
            return Err(RowError::MissingId);
        },
    };
    let server_port: u16 = match row.server_port {
        Some(port) => port,
        None => {
            return Err(RowError::MissingServerPort);
        },
    };
    let revision = match &row.commit_hash {
        Some(commit) => commit.clone(),
        None => {
            return Err(RowError::MissingCommitHash);
        },
    };
    let timestamp = match row.initialize_datetime {
        Some(timestamp) => timestamp,
        None => {
            return Err(RowError::MissingTimestamp);
        },
    };
    let test_merges = match &row.test_merges {
        MergeColumn::Absent => {
            let none: Vec<TestMergeDetails> = Vec::new();
            assert(details_views(none@) =~= Seq::<TestMergeDetailsView>::empty());
            none
        },
        MergeColumn::Undecodable => {
            return Err(RowError::UndecodableTestMerges);
        },
        MergeColumn::Records(records) => match decode_test_merges(records) {
            Some(details) => dedup_by_number(&details),
            None => {
                return Err(RowError::UndecodableTestMerges);
            },
        },
    };
    let server = server_label_of(server_port);
    let log_url = runtime_log_url(round_id, server_port, &timestamp);
    Ok(RoundPlan { round_id, timestamp, revision, server, server_port, test_merges, log_url })
}

/// The runtimes of a round for what came of asking for its log: nothing
/// where no log came or where it cannot be parsed.
pub open spec fn round_runtimes(
    log: Option<Seq<char>>,
    tree: Map<Seq<char>, Seq<Seq<char>>>,
) -> Option<Seq<RuntimeBatchView>> {
    match log {
        Some(text) => match log_runtimes(text, tree) {
            Ok(batches) => Some(batches),
            Err(_) => None,
        },
        None => None,
    }
}

/// Makes the round of a row from what the row says, the test merges that were
/// found for it, and the text of its log, if that could be had.
pub fn load_round_from_row(
    context: &RoundCollectionContext,
    plan: RoundPlan,
    test_merges: Vec<TestMerge>,
    log: Option<String>,
) -> (round: Round)
    ensures
        round@ == (RoundView {
            round_id: plan.round_id,
            timestamp: plan.timestamp,
            revision: plan.revision@,
            server: plan.server@,
            runtimes: round_runtimes(crate::runtimes::optional_text(log), context.git_tree()),
            test_merges: merge_views(test_merges@),
        }),
{
    let runtimes = match &log {
        Some(text) => match load_runtimes_from(context, text.as_str()) {
            Ok(runtimes) => Some(runtimes),
            Err(_) => None,
        },
        None => None,
    };
    Round {
        round_id: plan.round_id,
        timestamp: plan.timestamp,
        revision: plan.revision,
        server: plan.server,
        runtimes,
        test_merges,
    }
}

/// Where the run of known test merges ends that begins at `from`: at the
/// first of the details whose commit is not known, or behind the last.
pub open spec fn known_run_end(
    known: Map<Seq<char>, TestMergeView>,
    details: Seq<TestMergeDetailsView>,
    from: int,
) -> int
    decreases details.len() - from,
{
    if from < 0 || from >= details.len() || !known.contains_key(details[from].commit) {
        from
    } else {
        known_run_end(known, details, from + 1)
    }
}

/// The known test merges of the details from `from` up to `to`.
pub open spec fn known_run(
    known: Map<Seq<char>, TestMergeView>,
    details: Seq<TestMergeDetailsView>,
    from: int,
    to: int,
) -> Seq<TestMergeView> {
    Seq::new((to - from) as nat, |i: int| known[details[from + i].commit])
}

/// Whether each test merge that is known under a commit of the details has
/// those very details.
pub open spec fn known_agree(
    known: Map<Seq<char>, TestMergeView>,
    details: Seq<TestMergeDetailsView>,
) -> bool {
    forall|j: int|
        0 <= j < details.len() && known.contains_key((#[trigger] details[j]).commit)
            ==> known[details[j].commit].details == details[j]
}

/// Whether each of the test merges is that of the details at its place.
pub open spec fn merges_follow(
    merges: Seq<TestMergeView>,
    details: Seq<TestMergeDetailsView>,
) -> bool {
    merges.len() <= details.len() && forall|j: int|
        0 <= j < merges.len() ==> (#[trigger] merges[j]).details == details[j]
}

/// The making of one round: what its row says, and the test merges found for
/// it so far, in the order of the row.
#[derive(Debug)]
pub struct RoundLoad {
    plan: RoundPlan,
    resolved: Vec<TestMerge>,
}

impl RoundLoad {
    /// What the row says of the round.
    pub closed spec fn plan(&self) -> RoundPlanView {
        self.plan@
    }

    /// The test merges found so far.
    pub closed spec fn resolved(&self) -> Seq<TestMergeView> {
        merge_views(self.resolved@)
    }

    /// Whether a test merge has been found for each of the details.
    pub open spec fn complete(&self) -> bool {
        self.resolved().len() >= self.plan().test_merges.len()
    }

    /// Begins the making of a round from what its row says.
    pub fn new(plan: RoundPlan) -> (load: Self)
        ensures
            load.plan() == plan@,
            load.resolved() == Seq::<TestMergeView>::empty(),
    {
        let load = RoundLoad { plan, resolved: Vec::new() };
        assert(load.resolved() =~= Seq::<TestMergeView>::empty());
        load
    }

    /// Takes each next test merge that is known, up to the first that is
    /// not, and gives the address to ask at for the files of that one, or
    /// nothing once a test merge has been found for each of the details.
    pub fn advance(&mut self, context: &RoundCollectionContext) -> (fetch: Option<String>)
        ensures
            final(self).plan() == old(self).plan(),
            final(self).resolved() == old(self).resolved() + known_run(
                context.test_merges(),
                old(self).plan().test_merges,
                old(self).resolved().len() as int,
                known_run_end(
                    context.test_merges(),
                    old(self).plan().test_merges,
                    old(self).resolved().len() as int,
                ),
            ),
            match fetch {
                Some(url) => !final(self).complete() && url@ == files_url(
                    final(self).plan().test_merges[final(self).resolved().len() as int].number,
                ),
                None => final(self).complete(),
            },
            known_agree(context.test_merges(), old(self).plan().test_merges) && merges_follow(
                old(self).resolved(),
                old(self).plan().test_merges,
            ) ==> merges_follow(final(self).resolved(), final(self).plan().test_merges),
    {
        proof {
            if known_agree(context.test_merges(), self.plan().test_merges) && merges_follow(
                self.resolved(),
                self.plan().test_merges,
            ) {
                lemma_advance_follows(
                    context.test_merges(),
                    self.plan().test_merges,
                    self.resolved(),
                );
            }
        }
        let ghost known = context.test_merges();
        let ghost details = self.plan@.test_merges;
        let ghost start = self.resolved@.len() as int;
        let ghost before = merge_views(self.resolved@);
        proof {
            assert(before + known_run(known, details, start, start) =~= before);
        }
        while self.resolved.len() < self.plan.test_merges.len()
            invariant
                self.plan@ == old(self).plan@,
                details == self.plan@.test_merges,
                known == context.test_merges(),
                start == old(self).resolved@.len(),
                before == merge_views(old(self).resolved@),
                known_agree(known, details) && merges_follow(before, details) ==> merges_follow(
                    before + known_run(known, details, start, known_run_end(known, details, start)),
                    details,
                ),
                start <= self.resolved@.len(),
                known_run_end(known, details, start) == known_run_end(
                    known,
                    details,
                    self.resolved@.len() as int,
                ),
                merge_views(self.resolved@) == before + known_run(
                    known,
                    details,
                    start,
                    self.resolved@.len() as int,
                ),
            decreases self.plan.test_merges.len() - self.resolved.len(),
        {
            let place = self.resolved.len();
            let ghost so_far = merge_views(self.resolved@);
            assert(details[place as int] == self.plan.test_merges[place as int]@);
            match context.test_merge_from_details(&self.plan.test_merges[place]) {
                MergeStep::Cached(merge) => {
                    self.resolved.push(merge);
                    assert(merge_views(self.resolved@) =~= so_far.push(merge@));
                    assert(before + known_run(known, details, start, place + 1) =~= (before
                        + known_run(known, details, start, place as int)).push(merge@));
                },
                MergeStep::Fetch(url) => {
                    assert(known_run_end(known, details, place as int) == place);
                    return Some(url);
                },
            }
        }
        proof {
            if start >= details.len() {
                assert(known_run_end(known, details, start) == start);
                assert(known_run(known, details, start, start) =~= Seq::<TestMergeView>::empty());
                assert(self.resolved@.len() == start);
            }
        }
        None
    }

    /// Takes the answer to the question for the files of the next test
    /// merge: the test merge is made from it and kept by the context, and is
    /// handed out to be written to disk. Where the next test merge is known
    /// after all, the known one is taken and nothing is handed out; where
    /// none is wanted, nothing changes.
    pub fn answer(&mut self, context: &mut RoundCollectionContext, response: FilesResponse) -> (made:
        Option<TestMerge>)
        ensures
            final(self).plan() == old(self).plan(),
            final(context).git_tree() == old(context).git_tree(),
            old(self).complete() ==> made.is_none() && final(self).resolved() == old(
                self,
            ).resolved() && final(context).test_merges() == old(context).test_merges(),
            !old(self).complete() ==> ({
                let wanted = old(self).plan().test_merges[old(self).resolved().len() as int];
                let known = old(context).test_merges();
                if known.contains_key(wanted.commit) {
                    made.is_none() && final(self).resolved() == old(self).resolved().push(
                        known[wanted.commit],
                    ) && final(context).test_merges() == known
                } else {
                    made.is_some() && made.unwrap()@ == (TestMergeView {
                        details: wanted,
                        files_changed: files_changed_of(response),
                    }) && final(self).resolved() == old(self).resolved().push(made.unwrap()@)
                        && final(context).test_merges() == known.insert(
                        wanted.commit,
                        made.unwrap()@,
                    )
                }
            }),
            known_agree(old(context).test_merges(), old(self).plan().test_merges) && commits_decide(
                old(self).plan().test_merges,
            ) && merges_follow(old(self).resolved(), old(self).plan().test_merges)
                ==> merges_follow(final(self).resolved(), final(self).plan().test_merges)
                && known_agree(final(context).test_merges(), final(self).plan().test_merges),
    {
        proof {
            let details = self.plan().test_merges;
            let merges = self.resolved();
            if known_agree(context.test_merges(), details) && commits_decide(details)
                && merges_follow(merges, details) && merges.len() < details.len() {
                lemma_answer_follows(
                    context.test_merges(),
                    details,
                    merges,
                    TestMergeView {
                        details: details[merges.len() as int],
                        files_changed: files_changed_of(response),
                    },
                );
            }
        }
        let place = self.resolved.len();
        if place >= self.plan.test_merges.len() {
            return None;
        }
        let ghost so_far = merge_views(self.resolved@);
        assert(self.plan@.test_merges[place as int] == self.plan.test_merges[place as int]@);
        match context.test_merge_from_details(&self.plan.test_merges[place]) {
            MergeStep::Cached(merge) => {
                self.resolved.push(merge);
                assert(merge_views(self.resolved@) =~= so_far.push(merge@));
                None
            },
            MergeStep::Fetch(_) => {
                let merge = context.record_test_merge(
                    self.plan.test_merges[place].clone(),
                    response,
                );
                self.resolved.push(merge.clone());
                assert(merge_views(self.resolved@) =~= so_far.push(merge@));
                Some(merge)
            },
        }
    }

    /// Whether a test merge has been found for each of the details.
    pub fn is_complete(&self) -> (complete: bool)
        ensures
            complete == self.complete(),
    {
        self.resolved.len() >= self.plan.test_merges.len()
    }

    /// Where the log of the round is, if its server is known.
    pub fn log_url(&self) -> (url: Option<&String>)
        ensures
            crate::runtimes::optional_text(
                match url {
                    Some(text) => Some(*text),
                    None => None,
                },
            ) == self.plan().log_url,
    {
        self.plan.log_url.as_ref()
    }

    /// Makes the round, once a test merge has been found for each of the
    /// details, from the text of its log, if that could be had. Before that
    /// there is no round.
    pub fn finish(self, context: &RoundCollectionContext, log: Option<String>) -> (round: Option<
        Round,
    >)
        ensures
            round.is_some() == self.complete(),
            round matches Some(made) ==> made@ == (RoundView {
                round_id: self.plan().round_id,
                timestamp: self.plan().timestamp,
                revision: self.plan().revision,
                server: self.plan().server,
                runtimes: round_runtimes(crate::runtimes::optional_text(log), context.git_tree()),
                test_merges: self.resolved(),
            }),
    {
        if self.resolved.len() >= self.plan.test_merges.len() {
            Some(load_round_from_row(context, self.plan, self.resolved, log))
        } else {
            None
        }
    }
}

/// Whether details with the same commit are the same details.
pub open spec fn commits_decide(details: Seq<TestMergeDetailsView>) -> bool {
    forall|i: int, j: int|
        0 <= i < details.len() && 0 <= j < details.len() && (#[trigger] details[i]).commit == (
        #[trigger] details[j]).commit ==> details[i] == details[j]
}

/// A run of known test merges ends among the details, and each of the
/// details before its end is known.
pub proof fn lemma_known_run_end(
    known: Map<Seq<char>, TestMergeView>,
    details: Seq<TestMergeDetailsView>,
    from: int,
)
    requires
        0 <= from <= details.len(),
    ensures
        from <= known_run_end(known, details, from) <= details.len(),
        forall|j: int|
            from <= j < known_run_end(known, details, from) ==> known.contains_key(
                (#[trigger] details[j]).commit,
            ),
    decreases details.len() - from,
{
    if from < details.len() && known.contains_key(details[from].commit) {
        lemma_known_run_end(known, details, from + 1);
    }
}

/// Taking the known test merges keeps the test merges in step with the
/// details, where what is known agrees with the details.
pub proof fn lemma_advance_follows(
    known: Map<Seq<char>, TestMergeView>,
    details: Seq<TestMergeDetailsView>,
    merges: Seq<TestMergeView>,
)
    requires
        known_agree(known, details),
        merges_follow(merges, details),
    ensures
        merges_follow(
            merges + known_run(
                known,
                details,
                merges.len() as int,
                known_run_end(known, details, merges.len() as int),
            ),
            details,
        ),
{
    let from = merges.len() as int;
    let end = known_run_end(known, details, from);
    lemma_known_run_end(known, details, from);
    let more = merges + known_run(known, details, from, end);
    assert forall|j: int| 0 <= j < more.len() implies (#[trigger] more[j]).details
        == details[j] by {
        if j >= from {
            assert(more[j] == known[details[j].commit]);
            assert(known.contains_key(details[j].commit));
        } else {
            assert(more[j] == merges[j]);
        }
    }
}

/// Taking an answer keeps the test merges in step with the details, and
/// what is known in agreement with them, where details with the same commit
/// are the same details.
pub proof fn lemma_answer_follows(
    known: Map<Seq<char>, TestMergeView>,
    details: Seq<TestMergeDetailsView>,
    merges: Seq<TestMergeView>,
    made: TestMergeView,
)
    requires
        known_agree(known, details),
        commits_decide(details),
        merges_follow(merges, details),
        merges.len() < details.len(),
        made.details == details[merges.len() as int],
    ensures
        merges_follow(merges.push(made), details),
        known_agree(known.insert(details[merges.len() as int].commit, made), details),
        known.contains_key(details[merges.len() as int].commit) ==> merges_follow(
            merges.push(known[details[merges.len() as int].commit]),
            details,
        ),
{
    let place = merges.len() as int;
    let wanted = details[place];
    let with_made = merges.push(made);
    assert forall|j: int| 0 <= j < with_made.len() implies (#[trigger] with_made[j]).details
        == details[j] by {
        if j < place {
            assert(with_made[j] == merges[j]);
        }
    }
    let more = known.insert(wanted.commit, made);
    assert forall|j: int|
        0 <= j < details.len() && more.contains_key((#[trigger] details[j]).commit) implies
        more[details[j].commit].details == details[j] by {
        if details[j].commit == wanted.commit {
            assert(details[j] == details[place]);
        }
    }
    if known.contains_key(wanted.commit) {
        let with_known = merges.push(known[wanted.commit]);
        assert forall|j: int| 0 <= j < with_known.len() implies (#[trigger] with_known[j]).details
            == details[j] by {
            if j < place {
                assert(with_known[j] == merges[j]);
            }
        }
    }
}

/// The test merges of a round, where they are in step with the deduplicated
/// details of its row: no two have the same number, and each has the details
/// of the first entry of its number in the row, in the order of the row.
pub proof fn lemma_round_test_merges(
    listed: Seq<TestMergeDetailsView>,
    merges: Seq<TestMergeView>,
)
    requires
        merges.len() == deduplicated(listed).len(),
        merges_follow(merges, deduplicated(listed)),
    ensures
        merges.len() == kept_places(listed).len(),
        forall|k: int, l: int|
            0 <= k < l < merges.len() ==> (#[trigger] merges[k]).details.number != (
            #[trigger] merges[l]).details.number,
        forall|k: int|
            0 <= k < merges.len() ==> 0 <= kept_places(listed)[k] < listed.len() && (
            #[trigger] merges[k]).details == listed[kept_places(listed)[k]] && first_of_its_number(
                listed,
                kept_places(listed)[k],
            ),
        forall|k: int, l: int|
            0 <= k < l < merges.len() ==> (#[trigger] kept_places(listed)[k]) < (
            #[trigger] kept_places(listed)[l]),
{
    lemma_deduplicated(listed);
    let kept = deduplicated(listed);
    assert forall|k: int, l: int| 0 <= k < l < merges.len() implies (
    #[trigger] merges[k]).details.number != (#[trigger] merges[l]).details.number by {
        assert(merges[k].details == kept[k]);
        assert(merges[l].details == kept[l]);
    }
    assert forall|k: int| 0 <= k < merges.len() implies 0 <= kept_places(listed)[k] < listed.len()
        && (#[trigger] merges[k]).details == listed[kept_places(listed)[k]] && first_of_its_number(
        listed,
        kept_places(listed)[k],
    ) by {
        assert(merges[k].details == kept[k]);
    }
}

/// The rounds of a run of rows: those of the rows that gave one, in the order
/// of the rows.
pub open spec fn loaded_rounds(outcomes: Seq<Result<Round, RowError>>) -> Seq<RoundView>
    decreases outcomes.len(),
{
    if outcomes.len() == 0 {
        Seq::empty()
    } else {
        let front = loaded_rounds(outcomes.drop_last());
        match outcomes.last() {
            Ok(round) => front.push(round@),
            Err(_) => front,
        }
    }
}

/// Puts the items of a list in the opposite order.
fn reversed<T>(items: Vec<T>) -> (turned: Vec<T>)
    ensures
        turned@ == items@.reverse(),
{
    let ghost all = items@;
    let mut items = items;
    let mut turned: Vec<T> = Vec::new();
    while items.len() > 0
        invariant
            items.len() + turned.len() == all.len(),
            items@ == all.take(items.len() as int),
            forall|i: int| 0 <= i < turned.len() ==> turned[i] == all[all.len() - 1 - i],
        decreases items.len(),
    {
        let item = items.pop().unwrap();
        turned.push(item);
    }
    assert(turned@ =~= all.reverse());
    turned
}

/// Collects the rounds of a refresh from what each row gave, in the order of
/// the rows. A row that gave no round is left out and the others stay. Where
/// the rows come with falling identifiers, as the query orders them, each
/// round has a smaller identifier than the one before it.
pub fn load_rounds_over_cloud(outcomes: Vec<Result<Round, RowError>>) -> (rounds: Vec<Round>)
    ensures
        round_views(rounds@) == loaded_rounds(outcomes@),
        identifiers_fall(outcomes@) ==> strictly_decreasing(round_views(rounds@)),
{
    proof {
        if identifiers_fall(outcomes@) {
            lemma_loaded_rounds_order(outcomes@);
        }
    }
    let ghost all = outcomes@;
    let mut waiting = reversed(outcomes);
    let mut rounds: Vec<Round> = Vec::new();
    let ghost mut taken: int = 0;
    proof {
        assert(all.take(0) =~= Seq::<Result<Round, RowError>>::empty());
        assert(round_views(rounds@) =~= Seq::<RoundView>::empty());
    }
    while waiting.len() > 0
        invariant
            0 <= taken <= all.len(),
            waiting.len() == all.len() - taken,
            forall|i: int| 0 <= i < waiting.len() ==> waiting[i] == all[all.len() - 1 - i],
            round_views(rounds@) == loaded_rounds(all.take(taken)),
        decreases waiting.len(),
    {
        let ghost before = round_views(rounds@);
        let ghost next = all.take(taken + 1);
        let outcome = waiting.pop().unwrap();
        proof {
            assert(outcome == all[taken]);
            assert(next.drop_last() =~= all.take(taken));
            assert(next.last() == outcome);
        }
        match outcome {
            Ok(round) => {
                rounds.push(round);
                assert(round_views(rounds@) =~= before.push(round@));
            },
            Err(_) => {},
        }
        proof {
            taken = taken + 1;
        }
    }
    assert(all.take(taken) =~= all);
    rounds
}

/// Whether the rounds among the outcomes of a run of rows come with falling
/// identifiers.
pub open spec fn identifiers_fall(outcomes: Seq<Result<Round, RowError>>) -> bool {
    forall|i: int, j: int|
        0 <= i < j < outcomes.len() && (#[trigger] outcomes[i]).is_ok() && (
        #[trigger] outcomes[j]).is_ok() ==> outcomes[i].unwrap().round_id
            > outcomes[j].unwrap().round_id
}

/// Whether each round of a list has a smaller identifier than the one before.
pub open spec fn strictly_decreasing(rounds: Seq<RoundView>) -> bool {
    forall|k: int, l: int|
        0 <= k < l < rounds.len() ==> (#[trigger] rounds[k]).round_id > (
        #[trigger] rounds[l]).round_id
}

/// Whether a list of rounds holds the round that a row gave.
pub open spec fn holds_round(rounds: Seq<RoundView>, round: RoundView) -> bool {
    exists|k: int| 0 <= k < rounds.len() && #[trigger] rounds[k] == round
}

/// Whether a row of the run gave `round`.
pub open spec fn row_gave(outcomes: Seq<Result<Round, RowError>>, round: RoundView) -> bool {
    exists|i: int|
        0 <= i < outcomes.len() && (#[trigger] outcomes[i]).is_ok() && outcomes[i].unwrap()@
            == round
}

/// The rounds of a refresh are the rounds that its rows gave: a row that
/// gave none takes no other row's round away, and no round comes from
/// nowhere.
pub proof fn lemma_loaded_rounds_are_those_given(outcomes: Seq<Result<Round, RowError>>)
    ensures
        forall|i: int|
            0 <= i < outcomes.len() && (#[trigger] outcomes[i]).is_ok() ==> holds_round(
                loaded_rounds(outcomes),
                outcomes[i].unwrap()@,
            ),
        forall|k: int|
            0 <= k < loaded_rounds(outcomes).len() ==> row_gave(
                outcomes,
                #[trigger] loaded_rounds(outcomes)[k],
            ),
    decreases outcomes.len(),
{
    if outcomes.len() > 0 {
        let front = outcomes.drop_last();
        let last = outcomes.len() - 1;
        let rounds = loaded_rounds(outcomes);
        let front_rounds = loaded_rounds(front);
        lemma_loaded_rounds_are_those_given(front);
        assert forall|i: int| 0 <= i < outcomes.len() && (#[trigger] outcomes[i]).is_ok() implies
            holds_round(rounds, outcomes[i].unwrap()@) by {
            if i < last {
                assert(front[i] == outcomes[i]);
                let k = choose|k: int|
                    0 <= k < front_rounds.len() && #[trigger] front_rounds[k]
                        == outcomes[i].unwrap()@;
                assert(rounds[k] == front_rounds[k]);
            } else {
                assert(rounds[rounds.len() - 1] == outcomes[i].unwrap()@);
            }
        }
        assert forall|k: int| 0 <= k < rounds.len() implies row_gave(
            outcomes,
            #[trigger] rounds[k],
        ) by {
            if k < front_rounds.len() {
                assert(rounds[k] == front_rounds[k]);
                assert(row_gave(front, front_rounds[k]));
                let i = choose|i: int|
                    0 <= i < front.len() && (#[trigger] front[i]).is_ok() && front[i].unwrap()@
                        == front_rounds[k];
                assert(outcomes[i] == front[i]);
            } else {
                assert(outcomes[last].is_ok());
            }
        }
    }
}

/// Where the rows come with falling identifiers, so do the rounds of the
/// refresh: each has a smaller identifier than the one before it.
pub proof fn lemma_loaded_rounds_order(outcomes: Seq<Result<Round, RowError>>)
    requires
        identifiers_fall(outcomes),
    ensures
        strictly_decreasing(loaded_rounds(outcomes)),
    decreases outcomes.len(),
{
    if outcomes.len() > 0 {
        let front = outcomes.drop_last();
        let last = outcomes.len() - 1;
        let rounds = loaded_rounds(outcomes);
        let front_rounds = loaded_rounds(front);
        assert forall|i: int, j: int|
            0 <= i < j < front.len() && (#[trigger] front[i]).is_ok() && (
            #[trigger] front[j]).is_ok() implies front[i].unwrap().round_id
            > front[j].unwrap().round_id by {
            assert(front[i] == outcomes[i]);
            assert(front[j] == outcomes[j]);
        }
        lemma_loaded_rounds_order(front);
        lemma_loaded_rounds_are_those_given(front);
        assert forall|k: int, l: int| 0 <= k < l < rounds.len() implies (#[trigger] rounds[k]).round_id
            > (#[trigger] rounds[l]).round_id by {
            assert(rounds[k] == front_rounds[k]);
            if l < front_rounds.len() {
                assert(rounds[l] == front_rounds[l]);
            } else {
                assert(outcomes[last].is_ok());
                assert(row_gave(front, front_rounds[k]));
                let i = choose|i: int|
                    0 <= i < front.len() && (#[trigger] front[i]).is_ok() && front[i].unwrap()@
                        == front_rounds[k];
                assert(outcomes[i] == front[i]);
            }
        }
    }
}

} // verus!
