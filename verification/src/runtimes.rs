//! The crash-log parser: from the text of a condensed runtime log to the
//! batches of runtime errors that it reports.

use crate::text::{file_name, file_name_of, parse_u64, parsed_u64};
use vstd::prelude::*;

verus! {

/// The shape of one block of a condensed runtime log. The count and the line
/// are taken as they are logged, each the run of characters up to the next
/// blank, which may be empty, so that a block whose count or line is no
/// number is found as a block and fails as one. The source file runs up to the last comma before
/// the line.
pub const RUNTIME_REGEX_PATTERN: &'static str =
    "The following runtime has occurred (?P<count>\\S*).*\nruntime error: (?P<exception>.+)\nproc name: (?P<proc>.+?) \\((?P<proc_path>.+?)\\)\n  source file: (?P<source_file>.+),(?P<line>\\S*)";

/// The shape of an exception text that ends in a file and a line in brackets.
pub const STACK_TRACE_REGEX_PATTERN: &'static str = ".+\\(((?P<filename>.+?):(?P<line>[0-9]+))\\)$";

/// The procedure path under which a synthesized stack-trace frame is logged.
pub const STACK_TRACE_PROC_PATH: &'static str = "/proc/_stack_trace";

/// The files that a runtime error may have come from.
#[derive(Clone, Debug, PartialEq, Eq)]
pub enum BestGuessFilenames {
    /// The log itself names the path.
    Definitely(String),
    /// The paths of the repository that share the logged file name.
    Possible(Vec<String>),
}

/// The model of a [`BestGuessFilenames`].
pub enum BestGuessFilenamesView {
    Definitely(Seq<char>),
    Possible(Seq<Seq<char>>),
}

impl View for BestGuessFilenames {
    type V = BestGuessFilenamesView;

    open spec fn view(&self) -> BestGuessFilenamesView {
        match *self {
            BestGuessFilenames::Definitely(path) => BestGuessFilenamesView::Definitely(path@),
            BestGuessFilenames::Possible(paths) => BestGuessFilenamesView::Possible(
                crate::text::texts(paths@),
            ),
        }
    }
}

/// One runtime error of a round, with the number of times it occurred.
#[derive(Clone, Debug, PartialEq, Eq)]
pub struct RuntimeBatch {
    pub count: u64,
    pub exception: String,
    pub proc_path: String,
    pub source_file: String,
    pub line: u64,
    pub best_guess_filenames: Option<BestGuessFilenames>,
}

/// The model of a [`RuntimeBatch`].
pub struct RuntimeBatchView {
    pub count: u64,
    pub exception: Seq<char>,
    pub proc_path: Seq<char>,
    pub source_file: Seq<char>,
    pub line: u64,
    pub best_guess_filenames: Option<BestGuessFilenamesView>,
}

impl View for RuntimeBatch {
    type V = RuntimeBatchView;

    open spec fn view(&self) -> RuntimeBatchView {
        RuntimeBatchView {
            count: self.count,
            exception: self.exception@,
            proc_path: self.proc_path@,
            source_file: self.source_file@,
            line: self.line,
            best_guess_filenames: match self.best_guess_filenames {
                Some(guess) => Some(guess@),
                None => None,
            },
        }
    }
}

/// The models of a run of batches, in order.
pub open spec fn batch_views(batches: Seq<RuntimeBatch>) -> Seq<RuntimeBatchView> {
    batches.map_values(|batch: RuntimeBatch| batch@)
}

/// What one match of the block pattern captured: the whole matched text and
/// each named group that took part in the match.
#[derive(Clone, Debug, PartialEq, Eq)]
pub struct BlockCapture {
    pub whole: String,
    pub count: Option<String>,
    pub exception: Option<String>,
    pub proc_path: Option<String>,
    pub source_file: Option<String>,
    pub line: Option<String>,
}

/// The model of a [`BlockCapture`].
pub struct BlockCaptureView {
    pub whole: Seq<char>,
    pub count: Option<Seq<char>>,
    pub exception: Option<Seq<char>>,
    pub proc_path: Option<Seq<char>>,
    pub source_file: Option<Seq<char>>,
    pub line: Option<Seq<char>>,
}

/// The text that an optional string holds.
pub open spec fn optional_text(text: Option<String>) -> Option<Seq<char>> {
    match text {
        Some(held) => Some(held@),
        None => None,
    }
}

impl View for BlockCapture {
    type V = BlockCaptureView;

    open spec fn view(&self) -> BlockCaptureView {
        BlockCaptureView {
            whole: self.whole@,
            count: optional_text(self.count),
            exception: optional_text(self.exception),
            proc_path: optional_text(self.proc_path),
            source_file: optional_text(self.source_file),
            line: optional_text(self.line),
        }
    }
}

/// The models of a run of captures, in order.
pub open spec fn capture_views(captures: Seq<BlockCapture>) -> Seq<BlockCaptureView> {
    captures.map_values(|capture: BlockCapture| capture@)
}

/// The field of a block that could not be read.
#[derive(Clone, Copy, Debug, PartialEq, Eq, Structural)]
pub enum FieldError {
    MissingCount,
    InvalidCount,
    MissingException,
    MissingProcPath,
    MissingSourceFile,
    MissingLine,
    InvalidLine,
}

/// Why a log could not be parsed: the field that failed and the text of the
/// block that holds it.
#[derive(Clone, Debug, PartialEq, Eq)]
pub struct ParseError {
    pub field: FieldError,
    pub block: String,
}

/// The model of a [`ParseError`].
pub struct ParseErrorView {
    pub field: FieldError,
    pub block: Seq<char>,
}

impl View for ParseError {
    type V = ParseErrorView;

    open spec fn view(&self) -> ParseErrorView {
        ParseErrorView { field: self.field, block: self.block@ }
    }
}

/// What the block pattern captures in a log: one entry for each match that
/// does not overlap an earlier one, from the start of the text to its end.
pub uninterp spec fn runtime_block_captures(text: Seq<char>) -> Seq<BlockCaptureView>;

/// What the stack-trace pattern captures in an exception text: the file and
/// the line, both as text, or nothing where the pattern does not match.
pub uninterp spec fn stack_trace_capture(exception: Seq<char>) -> Option<(Seq<char>, Seq<char>)>;

/// Compiles the block pattern with `regex::Regex::new`, runs
/// `regex::Regex::captures_iter` with it over a log and copies out, for each
/// match, the matched text and what `regex::Captures::name` gives for the
/// named groups. Nothing is proved of the matching: the contract only gives
/// its outcome a name, [`runtime_block_captures`], as a function of the text.
/// The pattern is a fixed one that compiles.
#[verifier::external_body]
fn find_runtime_blocks(text: &str) -> (captures: Vec<BlockCapture>)
    ensures
        capture_views(captures@) == runtime_block_captures(text@),
{
    let pattern = regex::Regex::new(RUNTIME_REGEX_PATTERN).unwrap();
    let mut captures = Vec::new();
    for found in pattern.captures_iter(text) {
        let group = |name: &str| found.name(name).map(|part| part.as_str().to_string());
        captures.push(BlockCapture {
            whole: found[0].to_string(),
            count: group("count"),
            exception: group("exception"),
            proc_path: group("proc_path"),
            source_file: group("source_file"),
            line: group("line"),
        });
    }
    captures
}

/// Compiles the stack-trace pattern with `regex::Regex::new`, runs
/// `regex::Regex::captures` with it over an exception text and copies out the
/// two named groups of the match, both of which take part in every match of
/// this pattern. Nothing is proved of the matching: the contract only gives
/// its outcome a name, [`stack_trace_capture`], as a function of the text.
/// The pattern is a fixed one that compiles.
#[verifier::external_body]
fn find_stack_trace(exception: &str) -> (found: Option<(String, String)>)
    ensures
        trace_view(found) == stack_trace_capture(exception@),
{
    let pattern = regex::Regex::new(STACK_TRACE_REGEX_PATTERN).unwrap();
    pattern.captures(exception).map(
        |found| (found["filename"].to_string(), found["line"].to_string()),
    )
}

/// The texts of a captured file and line.
pub open spec fn trace_view(trace: Option<(String, String)>) -> Option<(Seq<char>, Seq<char>)> {
    match trace {
        Some(pair) => Some((pair.0@, pair.1@)),
        None => None,
    }
}

/// The batch that a capture stands for, before any special case: the count
/// and the line read as numbers, the other fields taken as they are.
pub open spec fn plain_batch(capture: BlockCaptureView) -> Result<RuntimeBatchView, FieldError> {
    if capture.count.is_none() {
        Err(FieldError::MissingCount)
    } else if parsed_u64(capture.count.unwrap()).is_none() {
        Err(FieldError::InvalidCount)
    } else if capture.exception.is_none() {
        Err(FieldError::MissingException)
    } else if capture.proc_path.is_none() {
        Err(FieldError::MissingProcPath)
    } else if capture.source_file.is_none() {
        Err(FieldError::MissingSourceFile)
    } else if capture.line.is_none() {
        Err(FieldError::MissingLine)
    } else if parsed_u64(capture.line.unwrap()).is_none() {
        Err(FieldError::InvalidLine)
    } else {
        Ok(
            RuntimeBatchView {
                count: parsed_u64(capture.count.unwrap()).unwrap(),
                exception: capture.exception.unwrap(),
                proc_path: capture.proc_path.unwrap(),
                source_file: capture.source_file.unwrap(),
                line: parsed_u64(capture.line.unwrap()).unwrap(),
                best_guess_filenames: None,
            },
        )
    }
}

/// A batch after the file and line at the end of its exception text, if any,
/// have been put in place of the logged ones. Where the captured path has no
/// file name or the captured line is no number that fits, the batch stays as
/// it was.
pub open spec fn with_stack_trace(
    batch: RuntimeBatchView,
    trace: Option<(Seq<char>, Seq<char>)>,
) -> RuntimeBatchView {
    match trace {
        Some((path, line)) => {
            if file_name_of(path).is_some() && parsed_u64(line).is_some() {
                RuntimeBatchView {
                    source_file: file_name_of(path).unwrap(),
                    line: parsed_u64(line).unwrap(),
                    best_guess_filenames: Some(BestGuessFilenamesView::Definitely(path)),
                    ..batch
                }
            } else {
                batch
            }
        },
        None => batch,
    }
}

/// A batch after its special case, if it has one: a synthesized stack-trace
/// frame takes its file and line from its exception text.
pub open spec fn with_special_procs(batch: RuntimeBatchView) -> RuntimeBatchView {
    if batch.proc_path == STACK_TRACE_PROC_PATH@ {
        with_stack_trace(batch, stack_trace_capture(batch.exception))
    } else {
        batch
    }
}

/// The batch that a capture stands for.
pub open spec fn batch_of(capture: BlockCaptureView) -> Result<RuntimeBatchView, FieldError> {
    match plain_batch(capture) {
        Ok(batch) => Ok(with_special_procs(batch)),
        Err(field) => Err(field),
    }
}

/// The batches that a run of captures stands for, in order, or the first
/// capture that cannot be read, with its matched text.
pub open spec fn runtimes_of(captures: Seq<BlockCaptureView>) -> Result<
    Seq<RuntimeBatchView>,
    ParseErrorView,
>
    decreases captures.len(),
{
    if captures.len() == 0 {
        Ok(Seq::empty())
    } else {
        match runtimes_of(captures.drop_last()) {
            Err(error) => Err(error),
            Ok(front) => match batch_of(captures.last()) {
                Ok(batch) => Ok(front.push(batch)),
                Err(field) => Err(ParseErrorView { field, block: captures.last().whole }),
            },
        }
    }
}

/// The model of what parsing a log gives.
pub open spec fn outcome_view(outcome: Result<Vec<RuntimeBatch>, ParseError>) -> Result<
    Seq<RuntimeBatchView>,
    ParseErrorView,
> {
    match outcome {
        Ok(batches) => Ok(batch_views(batches@)),
        Err(error) => Err(error@),
    }
}

/// Parsing succeeds exactly when every capture can be read, and then gives
/// one batch for each capture, in the order of the captures. It fails with
/// the first capture that cannot be read.
pub proof fn lemma_runtimes_of(captures: Seq<BlockCaptureView>)
    ensures
        runtimes_of(captures).is_ok() <==> forall|i: int|
            0 <= i < captures.len() ==> (#[trigger] batch_of(captures[i])).is_ok(),
        runtimes_of(captures) matches Ok(batches) ==> batches.len() == captures.len()
            && forall|i: int|
            0 <= i < captures.len() ==> #[trigger] batch_of(captures[i]) == Ok::<
                RuntimeBatchView,
                FieldError,
            >(batches[i]),
        runtimes_of(captures) matches Err(error) ==> exists|k: int|
            0 <= k < captures.len() && (#[trigger] batch_of(captures[k])) == Err::<
                RuntimeBatchView,
                FieldError,
            >(error.field) && error.block == captures[k].whole && forall|j: int|
                0 <= j < k ==> (#[trigger] batch_of(captures[j])).is_ok(),
    decreases captures.len(),
{
    if captures.len() > 0 {
        let front = captures.drop_last();
        lemma_runtimes_of(front);
        assert forall|i: int| 0 <= i < front.len() implies front[i] == captures[i] by {}
        match runtimes_of(front) {
            Err(error) => {
                let k = choose|k: int|
                    0 <= k < front.len() && (#[trigger] batch_of(front[k])) == Err::<
                        RuntimeBatchView,
                        FieldError,
                    >(error.field) && error.block == front[k].whole && forall|j: int|
                        0 <= j < k ==> (#[trigger] batch_of(front[j])).is_ok();
                assert(front[k] == captures[k]);
                assert(batch_of(captures[k]).is_err());
                assert forall|j: int| 0 <= j < k implies (#[trigger] batch_of(
                    captures[j],
                )).is_ok() by {
                    assert(front[j] == captures[j]);
                }
            },
            Ok(batches) => {
                let last = captures.len() - 1;
                match batch_of(captures.last()) {
                    Ok(batch) => {
                        assert forall|i: int| 0 <= i < captures.len() implies (#[trigger] batch_of(
                            captures[i],
                        )).is_ok() by {
                            if i < last {
                                assert(front[i] == captures[i]);
                            }
                        }
                        let all = batches.push(batch);
                        assert forall|i: int| 0 <= i < captures.len() implies #[trigger] batch_of(
                            captures[i],
                        ) == Ok::<RuntimeBatchView, FieldError>(all[i]) by {
                            if i < last {
                                assert(front[i] == captures[i]);
                            }
                        }
                    },
                    Err(field) => {
                        assert(batch_of(captures[last]).is_err());
                        assert forall|j: int| 0 <= j < last implies (#[trigger] batch_of(
                            captures[j],
                        )).is_ok() by {
                            assert(front[j] == captures[j]);
                        }
                    },
                }
            },
        }
    }
}

impl RuntimeBatch {
    /// Handles the batches that are logged in a shape of their own.
    pub fn patch_special_procs(&mut self)
        ensures
            final(self)@ == with_special_procs(old(self)@),
    {
        let sentinel = String::from_str(STACK_TRACE_PROC_PATH);
        if self.proc_path == sentinel {
            self.patch_stack_trace();
        }
    }

    /// Looks for a file and a line at the end of the exception text and, where
    /// they are found, puts them in place of the logged ones.
    pub fn patch_stack_trace(&mut self)
        ensures
            final(self)@ == with_stack_trace(old(self)@, stack_trace_capture(old(self).exception@)),
    {
        let trace = find_stack_trace(self.exception.as_str());
        self.apply_stack_trace(trace);
    }

    /// Puts a captured file and line in place of the logged ones.
    pub fn apply_stack_trace(&mut self, trace: Option<(String, String)>)
        ensures
            final(self)@ == with_stack_trace(old(self)@, trace_view(trace)),
    {
        if let Some(pair) = trace {
            let (path, line) = pair;
            let name = file_name(path.as_str());
            let number = parse_u64(line.as_str());
            if name.is_some() && number.is_some() {
                self.source_file = name.unwrap();
                self.line = number.unwrap();
                self.best_guess_filenames = Some(BestGuessFilenames::Definitely(path));
            }
        }
    }
}

/// Reads the fields of one capture, without looking for special cases.
pub fn plain_runtime_batch(capture: &BlockCapture) -> (outcome: Result<RuntimeBatch, FieldError>)
    ensures
        match outcome {
            Ok(batch) => plain_batch(capture@) == Ok::<RuntimeBatchView, FieldError>(batch@),
            Err(field) => plain_batch(capture@) == Err::<RuntimeBatchView, FieldError>(field),
        },
{
    let count = match &capture.count {
        Some(text) => match parse_u64(text.as_str()) {
            Some(count) => count,
            None => {
                return Err(FieldError::InvalidCount);
            },
        },
        None => {
            return Err(FieldError::MissingCount);
        },
    };
    let exception = match &capture.exception {
        Some(text) => text.clone(),
        None => {
            return Err(FieldError::MissingException);
        },
    };
    let proc_path = match &capture.proc_path {
        Some(text) => text.clone(),
        None => {
            return Err(FieldError::MissingProcPath);
        },
    };
    let source_file = match &capture.source_file {
        Some(text) => text.clone(),
        None => {
            return Err(FieldError::MissingSourceFile);
        },
    };
    let line = match &capture.line {
        Some(text) => match parse_u64(text.as_str()) {
            Some(line) => line,
            None => {
                return Err(FieldError::InvalidLine);
            },
        },
        None => {
            return Err(FieldError::MissingLine);
        },
    };
    Ok(RuntimeBatch { count, exception, proc_path, source_file, line, best_guess_filenames: None })
}

/// Turns one capture into a batch.
pub fn group_to_runtime_batch(capture: &BlockCapture) -> (outcome: Result<RuntimeBatch, FieldError>)
    ensures
        match outcome {
            Ok(batch) => batch_of(capture@) == Ok::<RuntimeBatchView, FieldError>(batch@),
            Err(field) => batch_of(capture@) == Err::<RuntimeBatchView, FieldError>(field),
        },
{
    match plain_runtime_batch(capture) {
        Ok(plain) => {
            let mut batch = plain;
            batch.patch_special_procs();
            Ok(batch)
        },
        Err(field) => Err(field),
    }
}

/// Turns the captures of a log into its batches, in order. One capture that
/// cannot be read fails the whole log, with the text that it matched.
pub fn runtimes_from_captures(captures: &Vec<BlockCapture>) -> (outcome: Result<
    Vec<RuntimeBatch>,
    ParseError,
>)
    ensures
        outcome_view(outcome) == runtimes_of(capture_views(captures@)),
{
    let ghost all = capture_views(captures@);
    let mut batches: Vec<RuntimeBatch> = Vec::new();
    let mut index: usize = 0;
    assert(all.take(0) =~= Seq::<BlockCaptureView>::empty());
    assert(batch_views(batches@) =~= Seq::<RuntimeBatchView>::empty());
    while index < captures.len()
        invariant
            index <= captures.len(),
            all == capture_views(captures@),
            runtimes_of(all.take(index as int)) == Ok::<Seq<RuntimeBatchView>, ParseErrorView>(
                batch_views(batches@),
            ),
        decreases captures.len() - index,
    {
        let ghost next = all.take(index + 1);
        let ghost before = batch_views(batches@);
        proof {
            assert(next.drop_last() =~= all.take(index as int));
            assert(next.last() == captures[index as int]@);
        }
        match group_to_runtime_batch(&captures[index]) {
            Ok(batch) => {
                batches.push(batch);
                assert(batch_views(batches@) =~= before.push(batch@));
            },
            Err(field) => {
                let error = ParseError { field, block: captures[index].whole.clone() };
                proof {
                    lemma_runtimes_of_prefix(all, index + 1);
                }
                return Err(error);
            },
        }
        index += 1;
    }
    assert(all.take(index as int) =~= all);
    Ok(batches)
}

/// A failure among the first captures is the failure of the whole run.
proof fn lemma_runtimes_of_prefix(captures: Seq<BlockCaptureView>, k: int)
    requires
        0 <= k <= captures.len(),
        runtimes_of(captures.take(k)).is_err(),
    ensures
        runtimes_of(captures) == runtimes_of(captures.take(k)),
    decreases captures.len(),
{
    if k == captures.len() {
        assert(captures.take(k) =~= captures);
    } else {
        assert(captures.drop_last().take(k) =~= captures.take(k));
        lemma_runtimes_of_prefix(captures.drop_last(), k);
    }
}

/// Parses the text of a condensed runtime log.
pub fn get_runtimes_for_round(runtime_condensed_txt: &str) -> (outcome: Result<
    Vec<RuntimeBatch>,
    ParseError,
>)
    ensures
        outcome_view(outcome) == runtimes_of(runtime_block_captures(runtime_condensed_txt@)),
{
    let captures = find_runtime_blocks(runtime_condensed_txt);
    runtimes_from_captures(&captures)
}

impl ParseError {
    /// What went wrong, in words, with the text of the block.
    pub fn message(&self) -> (text: String)
        ensures
            text@ == "error while parsing "@ + self.block@,
    {
        let mut text = String::from_str("error while parsing ");
        text.append(self.block.as_str());
        text
    }
}

} // verus!
