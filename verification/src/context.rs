//! What a refresh collects once and uses for every round: the index of the
//! repository's files by their names, and the test merges that are already
//! known, by their commits.

use crate::file_cache::CacheRead;
use crate::rounds::{TestMerge, TestMergeDetails, TestMergeView};
use crate::runtimes::{
    batch_views,
    BestGuessFilenames,
    BestGuessFilenamesView,
    RuntimeBatch,
    RuntimeBatchView,
};
use crate::text::{decimal_text, file_name, file_name_of, push_decimal, texts};
use crate::text_map::TextMap;
use vstd::prelude::*;

verus! {

/// The address that lists every path of the repository.
pub const GIT_TREE_URL: &'static str =
    "https://api.github.com/repos/tgstation/tgstation/git/trees/master?recursive=1";

/// The file that keeps the index of the repository between refreshes.
pub const GIT_TREE_CACHE_FILE: &'static str = "cache/git_tree.json";

/// The directory that keeps the test merges between refreshes.
pub const TEST_MERGES_CACHE_DIR: &'static str = "cache/test_merges";

/// The paths of a listing whose file name is `name`, in the order of the
/// listing.
pub open spec fn paths_named(paths: Seq<Seq<char>>, name: Seq<char>) -> Seq<Seq<char>> {
    paths.filter(|path: Seq<char>| file_name_of(path) == Some(name))
}

/// Whether some path of a listing has the file name `name`.
pub open spec fn name_listed(paths: Seq<Seq<char>>, name: Seq<char>) -> bool {
    exists|i: int| 0 <= i < paths.len() && file_name_of(#[trigger] paths[i]) == Some(name)
}

/// A listing grouped by file name: each name that occurs stands for the paths
/// that have it.
pub open spec fn grouped_by_file_name(paths: Seq<Seq<char>>) -> Map<Seq<char>, Seq<Seq<char>>> {
    Map::new(|name: Seq<char>| name_listed(paths, name), |name: Seq<char>| paths_named(paths, name))
}

/// The model of an index of paths by file name.
pub open spec fn tree_view(index: TextMap<Vec<String>>) -> Map<Seq<char>, Seq<Seq<char>>> {
    index@.map_values(|paths: Vec<String>| texts(paths@))
}

/// What one more path adds to the paths of a name.
proof fn lemma_paths_named_push(paths: Seq<Seq<char>>, path: Seq<char>, name: Seq<char>)
    ensures
        paths_named(paths.push(path), name) == if file_name_of(path) == Some(name) {
            paths_named(paths, name).push(path)
        } else {
            paths_named(paths, name)
        },
{
    reveal(Seq::filter);
    assert(paths.push(path).drop_last() =~= paths);
}

/// A name that no path of a listing has stands for no path.
proof fn lemma_paths_named_unlisted(paths: Seq<Seq<char>>, name: Seq<char>)
    requires
        !name_listed(paths, name),
    ensures
        paths_named(paths, name) == Seq::<Seq<char>>::empty(),
    decreases paths.len(),
{
    reveal(Seq::filter);
    if paths.len() > 0 {
        let front = paths.drop_last();
        assert(file_name_of(paths[paths.len() - 1]) != Some(name));
        assert forall|i: int| 0 <= i < front.len() implies file_name_of(#[trigger] front[i])
            != Some(name) by {
            assert(front[i] == paths[i]);
        }
        lemma_paths_named_unlisted(front, name);
    }
}

/// Groups a listing of paths by file name. A path without a file name is left
/// out.
pub fn group_by_file_name(paths: &Vec<String>) -> (index: TextMap<Vec<String>>)
    ensures
        tree_view(index) == grouped_by_file_name(texts(paths@)),
{
    let ghost all = texts(paths@);
    let mut index: TextMap<Vec<String>> = TextMap::new();
    let mut taken: usize = 0;
    proof {
        assert(all.take(0) =~= Seq::<Seq<char>>::empty());
        assert(tree_view(index) =~= grouped_by_file_name(all.take(0)));
    }
    while taken < paths.len()
        invariant
            taken <= paths.len(),
            all == texts(paths@),
            tree_view(index) == grouped_by_file_name(all.take(taken as int)),
        decreases paths.len() - taken,
    {
        let ghost seen = all.take(taken as int);
        let ghost next = all.take(taken + 1);
        let ghost path = paths[taken as int]@;
        let ghost before = tree_view(index);
        proof {
            assert(next =~= seen.push(path));
            assert forall|name: Seq<char>| name_listed(next, name) <==> (name_listed(seen, name)
                || file_name_of(path) == Some(name)) by {
                if name_listed(next, name) {
                    let i = choose|i: int|
                        0 <= i < next.len() && file_name_of(#[trigger] next[i]) == Some(name);
                    if i < seen.len() {
                        assert(seen[i] == next[i]);
                    }
                }
                if name_listed(seen, name) {
                    let i = choose|i: int|
                        0 <= i < seen.len() && file_name_of(#[trigger] seen[i]) == Some(name);
                    assert(next[i] == seen[i]);
                }
                if file_name_of(path) == Some(name) {
                    assert(next[taken as int] == path);
                }
            }
            assert forall|name: Seq<char>| true implies #[trigger] paths_named(next, name) == (
            if file_name_of(path) == Some(name) {
                paths_named(seen, name).push(path)
            } else {
                paths_named(seen, name)
            }) by {
                lemma_paths_named_push(seen, path, name);
            }
        }
        match file_name(paths[taken].as_str()) {
            Some(name) => {
                let ghost old_index = index@;
                let mut named: Vec<String> = match index.remove(&name) {
                    Some(held) => held,
                    None => Vec::new(),
                };
                proof {
                    if old_index.contains_key(name@) {
                        assert(before.contains_key(name@));
                        assert(before[name@] == texts(old_index[name@]@));
                        assert(name_listed(seen, name@));
                    } else {
                        assert(!before.contains_key(name@));
                        assert(!name_listed(seen, name@));
                        lemma_paths_named_unlisted(seen, name@);
                    }
                    assert(texts(named@) =~= paths_named(seen, name@));
                }
                let ghost held = texts(named@);
                named.push(paths[taken].clone());
                assert(texts(named@) =~= held.push(path));
                index.insert(name, named);
                proof {
                    let after = tree_view(index);
                    let wanted = grouped_by_file_name(next);
                    assert forall|key: Seq<char>| after.contains_key(key) <==> wanted.contains_key(
                        key,
                    ) by {
                        if key != name@ {
                            assert(index@.contains_key(key) <==> old_index.contains_key(key));
                            assert(before.contains_key(key) <==> old_index.contains_key(key));
                        }
                    }
                    assert forall|key: Seq<char>| after.contains_key(key) implies after[key]
                        == wanted[key] by {
                        if key != name@ {
                            assert(index@[key] == old_index[key]);
                            assert(before.contains_key(key));
                            assert(before[key] == texts(old_index[key]@));
                            assert(paths_named(next, key) == paths_named(seen, key));
                        } else {
                            assert(paths_named(next, key) == paths_named(seen, key).push(path));
                        }
                    }
                    assert(after =~= wanted);
                }
            },
            None => {
                proof {
                    let wanted = grouped_by_file_name(next);
                    assert forall|key: Seq<char>| before.contains_key(key) implies before[key]
                        == wanted[key] by {
                        assert(paths_named(next, key) == paths_named(seen, key));
                    }
                    assert(before =~= wanted);
                }
            },
        }
        taken += 1;
    }
    assert(all.take(taken as int) =~= all);
    index
}

/// The index that a refresh starts from when the repository could be
/// listed: the listing grouped by file name. It is the index to keep on disk.
/// Without a listing there is none, and the index kept last is the next to
/// try.
pub fn get_git_tree(listing: Option<Vec<String>>) -> (index: Option<TextMap<Vec<String>>>)
    ensures
        match listing {
            Some(paths) => index.is_some() && tree_view(index.unwrap()) == grouped_by_file_name(
                texts(paths@),
            ),
            None => index.is_none(),
        },
{
    match listing {
        Some(paths) => Some(group_by_file_name(&paths)),
        None => None,
    }
}

/// The index that a refresh falls back to when the repository could not be
/// listed: the one kept last, or an empty one where none can be had.
pub fn cached_git_tree(kept: Option<TextMap<Vec<String>>>) -> (index: TextMap<Vec<String>>)
    ensures
        match kept {
            Some(held) => index == held,
            None => tree_view(index) == Map::<Seq<char>, Seq<Seq<char>>>::empty(),
        },
{
    match kept {
        Some(held) => held,
        None => {
            let index: TextMap<Vec<String>> = TextMap::new();
            assert(tree_view(index) =~= Map::<Seq<char>, Seq<Seq<char>>>::empty());
            index
        },
    }
}

/// The model of a cache of test merges by commit.
pub open spec fn merge_cache_view(cache: TextMap<TestMerge>) -> Map<Seq<char>, TestMergeView> {
    cache@.map_values(|merge: TestMerge| merge@)
}

/// The test merges of a list by their commits. Where two share a commit, the
/// later one stands.
pub open spec fn merges_by_commit(merges: Seq<TestMergeView>) -> Map<Seq<char>, TestMergeView>
    decreases merges.len(),
{
    if merges.len() == 0 {
        Map::empty()
    } else {
        merges_by_commit(merges.drop_last()).insert(merges.last().details.commit, merges.last())
    }
}

/// The test merges that a run of cache files holds, in order: a file that is
/// missing or holds no test merge gives none.
pub open spec fn readable_merges(reads: Seq<CacheRead<TestMerge>>) -> Seq<TestMergeView>
    decreases reads.len(),
{
    if reads.len() == 0 {
        Seq::empty()
    } else {
        let front = readable_merges(reads.drop_last());
        match reads.last() {
            CacheRead::Value(merge) => front.push(merge@),
            _ => front,
        }
    }
}

/// The address that lists the files which a merged change touches.
pub open spec fn files_url(number: u64) -> Seq<char> {
    "https://api.github.com/repos/tgstation/tgstation/pulls/"@ + decimal_text(number as nat)
        + "/files"@
}

/// What came of asking for the files that a merged change touches.
#[derive(Clone, Debug, PartialEq, Eq)]
pub enum FilesResponse {
    /// The files, as listed.
    Files(Vec<String>),
    /// An answer that could not be read.
    Undecodable,
    /// No answer, or a refusal.
    Failed,
    /// No answer in time.
    TimedOut,
}

/// The files to record for a response: the listed ones, and nothing known
/// where the lookup failed, whether no answer came, none came in time, or the
/// answer could not be read.
pub open spec fn files_changed_of(response: FilesResponse) -> Option<Seq<Seq<char>>> {
    match response {
        FilesResponse::Files(files) => Some(texts(files@)),
        FilesResponse::Undecodable => None,
        FilesResponse::Failed => None,
        FilesResponse::TimedOut => None,
    }
}

/// What to do for the details of a test merge.
#[derive(Clone, Debug, PartialEq, Eq)]
pub enum MergeStep {
    /// The test merge is known.
    Cached(TestMerge),
    /// The test merge is not known: its files are to be asked for at this
    /// address.
    Fetch(String),
}

/// What a runtime batch is after the lookup of its file name in the index: a
/// batch whose path is certain stays as it is, one whose file name the index
/// has gets the paths of that name, and any other stays as it is.
pub open spec fn with_best_guess(
    batch: RuntimeBatchView,
    tree: Map<Seq<char>, Seq<Seq<char>>>,
) -> RuntimeBatchView {
    if batch.best_guess_filenames matches Some(BestGuessFilenamesView::Definitely(_)) {
        batch
    } else if tree.contains_key(batch.source_file) {
        RuntimeBatchView {
            best_guess_filenames: Some(BestGuessFilenamesView::Possible(tree[batch.source_file])),
            ..batch
        }
    } else {
        batch
    }
}

/// The batches of a log after the lookup of their file names.
pub open spec fn with_best_guesses(
    batches: Seq<RuntimeBatchView>,
    tree: Map<Seq<char>, Seq<Seq<char>>>,
) -> Seq<RuntimeBatchView> {
    batches.map_values(|batch: RuntimeBatchView| with_best_guess(batch, tree))
}

/// What one refresh knows beside the rounds themselves.
#[derive(Debug)]
pub struct RoundCollectionContext {
    git_tree: TextMap<Vec<String>>,
    test_merges: TextMap<TestMerge>,
}

impl RoundCollectionContext {
    /// The index of the repository's paths by file name.
    pub closed spec fn git_tree(&self) -> Map<Seq<char>, Seq<Seq<char>>> {
        tree_view(self.git_tree)
    }

    /// The test merges that are known, by commit.
    pub closed spec fn test_merges(&self) -> Map<Seq<char>, TestMergeView> {
        merge_cache_view(self.test_merges)
    }

    /// A context that starts from what the files of the test-merge cache
    /// hold and from an index of the repository. A file that holds no test
    /// merge is passed over.
    pub fn reload(kept: &Vec<CacheRead<TestMerge>>, git_tree: TextMap<Vec<String>>) -> (context:
        Self)
        ensures
            context.git_tree() == tree_view(git_tree),
            context.test_merges() == merges_by_commit(readable_merges(kept@)),
    {
        let mut test_merges: TextMap<TestMerge> = TextMap::new();
        let mut index: usize = 0;
        proof {
            assert(kept@.take(0) =~= Seq::<CacheRead<TestMerge>>::empty());
            assert(merge_cache_view(test_merges) =~= merges_by_commit(
                readable_merges(kept@.take(0)),
            ));
        }
        while index < kept.len()
            invariant
                index <= kept.len(),
                merge_cache_view(test_merges) == merges_by_commit(
                    readable_merges(kept@.take(index as int)),
                ),
            decreases kept.len() - index,
        {
            let ghost before = merge_cache_view(test_merges);
            let ghost next = kept@.take(index + 1);
            proof {
                assert(next.drop_last() =~= kept@.take(index as int));
                assert(next.last() == kept[index as int]);
            }
            match &kept[index] {
                CacheRead::Value(held) => {
                    let merge = held.clone();
                    let commit = merge.details.commit.clone();
                    test_merges.insert(commit, merge);
                    proof {
                        let merges = readable_merges(next);
                        assert(merges.drop_last() =~= readable_merges(kept@.take(index as int)));
                        assert(merge_cache_view(test_merges) =~= before.insert(commit@, merge@));
                    }
                },
                _ => {},
            }
            index += 1;
        }
        assert(kept@.take(index as int) =~= kept@);
        RoundCollectionContext { git_tree, test_merges }
    }

    /// Looks up the test merge of `details` by its commit: the known one, or
    /// the address to ask for its files.
    pub fn test_merge_from_details(&self, details: &TestMergeDetails) -> (step: MergeStep)
        ensures
            match step {
                MergeStep::Cached(merge) => self.test_merges().contains_key(details.commit@)
                    && merge@ == self.test_merges()[details.commit@],
                MergeStep::Fetch(url) => !self.test_merges().contains_key(details.commit@) && url@
                    == files_url(details.number),
            },
    {
        match self.test_merges.get(&details.commit) {
            Some(merge) => MergeStep::Cached(merge.clone()),
            None => {
                let mut url = String::from_str(
                    "https://api.github.com/repos/tgstation/tgstation/pulls/",
                );
                push_decimal(&mut url, details.number);
                url.append("/files");
                MergeStep::Fetch(url)
            },
        }
    }

    /// Makes the test merge of `details` from the answer to the question for
    /// its files, and keeps it under its commit.
    pub fn record_test_merge(&mut self, details: TestMergeDetails, response: FilesResponse) -> (merge:
        TestMerge)
        ensures
            merge@ == (TestMergeView {
                details: details@,
                files_changed: files_changed_of(response),
            }),
            final(self).test_merges() == old(self).test_merges().insert(details.commit@, merge@),
            final(self).git_tree() == old(self).git_tree(),
    {
        let files_changed = match response {
            FilesResponse::Files(files) => Some(files),
            FilesResponse::Undecodable => None,
            FilesResponse::Failed => None,
            FilesResponse::TimedOut => None,
        };
        let merge = TestMerge { details, files_changed };
        let kept = merge.clone();
        let commit = kept.details.commit.clone();
        let ghost before = merge_cache_view(self.test_merges);
        self.test_merges.insert(commit, kept);
        assert(merge_cache_view(self.test_merges) =~= before.insert(commit@, kept@));
        merge
    }

    /// Looks up the file name of each batch in the index of the repository.
    pub fn best_guess_filenames(&self, runtimes: Vec<RuntimeBatch>) -> (guessed: Vec<RuntimeBatch>)
        ensures
            batch_views(guessed@) == with_best_guesses(batch_views(runtimes@), self.git_tree()),
    {
        let ghost all = batch_views(runtimes@);
        let mut guessed = runtimes;
        let mut index: usize = 0;
        while index < guessed.len()
            invariant
                index <= guessed.len(),
                guessed.len() == all.len(),
                forall|i: int|
                    0 <= i < index ==> (#[trigger] guessed[i])@ == with_best_guess(
                        all[i],
                        self.git_tree(),
                    ),
                forall|i: int| index <= i < guessed.len() ==> (#[trigger] guessed[i])@ == all[i],
            decreases guessed.len() - index,
        {
            let certain = match &guessed[index].best_guess_filenames {
                Some(BestGuessFilenames::Definitely(_)) => true,
                _ => false,
            };
            if !certain {
                match self.git_tree.get(&guessed[index].source_file) {
                    Some(paths) => {
                        let possible = crate::rounds::copy_texts(paths);
                        guessed[index].best_guess_filenames = Some(
                            BestGuessFilenames::Possible(possible),
                        );
                    },
                    None => {},
                }
            }
            index += 1;
        }
        assert(batch_views(guessed@) =~= with_best_guesses(all, self.git_tree()));
        guessed
    }
}

/// Once a test merge has been recorded it is known under its commit: every
/// later lookup with that commit finds this very test merge and asks for no
/// fetch, whatever was known before.
pub proof fn lemma_recorded_merge_is_known(known: Map<Seq<char>, TestMergeView>, merge: TestMergeView)
    ensures
        known.insert(merge.details.commit, merge).contains_key(merge.details.commit),
        known.insert(merge.details.commit, merge)[merge.details.commit] == merge,
        forall|commit: Seq<char>|
            commit != merge.details.commit && known.contains_key(commit) ==> known.insert(
                merge.details.commit,
                merge,
            ).contains_key(commit) && #[trigger] known.insert(merge.details.commit, merge)[commit]
                == known[commit],
{
}

} // verus!
