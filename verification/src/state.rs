//! The shared cache of rounds with its refresh protocol, and the janitor that
//! clears the disk of what no round of the cache refers to.

use crate::file_cache::{cache_file_path, cache_path, round_cache_key, round_key};
use crate::rounds::{merge_cache_path, round_views, Round, RoundId, RoundView};
use crate::text::{signed_decimal_text, texts};
use crate::text_map::TextMap;
use vstd::prelude::*;

verus! {

/// The model of the shared cache: the rounds of the last refresh that came
/// to an end with a list, and whether a refresh is under way.
pub struct CacheModel {
    pub rounds: Option<Seq<RoundView>>,
    pub refreshing: bool,
}

/// What a reader that is willing to wait is told.
#[derive(Clone, Debug, PartialEq, Eq)]
pub enum BlockingRead<T> {
    /// The rounds of the last refresh.
    Ready(T),
    /// No refresh is under way and none has come to an end with a list.
    NotReady,
    /// A refresh is under way: the reader is to ask again when it has ended.
    Wait,
}

/// The cache before the first refresh.
pub open spec fn empty_cache() -> CacheModel {
    CacheModel { rounds: None, refreshing: false }
}

/// The cache once a refresh has begun.
pub open spec fn refresh_begun(cache: CacheModel) -> CacheModel {
    CacheModel { refreshing: true, ..cache }
}

/// The cache once a refresh has ended: with the new list in place of the
/// old one, or as it was where the refresh gave no list.
pub open spec fn refresh_ended(cache: CacheModel, loaded: Option<Seq<RoundView>>) -> CacheModel {
    CacheModel {
        rounds: match loaded {
            Some(rounds) => Some(rounds),
            None => cache.rounds,
        },
        refreshing: false,
    }
}

/// What a reader that does not wait is given: the rounds, unless a refresh
/// is under way or none has come to an end with a list.
pub open spec fn read_now(cache: CacheModel) -> Option<Seq<RoundView>> {
    if cache.refreshing {
        None
    } else {
        cache.rounds
    }
}

/// What a reader that is willing to wait is told.
pub open spec fn read_waiting(cache: CacheModel) -> BlockingRead<Seq<RoundView>> {
    if cache.refreshing {
        BlockingRead::Wait
    } else {
        match cache.rounds {
            Some(rounds) => BlockingRead::Ready(rounds),
            None => BlockingRead::NotReady,
        }
    }
}

/// The shared cache of rounds.
#[derive(Debug)]
pub struct AppState {
    rounds: Option<Vec<Round>>,
    refreshing: bool,
}

impl View for AppState {
    type V = CacheModel;

    closed spec fn view(&self) -> CacheModel {
        CacheModel {
            rounds: match self.rounds {
                Some(rounds) => Some(round_views(rounds@)),
                None => None,
            },
            refreshing: self.refreshing,
        }
    }
}

impl AppState {
    /// A cache without rounds, before the first refresh.
    pub fn new() -> (state: Self)
        ensures
            state@ == empty_cache(),
    {
        AppState { rounds: None, refreshing: false }
    }

    /// The rounds, for a reader that does not wait.
    pub fn try_rounds(&self) -> (rounds: Option<&Vec<Round>>)
        ensures
            match rounds {
                Some(list) => read_now(self@) == Some(round_views(list@)),
                None => read_now(self@).is_none(),
            },
    {
        if self.refreshing {
            None
        } else {
            self.rounds.as_ref()
        }
    }

    /// The rounds, for a reader that is willing to wait.
    pub fn rounds(&self) -> (read: BlockingRead<&Vec<Round>>)
        ensures
            match read {
                BlockingRead::Ready(list) => read_waiting(self@) == BlockingRead::Ready(
                    round_views(list@),
                ),
                BlockingRead::NotReady => read_waiting(self@) == BlockingRead::<
                    Seq<RoundView>,
                >::NotReady,
                BlockingRead::Wait => read_waiting(self@) == BlockingRead::<Seq<RoundView>>::Wait,
            },
    {
        if self.refreshing {
            BlockingRead::Wait
        } else {
            match &self.rounds {
                Some(list) => BlockingRead::Ready(list),
                None => BlockingRead::NotReady,
            }
        }
    }

    /// Begins a refresh, unless one is under way. Tells whether it began.
    pub fn begin_refresh(&mut self) -> (begun: bool)
        ensures
            begun == !old(self)@.refreshing,
            final(self)@ == refresh_begun(old(self)@),
    {
        let begun = !self.refreshing;
        self.refreshing = true;
        begun
    }

    /// Ends a refresh: with the rounds that it loaded, which take the place
    /// of the old ones, or without any, which leaves the old ones in place.
    pub fn save_new_rounds(&mut self, loaded: Option<Vec<Round>>)
        ensures
            final(self)@ == refresh_ended(
                old(self)@,
                match loaded {
                    Some(rounds) => Some(round_views(rounds@)),
                    None => None,
                },
            ),
    {
        match loaded {
            Some(rounds) => {
                self.rounds = Some(rounds);
            },
            None => {},
        }
        self.refreshing = false;
    }
}

/// No reader is given rounds before a refresh has ended with a list: not of
/// a new cache, not while its first refresh is under way, and not after a
/// refresh that gave none.
pub proof fn lemma_not_ready_before_first_refresh()
    ensures
        read_now(empty_cache()).is_none(),
        read_now(refresh_begun(empty_cache())).is_none(),
        read_now(refresh_ended(refresh_begun(empty_cache()), None)).is_none(),
        read_waiting(empty_cache()) == BlockingRead::<Seq<RoundView>>::NotReady,
{
}

/// After a refresh has ended with a list, both readers are given that list.
pub proof fn lemma_read_after_refresh(cache: CacheModel, loaded: Seq<RoundView>)
    ensures
        read_now(refresh_ended(cache, Some(loaded))) == Some(loaded),
        read_waiting(refresh_ended(cache, Some(loaded))) == BlockingRead::Ready(loaded),
{
}

/// While a refresh is under way no reader is given a list: the one that does
/// not wait is told that none is ready, the one that waits is told to wait.
pub proof fn lemma_no_read_during_refresh(cache: CacheModel)
    ensures
        read_now(refresh_begun(cache)).is_none(),
        read_waiting(refresh_begun(cache)) == BlockingRead::<Seq<RoundView>>::Wait,
{
}

/// A cache that holds rounds holds rounds ever after: neither the beginning
/// of a refresh nor its end, with a list or without, takes them away, and a
/// refresh that gave no list leaves the list as it was.
pub proof fn lemma_rounds_stay(cache: CacheModel, loaded: Option<Seq<RoundView>>)
    requires
        cache.rounds.is_some(),
    ensures
        refresh_begun(cache).rounds == cache.rounds,
        refresh_ended(cache, loaded).rounds.is_some(),
        refresh_ended(cache, None).rounds == cache.rounds,
{
}

/// Whether `path` is the cache file of one of the rounds.
pub open spec fn keeps_round(rounds: Seq<RoundView>, path: Seq<char>) -> bool {
    exists|i: int|
        0 <= i < rounds.len() && cache_path(round_key((#[trigger] rounds[i]).round_id)) == path
}

/// Whether `path` is the cache file of one of the first `count` test merges
/// of a round.
pub open spec fn keeps_merge_of(round: RoundView, count: int, path: Seq<char>) -> bool {
    exists|j: int|
        0 <= j < count && j < round.test_merges.len() && merge_cache_path(
            (#[trigger] round.test_merges[j]).details.number,
            round.test_merges[j].details.commit,
        ) == path
}

/// Whether `path` is the cache file of a test merge of one of the rounds.
pub open spec fn keeps_merge(rounds: Seq<RoundView>, path: Seq<char>) -> bool {
    exists|i: int|
        0 <= i < rounds.len() && keeps_merge_of(
            #[trigger] rounds[i],
            rounds[i].test_merges.len() as int,
            path,
        )
}

/// Whether the rounds refer to the cache file `path`: it keeps one of them,
/// or a test merge of one of them.
pub open spec fn is_live(rounds: Seq<RoundView>, path: Seq<char>) -> bool {
    keeps_round(rounds, path) || keeps_merge(rounds, path)
}

/// The files among `found` that the rounds do not refer to, in the order of
/// `found`.
pub open spec fn stale_files(rounds: Seq<RoundView>, found: Seq<Seq<char>>) -> Seq<Seq<char>> {
    found.filter(|path: Seq<char>| !is_live(rounds, path))
}

/// The cache files that the rounds refer to.
pub fn used_cache_files(rounds: &Vec<Round>) -> (used: TextMap<()>)
    ensures
        forall|path: Seq<char>| used@.contains_key(path) <==> is_live(round_views(rounds@), path),
{
    let ghost all = round_views(rounds@);
    let mut used: TextMap<()> = TextMap::new();
    let mut index: usize = 0;
    while index < rounds.len()
        invariant
            index <= rounds.len(),
            all == round_views(rounds@),
            forall|path: Seq<char>| #[trigger]
                used@.contains_key(path) <==> is_live(all.take(index as int), path),
        decreases rounds.len() - index,
    {
        let ghost seen = all.take(index as int);
        let ghost next = all.take(index + 1);
        let ghost round = all[index as int];
        let round_path = cache_file_path(round_cache_key(rounds[index].round_id).as_str());
        let ghost round_text = round_path@;
        used.insert(round_path, ());
        let merges = &rounds[index].test_merges;
        let mut place: usize = 0;
        assert(merges.len() == round.test_merges.len());
        assert forall|path: Seq<char>| #[trigger]
            used@.contains_key(path) <==> (is_live(seen, path) || path == round_text
                || keeps_merge_of(round, 0, path)) by {}
        while place < merges.len()
            invariant
                place <= merges.len(),
                index < rounds.len(),
                all == round_views(rounds@),
                round == all[index as int],
                merges == &rounds[index as int].test_merges,
                merges.len() == round.test_merges.len(),
                seen == all.take(index as int),
                round_text == cache_path(round_key(round.round_id)),
                forall|path: Seq<char>| #[trigger]
                    used@.contains_key(path) <==> (is_live(seen, path) || path == round_text
                        || keeps_merge_of(round, place as int, path)),
            decreases merges.len() - place,
        {
            let merge_path = merges[place].cache_file_path();
            let ghost merge_text = merge_path@;
            let ghost used_before = used@;
            proof {
                assert(round.test_merges[place as int] == merges[place as int]@);
                assert forall|path: Seq<char>| #[trigger]
                    keeps_merge_of(round, place + 1, path) <==> (keeps_merge_of(
                        round,
                        place as int,
                        path,
                    ) || path == merge_text) by {
                    if keeps_merge_of(round, place + 1, path) {
                        let j = choose|j: int|
                            0 <= j < place + 1 && j < round.test_merges.len() && merge_cache_path(
                                (#[trigger] round.test_merges[j]).details.number,
                                round.test_merges[j].details.commit,
                            ) == path;
                        if j < place {
                            assert(keeps_merge_of(round, place as int, path));
                        }
                    }
                    if keeps_merge_of(round, place as int, path) {
                        let j = choose|j: int|
                            0 <= j < place && j < round.test_merges.len() && merge_cache_path(
                                (#[trigger] round.test_merges[j]).details.number,
                                round.test_merges[j].details.commit,
                            ) == path;
                    }
                    if path == merge_text {
                        assert(round.test_merges[place as int].details.number
                            == merges[place as int].details.number);
                    }
                }
            }
            used.insert(merge_path, ());
            assert forall|path: Seq<char>| #[trigger]
                used@.contains_key(path) <==> (is_live(seen, path) || path == round_text
                    || keeps_merge_of(round, place + 1, path)) by {
                assert(used@.contains_key(path) <==> (used_before.contains_key(path) || path
                    == merge_text));
                assert(keeps_merge_of(round, place + 1, path) <==> (keeps_merge_of(
                    round,
                    place as int,
                    path,
                ) || path == merge_text));
            }
            place += 1;
        }
        proof {
            assert(next =~= seen.push(round));
            assert forall|path: Seq<char>| #[trigger]
                used@.contains_key(path) <==> is_live(next, path) by {
                lemma_is_live_push(seen, round, path);
                assert(keeps_merge_of(round, place as int, path) <==> keeps_merge_of(
                    round,
                    round.test_merges.len() as int,
                    path,
                ));
            }
        }
        index += 1;
    }
    assert(all.take(index as int) =~= all);
    used
}

/// What one more round adds to the files that the rounds refer to.
proof fn lemma_is_live_push(rounds: Seq<RoundView>, round: RoundView, path: Seq<char>)
    ensures
        is_live(rounds.push(round), path) <==> (is_live(rounds, path) || path == cache_path(
            round_key(round.round_id),
        ) || keeps_merge_of(round, round.test_merges.len() as int, path)),
{
    let more = rounds.push(round);
    let last = rounds.len() as int;
    assert(more[last] == round);
    if keeps_round(more, path) {
        let i = choose|i: int|
            0 <= i < more.len() && cache_path(round_key((#[trigger] more[i]).round_id)) == path;
        if i < last {
            assert(rounds[i] == more[i]);
        }
    }
    if keeps_merge(more, path) {
        let i = choose|i: int|
            0 <= i < more.len() && keeps_merge_of(
                #[trigger] more[i],
                more[i].test_merges.len() as int,
                path,
            );
        if i < last {
            assert(rounds[i] == more[i]);
        }
    }
    if keeps_round(rounds, path) {
        let i = choose|i: int|
            0 <= i < rounds.len() && cache_path(round_key((#[trigger] rounds[i]).round_id)) == path;
        assert(more[i] == rounds[i]);
    }
    if keeps_merge(rounds, path) {
        let i = choose|i: int|
            0 <= i < rounds.len() && keeps_merge_of(
                #[trigger] rounds[i],
                rounds[i].test_merges.len() as int,
                path,
            );
        assert(more[i] == rounds[i]);
    }
}

/// What one more file adds to the stale ones.
proof fn lemma_stale_files_push(rounds: Seq<RoundView>, found: Seq<Seq<char>>, path: Seq<char>)
    ensures
        stale_files(rounds, found.push(path)) == if is_live(rounds, path) {
            stale_files(rounds, found)
        } else {
            stale_files(rounds, found).push(path)
        },
{
    reveal(Seq::filter);
    assert(found.push(path).drop_last() =~= found);
}

/// Picks the files to delete after a refresh: those among the files found in
/// the cache directories that the rounds of the refresh do not refer to.
pub fn trash_old_cache(rounds: &Vec<Round>, found: &Vec<String>) -> (stale: Vec<String>)
    ensures
        texts(stale@) == stale_files(round_views(rounds@), texts(found@)),
{
    let used = used_cache_files(rounds);
    let ghost live = round_views(rounds@);
    let ghost all = texts(found@);
    let mut stale: Vec<String> = Vec::new();
    let mut index: usize = 0;
    proof {
        assert(all.take(0) =~= Seq::<Seq<char>>::empty());
        assert(texts(stale@) =~= Seq::<Seq<char>>::empty());
        reveal(Seq::filter);
    }
    while index < found.len()
        invariant
            index <= found.len(),
            all == texts(found@),
            live == round_views(rounds@),
            forall|path: Seq<char>| #[trigger] used@.contains_key(path) <==> is_live(live, path),
            texts(stale@) == stale_files(live, all.take(index as int)),
        decreases found.len() - index,
    {
        let ghost before = texts(stale@);
        proof {
            lemma_stale_files_push(live, all.take(index as int), found[index as int]@);
            assert(all.take(index + 1) =~= all.take(index as int).push(found[index as int]@));
        }
        if !used.contains_key(&found[index]) {
            stale.push(found[index].clone());
            assert(texts(stale@) =~= before.push(found[index as int]@));
        }
        index += 1;
    }
    assert(all.take(index as int) =~= all);
    stale
}

/// The cache file of a round is the cache file of no other round and of no
/// test merge: the rounds refer to it exactly when one of them has its
/// identifier.
pub proof fn lemma_round_file_is_live(rounds: Seq<RoundView>, round_id: RoundId)
    ensures
        is_live(rounds, cache_path(round_key(round_id))) <==> exists|i: int|
            0 <= i < rounds.len() && (#[trigger] rounds[i]).round_id == round_id,
{
    let path = cache_path(round_key(round_id));
    reveal_strlit("cache");
    reveal_strlit("/");
    reveal_strlit("rounds/");
    reveal_strlit("cache/test_merges/");
    assert(path[6] == 'r');
    if keeps_merge(rounds, path) {
        let i = choose|i: int|
            0 <= i < rounds.len() && keeps_merge_of(
                #[trigger] rounds[i],
                rounds[i].test_merges.len() as int,
                path,
            );
        let round = rounds[i];
        let j = choose|j: int|
            0 <= j < round.test_merges.len() && j < round.test_merges.len() && merge_cache_path(
                (#[trigger] round.test_merges[j]).details.number,
                round.test_merges[j].details.commit,
            ) == path;
        let other = merge_cache_path(
            round.test_merges[j].details.number,
            round.test_merges[j].details.commit,
        );
        assert(other[6] == 't');
        assert(false);
    }
    if keeps_round(rounds, path) {
        let i = choose|i: int|
            0 <= i < rounds.len() && cache_path(round_key((#[trigger] rounds[i]).round_id)) == path;
        let other = rounds[i].round_id;
        assert("cache"@ + "/"@ + "rounds/"@ + signed_decimal_text(other as int) + ".json"@
            =~= cache_path(round_key(other)));
        assert("cache"@ + "/"@ + "rounds/"@ + signed_decimal_text(round_id as int) + ".json"@
            =~= path);
        crate::text::lemma_same_middle(
            "cache"@ + "/"@ + "rounds/"@,
            signed_decimal_text(other as int),
            signed_decimal_text(round_id as int),
            ".json"@,
        );
        crate::text::lemma_signed_decimal_text_injective(other as int, round_id as int);
        assert(rounds[i].round_id == round_id);
    }
    if exists|i: int| 0 <= i < rounds.len() && (#[trigger] rounds[i]).round_id == round_id {
        let i = choose|i: int| 0 <= i < rounds.len() && (#[trigger] rounds[i]).round_id == round_id;
        assert(cache_path(round_key(rounds[i].round_id)) == path);
        assert(keeps_round(rounds, path));
    }
}

/// The janitor deletes what the rounds do not refer to and nothing else: no
/// file that it picks is referred to, and each file found that is not
/// referred to is picked.
pub proof fn lemma_stale_files(rounds: Seq<RoundView>, found: Seq<Seq<char>>)
    ensures
        forall|k: int|
            0 <= k < stale_files(rounds, found).len() ==> !is_live(
                rounds,
                #[trigger] stale_files(rounds, found)[k],
            ) && found.contains(stale_files(rounds, found)[k]),
        forall|i: int|
            0 <= i < found.len() && !is_live(rounds, #[trigger] found[i]) ==> stale_files(
                rounds,
                found,
            ).contains(found[i]),
    decreases found.len(),
{
    if found.len() > 0 {
        let front = found.drop_last();
        let last = found.last();
        let stale = stale_files(rounds, found);
        let front_stale = stale_files(rounds, front);
        lemma_stale_files(rounds, front);
        lemma_stale_files_push(rounds, front, last);
        assert(front.push(last) =~= found);
        assert forall|k: int| 0 <= k < stale.len() implies !is_live(rounds, #[trigger] stale[k])
            && found.contains(stale[k]) by {
            if k < front_stale.len() {
                assert(stale[k] == front_stale[k]);
                assert(front.contains(front_stale[k]));
                let i = choose|i: int| 0 <= i < front.len() && front[i] == front_stale[k];
                assert(found[i] == front[i]);
            } else {
                assert(stale[k] == last);
                assert(found[found.len() - 1] == last);
            }
        }
        assert forall|i: int| 0 <= i < found.len() && !is_live(rounds, #[trigger] found[i]) implies
            stale.contains(found[i]) by {
            if i < front.len() {
                assert(front[i] == found[i]);
                assert(front_stale.contains(front[i]));
                let k = choose|k: int| 0 <= k < front_stale.len() && front_stale[k] == front[i];
                assert(stale[k] == front_stale[k]);
            } else {
                assert(stale[stale.len() - 1] == last);
            }
        }
    }
}

/// After a refresh the cache file of each round of the refresh stays, and
/// the cache file of a round that is not among them goes, if it is found.
pub proof fn lemma_round_files_after_refresh(
    rounds: Seq<RoundView>,
    found: Seq<Seq<char>>,
    round_id: RoundId,
)
    ensures
        (exists|i: int| 0 <= i < rounds.len() && (#[trigger] rounds[i]).round_id == round_id)
            ==> !stale_files(rounds, found).contains(cache_path(round_key(round_id))),
        !(exists|i: int| 0 <= i < rounds.len() && (#[trigger] rounds[i]).round_id == round_id)
            && found.contains(cache_path(round_key(round_id))) ==> stale_files(
            rounds,
            found,
        ).contains(cache_path(round_key(round_id))),
{
    let path = cache_path(round_key(round_id));
    let stale = stale_files(rounds, found);
    lemma_round_file_is_live(rounds, round_id);
    lemma_stale_files(rounds, found);
    if stale.contains(path) {
        let k = choose|k: int| 0 <= k < stale.len() && stale[k] == path;
        assert(!is_live(rounds, stale[k]));
    }
    if found.contains(path) {
        let i = choose|i: int| 0 <= i < found.len() && found[i] == path;
        assert(found[i] == path);
    }
}

} // verus!
