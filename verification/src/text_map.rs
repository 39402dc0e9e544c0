//! A map keyed by text. The keys are spread over a fixed number of buckets by
//! a hash of their characters, and a lookup walks one bucket.

use crate::text::texts;
use vstd::prelude::*;

verus! {

/// The number of buckets of a map that holds anything.
const BUCKETS: usize = 1024;

/// The hash of a text: its characters folded from first to last.
spec fn text_hash(key: Seq<char>) -> nat
    decreases key.len(),
{
    if key.len() == 0 {
        0
    } else {
        (text_hash(key.drop_last()) * 31 + (key.last() as u32) as nat) % 0x1_0000_0000
    }
}

/// The bucket that a key belongs to.
spec fn bucket_of(key: Seq<char>) -> int {
    (text_hash(key) % (BUCKETS as nat)) as int
}

/// The bucket that a key belongs to.
fn bucket_index(key: &str) -> (index: usize)
    ensures
        index == bucket_of(key@),
{
    let mut hash: u64 = 0;
    let ghost mut seen: int = 0;
    proof {
        assert(key@.take(0) =~= Seq::<char>::empty());
    }
    for c in iter: key.chars()
        invariant
            iter.seq() == key@,
            seen == iter.index(),
            hash == text_hash(key@.take(seen)),
            hash < 0x1_0000_0000,
    {
        proof {
            let next = key@.take(seen + 1);
            assert(next.drop_last() =~= key@.take(seen));
            assert(next.last() == c);
            assert(text_hash(next) == (text_hash(key@.take(seen)) * 31 + (c as u32) as nat)
                % 0x1_0000_0000);
            seen = seen + 1;
        }
        let code: u32 = c as u32;
        hash = (hash * 31 + code as u64) % 0x1_0000_0000;
    }
    assert(key@.take(seen) =~= key@);
    (hash % (BUCKETS as u64)) as usize
}

/// One key of a [`TextMap`] with what it stands for.
#[derive(Debug)]
struct Entry<T> {
    key: String,
    value: T,
}

/// A map from text to values of `T`.
#[derive(Debug)]
pub struct TextMap<T> {
    buckets: Vec<Vec<Entry<T>>>,
}

/// Whether each entry stands in the bucket of its key, and no key stands
/// twice in a bucket.
spec fn well_kept<T>(buckets: Seq<Vec<Entry<T>>>) -> bool {
    &&& buckets.len() == 0 || buckets.len() == BUCKETS
    &&& forall|b: int, i: int|
        0 <= b < buckets.len() && 0 <= i < buckets[b].len() ==> bucket_of(
            (#[trigger] buckets[b][i]).key@,
        ) == b
    &&& forall|b: int, i: int, j: int|
        0 <= b < buckets.len() && 0 <= i < j < buckets[b].len() ==> (#[trigger] buckets[b][i]).key@
            != (#[trigger] buckets[b][j]).key@
}

/// Whether some entry has `key`.
spec fn holds<T>(buckets: Seq<Vec<Entry<T>>>, key: Seq<char>) -> bool {
    buckets.len() > 0 && exists|i: int|
        0 <= i < buckets[bucket_of(key)].len() && (#[trigger] buckets[bucket_of(key)][i]).key@
            == key
}

/// The place in its bucket of the entry that has `key`.
spec fn place<T>(buckets: Seq<Vec<Entry<T>>>, key: Seq<char>) -> int {
    choose|i: int|
        0 <= i < buckets[bucket_of(key)].len() && (#[trigger] buckets[bucket_of(key)][i]).key@
            == key
}

/// The map that the buckets stand for.
spec fn contents<T>(buckets: Seq<Vec<Entry<T>>>) -> Map<Seq<char>, T> {
    Map::new(
        |key: Seq<char>| holds(buckets, key),
        |key: Seq<char>| buckets[bucket_of(key)][place(buckets, key)].value,
    )
}

impl<T> View for TextMap<T> {
    type V = Map<Seq<char>, T>;

    closed spec fn view(&self) -> Map<Seq<char>, T> {
        contents(self.buckets@)
    }
}

/// Where `key` stands in its bucket, if the bucket has it.
fn find_in<T>(bucket: &Vec<Entry<T>>, key: &String) -> (found: Option<usize>)
    ensures
        match found {
            Some(index) => index < bucket.len() && bucket[index as int].key@ == key@,
            None => forall|i: int| 0 <= i < bucket.len() ==> (#[trigger] bucket[i]).key@ != key@,
        },
{
    let mut index: usize = 0;
    while index < bucket.len()
        invariant
            index <= bucket.len(),
            forall|i: int| 0 <= i < index ==> (#[trigger] bucket[i]).key@ != key@,
        decreases bucket.len() - index,
    {
        if bucket[index].key == *key {
            return Some(index);
        }
        index += 1;
    }
    None
}

/// The buckets of a map that holds nothing yet.
fn empty_buckets<T>() -> (buckets: Vec<Vec<Entry<T>>>)
    ensures
        buckets.len() == BUCKETS,
        forall|b: int| 0 <= b < buckets.len() ==> (#[trigger] buckets[b]).len() == 0,
{
    let mut buckets: Vec<Vec<Entry<T>>> = Vec::new();
    while buckets.len() < BUCKETS
        invariant
            buckets.len() <= BUCKETS,
            forall|b: int| 0 <= b < buckets.len() ==> (#[trigger] buckets[b]).len() == 0,
        decreases BUCKETS - buckets.len(),
    {
        buckets.push(Vec::new());
    }
    buckets
}

impl<T> TextMap<T> {
    #[verifier::type_invariant]
    spec fn well_formed(self) -> bool {
        well_kept(self.buckets@)
    }

    /// An empty map.
    pub fn new() -> (created: Self)
        ensures
            created@ == Map::<Seq<char>, T>::empty(),
    {
        let created = TextMap { buckets: Vec::new() };
        assert(created@ =~= Map::<Seq<char>, T>::empty());
        created
    }

    /// Where `key` stands, if the map has it: the bucket and the place in it.
    fn find(&self, key: &String) -> (found: Option<(usize, usize)>)
        ensures
            match found {
                Some((bucket, index)) => holds(self.buckets@, key@) && bucket == bucket_of(key@)
                    && index == place(self.buckets@, key@) && bucket < self.buckets.len() && index
                    < self.buckets[bucket as int].len(),
                None => !holds(self.buckets@, key@),
            },
    {
        proof {
            use_type_invariant(self);
        }
        if self.buckets.len() == 0 {
            return None;
        }
        let bucket = bucket_index(key.as_str());
        match find_in(&self.buckets[bucket], key) {
            Some(index) => Some((bucket, index)),
            None => None,
        }
    }

    /// Whether the map has `key`.
    pub fn contains_key(&self, key: &String) -> (held: bool)
        ensures
            held == self@.contains_key(key@),
    {
        self.find(key).is_some()
    }

    /// The value that `key` stands for, if the map has the key.
    pub fn get(&self, key: &String) -> (value: Option<&T>)
        ensures
            match value {
                Some(held) => self@.contains_key(key@) && *held == self@[key@],
                None => !self@.contains_key(key@),
            },
    {
        match self.find(key) {
            Some((bucket, index)) => Some(&self.buckets[bucket][index].value),
            None => None,
        }
    }
}

/// What a change in one bucket does to the map: the keys of the other
/// buckets stand as before, and the keys of the changed bucket are those of
/// its new entries.
proof fn lemma_bucket_changed<T>(
    before: Seq<Vec<Entry<T>>>,
    after: Seq<Vec<Entry<T>>>,
    bucket: int,
)
    requires
        well_kept(before),
        well_kept(after),
        before.len() == after.len(),
        0 <= bucket < before.len(),
        forall|b: int| 0 <= b < before.len() && b != bucket ==> before[b] == after[b],
    ensures
        forall|key: Seq<char>|
            bucket_of(key) != bucket ==> (#[trigger] contents(after).contains_key(key)
                <==> contents(before).contains_key(key)),
        forall|key: Seq<char>|
            bucket_of(key) != bucket && contents(before).contains_key(key) ==> #[trigger] contents(
                after,
            )[key] == contents(before)[key],
{
    assert forall|key: Seq<char>| bucket_of(key) != bucket implies (#[trigger] contents(
        after,
    ).contains_key(key) <==> contents(before).contains_key(key)) by {
        lemma_bucket_in_range(key);
        assert(before[bucket_of(key)] == after[bucket_of(key)]);
    }
    assert forall|key: Seq<char>|
        bucket_of(key) != bucket && contents(before).contains_key(key) implies #[trigger] contents(
        after,
    )[key] == contents(before)[key] by {
        lemma_bucket_in_range(key);
        assert(before[bucket_of(key)] == after[bucket_of(key)]);
    }
}

/// Every key has a bucket.
proof fn lemma_bucket_in_range(key: Seq<char>)
    ensures
        0 <= bucket_of(key) < BUCKETS,
{
}

/// A key that a bucket holds is held once, at the place where it is found.
proof fn lemma_place_found<T>(buckets: Seq<Vec<Entry<T>>>, key: Seq<char>, index: int)
    requires
        well_kept(buckets),
        buckets.len() > 0,
        0 <= index < buckets[bucket_of(key)].len(),
        buckets[bucket_of(key)][index].key@ == key,
    ensures
        holds(buckets, key),
        place(buckets, key) == index,
{
    lemma_bucket_in_range(key);
    assert(holds(buckets, key));
    let found = place(buckets, key);
    if found < index {
        assert(buckets[bucket_of(key)][found].key@ != buckets[bucket_of(key)][index].key@);
    } else if index < found {
        assert(buckets[bucket_of(key)][index].key@ != buckets[bucket_of(key)][found].key@);
    }
}

impl<T> TextMap<T> {
    /// Lets `key` stand for `value`, in place of what it stood for before.
    pub fn insert(&mut self, key: String, value: T)
        ensures
            final(self)@ == old(self)@.insert(key@, value),
    {
        proof {
            use_type_invariant(&*self);
        }
        let ghost text = key@;
        let ghost old_buckets = self.buckets@;
        let mut held = TextMap { buckets: Vec::new() };
        std::mem::swap(self, &mut held);
        let mut buckets = held.buckets;
        if buckets.len() == 0 {
            buckets = empty_buckets();
            assert(contents(buckets@) =~= contents(old_buckets));
        }
        let ghost before = buckets@;
        assert(well_kept(before));
        assert(contents(before) == contents(old_buckets));
        let bucket = bucket_index(key.as_str());
        proof {
            lemma_bucket_in_range(text);
        }
        match find_in(&buckets[bucket], &key) {
            Some(index) => {
                proof {
                    lemma_place_found(before, text, index as int);
                }
                buckets[bucket][index].value = value;
                proof {
                    let after = buckets@;
                    assert forall|b: int, i: int|
                        0 <= b < after.len() && 0 <= i < after[b].len() implies (
                    #[trigger] after[b][i]).key@ == before[b][i].key@ by {}
                    assert(well_kept(after));
                    lemma_bucket_changed(before, after, bucket as int);
                    assert forall|k: Seq<char>|
                        bucket_of(k) == bucket implies (holds(after, k) <==> holds(before, k)) by {
                        if holds(after, k) {
                            assert(before[bucket as int][place(after, k)].key@ == k);
                        }
                        if holds(before, k) {
                            assert(after[bucket as int][place(before, k)].key@ == k);
                        }
                    }
                    assert forall|k: Seq<char>|
                        bucket_of(k) == bucket && holds(after, k) implies contents(after)[k] == (
                        if k == text {
                            value
                        } else {
                            contents(before)[k]
                        }) by {
                        let i = place(after, k);
                        assert(before[bucket as int][i].key@ == k);
                        lemma_place_found(before, k, i);
                    }
                    assert(contents(after) =~= contents(before).insert(text, value));
                }
            },
            None => {
                buckets[bucket].push(Entry { key, value });
                proof {
                    let after = buckets@;
                    let last = before[bucket as int].len() as int;
                    assert forall|b: int, i: int|
                        0 <= b < after.len() && 0 <= i < after[b].len() implies bucket_of(
                        (#[trigger] after[b][i]).key@,
                    ) == b by {
                        if b == bucket && i < last {
                            assert(after[b][i] == before[b][i]);
                        } else if b != bucket {
                            assert(after[b][i] == before[b][i]);
                        }
                    }
                    assert forall|b: int, i: int, j: int|
                        0 <= b < after.len() && 0 <= i < j < after[b].len() implies (
                    #[trigger] after[b][i]).key@ != (#[trigger] after[b][j]).key@ by {
                        if b == bucket {
                            assert(after[b][i] == before[b][i]);
                            if j < last {
                                assert(after[b][j] == before[b][j]);
                            }
                        } else {
                            assert(after[b][i] == before[b][i]);
                            assert(after[b][j] == before[b][j]);
                        }
                    }
                    assert(well_kept(after));
                    lemma_bucket_changed(before, after, bucket as int);
                    assert(after[bucket as int][last].key@ == text);
                    lemma_place_found(after, text, last);
                    assert forall|k: Seq<char>|
                        bucket_of(k) == bucket implies (holds(after, k) <==> (holds(before, k) || k
                        == text)) by {
                        if holds(after, k) && k != text {
                            let i = place(after, k);
                            assert(after[bucket as int][i] == before[bucket as int][i]);
                        }
                        if holds(before, k) {
                            let i = place(before, k);
                            assert(after[bucket as int][i] == before[bucket as int][i]);
                        }
                    }
                    assert forall|k: Seq<char>|
                        bucket_of(k) == bucket && holds(after, k) implies contents(after)[k] == (
                        if k == text {
                            value
                        } else {
                            contents(before)[k]
                        }) by {
                        if k != text {
                            let i = place(after, k);
                            assert(after[bucket as int][i] == before[bucket as int][i]);
                            lemma_place_found(before, k, i);
                        }
                    }
                    assert(contents(after) =~= contents(before).insert(text, value));
                }
            },
        }
        *self = TextMap { buckets };
    }

    /// Takes `key` and its value out of the map.
    pub fn remove(&mut self, key: &String) -> (value: Option<T>)
        ensures
            final(self)@ == old(self)@.remove(key@),
            match value {
                Some(held) => old(self)@.contains_key(key@) && held == old(self)@[key@],
                None => !old(self)@.contains_key(key@),
            },
    {
        proof {
            use_type_invariant(&*self);
        }
        match self.find(key) {
            Some((bucket, index)) => {
                let ghost text = key@;
                let ghost before = self.buckets@;
                let mut held = TextMap { buckets: Vec::new() };
                std::mem::swap(self, &mut held);
                let mut buckets = held.buckets;
                let entry = buckets[bucket].remove(index);
                proof {
                    let after = buckets@;
                    lemma_bucket_in_range(text);
                    assert forall|i: int| 0 <= i < after[bucket as int].len() implies (
                    #[trigger] after[bucket as int][i]) == before[bucket as int][if i < index {
                        i
                    } else {
                        i + 1
                    }] by {}
                    assert forall|b: int, i: int|
                        0 <= b < after.len() && 0 <= i < after[b].len() implies bucket_of(
                        (#[trigger] after[b][i]).key@,
                    ) == b by {
                        if b != bucket {
                            assert(after[b][i] == before[b][i]);
                        }
                    }
                    assert forall|b: int, i: int, j: int|
                        0 <= b < after.len() && 0 <= i < j < after[b].len() implies (
                    #[trigger] after[b][i]).key@ != (#[trigger] after[b][j]).key@ by {
                        if b != bucket {
                            assert(after[b][i] == before[b][i]);
                            assert(after[b][j] == before[b][j]);
                        } else {
                            let from_i = if i < index { i } else { i + 1 };
                            let from_j = if j < index { j } else { j + 1 };
                            assert(before[b][from_i].key@ != before[b][from_j].key@);
                        }
                    }
                    assert(well_kept(after));
                    lemma_bucket_changed(before, after, bucket as int);
                    assert forall|k: Seq<char>|
                        bucket_of(k) == bucket implies (holds(after, k) <==> (holds(before, k) && k
                        != text)) by {
                        if holds(after, k) {
                            let i = place(after, k);
                            let from = if i < index { i } else { i + 1 };
                            assert(before[bucket as int][from].key@ == k);
                            if k == text {
                                lemma_place_found(before, k, from);
                            }
                        }
                        if holds(before, k) && k != text {
                            let j = place(before, k);
                            let to = if j < index { j } else { j - 1 };
                            assert(after[bucket as int][to].key@ == k);
                        }
                    }
                    assert forall|k: Seq<char>|
                        bucket_of(k) == bucket && holds(after, k) implies contents(after)[k]
                        == contents(before)[k] by {
                        let i = place(after, k);
                        let from = if i < index { i } else { i + 1 };
                        assert(before[bucket as int][from].key@ == k);
                        lemma_place_found(before, k, from);
                    }
                    assert(contents(after) =~= contents(before).remove(text));
                }
                *self = TextMap { buckets };
                Some(entry.value)
            },
            None => {
                assert(self@ =~= old(self)@.remove(key@));
                None
            },
        }
    }

    /// The keys of the map, each once, in no order that means anything.
    pub fn keys(&self) -> (keys: Vec<String>)
        ensures
            texts(keys@).no_duplicates(),
            forall|key: Seq<char>| texts(keys@).contains(key) <==> self@.contains_key(key),
    {
        proof {
            use_type_invariant(self);
        }
        let ghost all = self.buckets@;
        let mut keys: Vec<String> = Vec::new();
        let ghost mut origins: Seq<(int, int)> = Seq::empty();
        let mut bucket: usize = 0;
        while bucket < self.buckets.len()
            invariant
                bucket <= self.buckets.len(),
                all == self.buckets@,
                well_kept(all),
                origins.len() == keys.len(),
                forall|n: int|
                    0 <= n < keys.len() ==> 0 <= (#[trigger] origins[n]).0 < bucket && 0
                        <= origins[n].1 < all[origins[n].0].len() && keys[n]@
                        == all[origins[n].0][origins[n].1].key@,
                forall|b: int, i: int|
                    0 <= b < bucket && 0 <= i < all[b].len() ==> origins.contains((b, i)),
                texts(keys@).no_duplicates(),
            decreases self.buckets.len() - bucket,
        {
            let entries = &self.buckets[bucket];
            let mut index: usize = 0;
            while index < entries.len()
                invariant
                    index <= entries.len(),
                    bucket < self.buckets.len(),
                    all == self.buckets@,
                    entries == &all[bucket as int],
                    well_kept(all),
                    origins.len() == keys.len(),
                    forall|n: int|
                        0 <= n < keys.len() ==> 0 <= (#[trigger] origins[n]).0 <= bucket && 0
                            <= origins[n].1 < all[origins[n].0].len() && (origins[n].0 == bucket
                            ==> origins[n].1 < index) && keys[n]@
                            == all[origins[n].0][origins[n].1].key@,
                    forall|b: int, i: int|
                        (0 <= b < bucket && 0 <= i < all[b].len()) || (b == bucket && 0 <= i
                            < index) ==> origins.contains((b, i)),
                    texts(keys@).no_duplicates(),
                decreases entries.len() - index,
            {
                let ghost before_keys = texts(keys@);
                let ghost before_origins = origins;
                keys.push(entries[index].key.clone());
                proof {
                    let text = entries[index as int].key@;
                    origins = origins.push((bucket as int, index as int));
                    assert(texts(keys@) =~= before_keys.push(text));
                    assert forall|n: int| 0 <= n < before_keys.len() implies before_keys[n]
                        != text by {
                        let from = before_origins[n];
                        assert(before_keys[n] == all[from.0][from.1].key@);
                        if from.0 == bucket {
                            assert(all[bucket as int][from.1].key@ != all[bucket as int][index as int].key@);
                        } else {
                            assert(bucket_of(all[from.0][from.1].key@) == from.0);
                            assert(bucket_of(all[bucket as int][index as int].key@) == bucket);
                        }
                    }
                    assert forall|n: int| 0 <= n < keys.len() implies 0 <= (#[trigger] origins[n]).0
                        <= bucket && 0 <= origins[n].1 < all[origins[n].0].len() && (origins[n].0
                        == bucket ==> origins[n].1 < index + 1) && keys[n]@
                        == all[origins[n].0][origins[n].1].key@ by {
                        if n < before_origins.len() {
                            assert(origins[n] == before_origins[n]);
                        }
                    }
                    assert forall|b: int, i: int|
                        (0 <= b < bucket && 0 <= i < all[b].len()) || (b == bucket && 0 <= i < index
                            + 1) implies origins.contains((b, i)) by {
                        if b == bucket && i == index {
                            assert(origins[origins.len() - 1] == (b, i));
                        } else {
                            assert(before_origins.contains((b, i)));
                            let n = choose|n: int|
                                0 <= n < before_origins.len() && before_origins[n] == (b, i);
                            assert(origins[n] == (b, i));
                        }
                    }
                }
                index += 1;
            }
            bucket += 1;
        }
        proof {
            let listed = texts(keys@);
            assert forall|key: Seq<char>| listed.contains(key) <==> self@.contains_key(key) by {
                if listed.contains(key) {
                    let n = choose|n: int| 0 <= n < listed.len() && listed[n] == key;
                    let from = origins[n];
                    assert(all[from.0][from.1].key@ == key);
                    assert(bucket_of(key) == from.0);
                    lemma_place_found(all, key, from.1);
                }
                if self@.contains_key(key) {
                    lemma_bucket_in_range(key);
                    let i = place(all, key);
                    assert(origins.contains((bucket_of(key), i)));
                    let n = choose|n: int|
                        0 <= n < origins.len() && origins[n] == (bucket_of(key), i);
                    assert(listed[n] == key);
                }
            }
        }
        keys
    }
}

} // verus!
