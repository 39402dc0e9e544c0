//! The decisions of the cache on disk: where a value is kept, and what to do
//! once it has been looked for.

use crate::rounds::RoundId;
use crate::text::{push_signed_decimal, signed_decimal_text};
use vstd::prelude::*;

verus! {

/// The directory that holds the cache.
pub const CACHE_PATH: &'static str = "cache";

/// The directory that keeps the rounds.
pub const ROUNDS_CACHE_DIR: &'static str = "cache/rounds";

/// The file that keeps the value of `key`.
pub open spec fn cache_path(key: Seq<char>) -> Seq<char> {
    CACHE_PATH@ + "/"@ + key
}

/// The key under which a round is kept.
pub open spec fn round_key(round_id: RoundId) -> Seq<char> {
    "rounds/"@ + signed_decimal_text(round_id as int) + ".json"@
}

/// The file that keeps the value of `key`.
pub fn cache_file_path(key: &str) -> (path: String)
    ensures
        path@ == cache_path(key@),
{
    let mut path = String::from_str(CACHE_PATH);
    path.append("/");
    path.append(key);
    path
}

/// The key under which a round is kept.
pub fn round_cache_key(round_id: RoundId) -> (key: String)
    ensures
        key@ == round_key(round_id),
{
    let mut key = String::from_str("rounds/");
    push_signed_decimal(&mut key, round_id);
    key.append(".json");
    key
}

/// What looking for a key on disk found.
#[derive(Clone, Debug, PartialEq, Eq)]
pub enum CacheRead<T> {
    /// No file.
    Missing,
    /// A file that does not hold a value.
    Undecodable,
    /// The value that the file holds.
    Value(T),
}

/// What to do after looking for a key on disk.
#[derive(Clone, Debug, PartialEq, Eq)]
pub enum CacheStep<T> {
    /// The value is here: nothing is to be computed.
    Hit(T),
    /// The file is there and cannot be read: the failure is the caller's, and
    /// nothing is to be computed in its place.
    Corrupt,
    /// Nothing is kept: the value is to be computed.
    Compute,
}

/// Decides what to do after looking for a key on disk.
pub fn from_cache_or<T>(read: CacheRead<T>) -> (step: CacheStep<T>)
    ensures
        step == match read {
            CacheRead::Value(value) => CacheStep::Hit(value),
            CacheRead::Undecodable => CacheStep::Corrupt,
            CacheRead::Missing => CacheStep::Compute,
        },
{
    match read {
        CacheRead::Value(value) => CacheStep::Hit(value),
        CacheRead::Undecodable => CacheStep::Corrupt,
        CacheRead::Missing => CacheStep::Compute,
    }
}

/// What to do with what was computed for a key.
#[derive(Debug, PartialEq, Eq)]
pub struct Computed<T, E> {
    /// What the caller gets: the value or the failure, as computed.
    pub outcome: Result<T, E>,
    /// Whether the value is to be written to disk.
    pub store: bool,
}

/// Decides what to do with what was computed for a key: a value goes to the
/// caller and to disk, a failure goes to the caller alone.
pub fn after_compute<T, E>(produced: Result<T, E>) -> (computed: Computed<T, E>)
    ensures
        computed.outcome == produced,
        computed.store == produced.is_ok(),
{
    let store = produced.is_ok();
    Computed { outcome: produced, store }
}

} // verus!
