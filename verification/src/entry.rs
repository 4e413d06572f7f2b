//! What the cache records about one stored build.

use vstd::prelude::*;
use crate::key::CacheKey;

verus! {

/// A UTC instant: whole seconds since the Unix epoch and the nanoseconds
/// into that second (up to 1_999_999_999 during a leap second).
#[derive(Clone, Copy, Debug, PartialEq, Eq, Structural)]
pub struct Timestamp {
    pub secs: i64,
    pub nanos: u32,
}

impl Timestamp {
    /// `self` is not later than `other`.
    pub open spec fn le(self, other: Timestamp) -> bool {
        self.secs < other.secs || (self.secs == other.secs && self.nanos <= other.nanos)
    }

    /// Whether `self` is not later than `other`.
    pub fn not_after(&self, other: &Timestamp) -> (b: bool)
        ensures
            b == self.le(*other),
    {
        self.secs < other.secs || (self.secs == other.secs && self.nanos <= other.nanos)
    }
}

/// The metadata of one cached build output.
#[derive(Debug)]
pub struct CacheEntry {
    pub key: CacheKey,
    pub output_paths: Vec<String>,
    pub compressed_size: u64,
    pub original_size: u64,
    pub created_at: Timestamp,
    pub toolchain: String,
    pub duration_ms: u64,
}

/// A cache entry as plain values.
pub struct EntryView {
    pub key: CacheKey,
    pub output_paths: Seq<Seq<char>>,
    pub compressed_size: u64,
    pub original_size: u64,
    pub created_at: Timestamp,
    pub toolchain: Seq<char>,
    pub duration_ms: u64,
}

impl View for CacheEntry {
    type V = EntryView;

    open spec fn view(&self) -> EntryView {
        EntryView {
            key: self.key,
            output_paths: self.output_paths@.map_values(|p: String| p@),
            compressed_size: self.compressed_size,
            original_size: self.original_size,
            created_at: self.created_at,
            toolchain: self.toolchain@,
            duration_ms: self.duration_ms,
        }
    }
}

/// Copies a list of paths.
fn copy_paths(paths: &Vec<String>) -> (copy: Vec<String>)
    ensures
        copy@.map_values(|p: String| p@) == paths@.map_values(|p: String| p@),
{
    let mut copy: Vec<String> = Vec::new();
    let mut i: usize = 0;
    while i < paths.len()
        invariant
            i <= paths.len(),
            copy@.len() == i,
            forall|j: int| 0 <= j < i ==> copy@[j]@ == paths@[j]@,
        decreases paths.len() - i,
    {
        copy.push(paths[i].clone());
        i = i + 1;
    }
    assert(copy@.map_values(|p: String| p@) =~= paths@.map_values(|p: String| p@));
    copy
}

impl Clone for CacheEntry {
    fn clone(&self) -> (copy: Self)
        ensures
            copy@ == self@,
    {
        CacheEntry {
            key: self.key,
            output_paths: copy_paths(&self.output_paths),
            compressed_size: self.compressed_size,
            original_size: self.original_size,
            created_at: self.created_at,
            toolchain: self.toolchain.clone(),
            duration_ms: self.duration_ms,
        }
    }
}

} // verus!
