//! The cache engine: where cached objects live, what is cached, and which
//! entries are evicted when the cache grows past its size limit.

use vstd::prelude::*;
use crate::compress::{zstd_compressed, zstd_decompressed, Compressor};
use crate::entry::{CacheEntry, EntryView, Timestamp};
use crate::error::Error;
use crate::key::{hex_text, CacheKey};
use crate::stale::{depends_on, depends_on_source, without_dependents};
use crate::store::{
    admits, keys_unique, lemma_pairs_map, lists, pairs_map, total_size_of, well_keyed, lemma_total_nonneg,
    lemma_total_remove, MetaStore,
};
use crate::text::{join_path, joined_path};

verus! {

/// `ks` lists the keys of `m` from the oldest entry to the youngest.
pub open spec fn age_ordered(m: Map<CacheKey, EntryView>, ks: Seq<CacheKey>) -> bool {
    &&& lists(m, ks)
    &&& forall|a: int, b: int|
        0 <= a < b < ks.len() ==> (#[trigger] m[ks[a]]).created_at.le((#[trigger] m[ks[b]]).created_at)
}

/// The keys that the entries listed by `ks` carry, in the same order.
pub open spec fn entry_keys(m: Map<CacheKey, EntryView>, ks: Seq<CacheKey>) -> Seq<CacheKey> {
    ks.map_values(|k: CacheKey| m[k].key)
}

/// Eviction of `m` down to `limit` bytes: the keys in `targets` are taken in
/// turn while the entries left total more than `limit`, each removing the
/// entry under it if there is one. The index left, and the keys whose
/// entries were removed, in order.
pub open spec fn eviction_run(m: Map<CacheKey, EntryView>, targets: Seq<CacheKey>, limit: int) -> (
    Map<CacheKey, EntryView>,
    Seq<CacheKey>,
)
    decreases targets.len(),
{
    if targets.len() == 0 || total_size_of(m) <= limit {
        (m, Seq::empty())
    } else if m.contains_key(targets[0]) {
        let next = eviction_run(m.remove(targets[0]), targets.drop_first(), limit);
        (next.0, seq![targets[0]] + next.1)
    } else {
        eviction_run(m, targets.drop_first(), limit)
    }
}


/// Eviction only removes entries, and it stops either within the limit or
/// with none of the targets left in the index.
pub proof fn lemma_eviction_run(m: Map<CacheKey, EntryView>, targets: Seq<CacheKey>, limit: int)
    requires
        m.dom().finite(),
    ensures
        eviction_run(m, targets, limit).0.submap_of(m),
        eviction_run(m, targets, limit).0.dom().finite(),
        total_size_of(eviction_run(m, targets, limit).0) <= limit || forall|j: int|
            0 <= j < targets.len() ==> !eviction_run(m, targets, limit).0.contains_key(#[trigger] targets[j]),
    decreases targets.len(),
{
    let r = eviction_run(m, targets, limit);
    if targets.len() == 0 || total_size_of(m) <= limit {
    } else if m.contains_key(targets[0]) {
        let m1 = m.remove(targets[0]);
        assert(m1.dom() =~= m.dom().remove(targets[0]));
        lemma_eviction_run(m1, targets.drop_first(), limit);
        assert forall|k: CacheKey| #[trigger] r.0.dom().contains(k) implies m.dom().contains(k) && r.0[k]
            == m[k] by {
            assert(m1.dom().contains(k));
        }
        if total_size_of(r.0) > limit {
            assert forall|j: int| 0 <= j < targets.len() implies !r.0.contains_key(#[trigger] targets[j]) by {
                if j > 0 {
                    assert(targets.drop_first()[j - 1] == targets[j]);
                } else if r.0.contains_key(targets[0]) {
                    assert(m1.dom().contains(targets[0]));
                }
            }
        }
    } else {
        lemma_eviction_run(m, targets.drop_first(), limit);
        if total_size_of(r.0) > limit {
            assert forall|j: int| 0 <= j < targets.len() implies !r.0.contains_key(#[trigger] targets[j]) by {
                if j > 0 {
                    assert(targets.drop_first()[j - 1] == targets[j]);
                } else if r.0.contains_key(targets[0]) {
                    assert(m.dom().contains(targets[0]));
                }
            }
        }
    }
}

/// When every entry is filed under its own key, eviction from the oldest
/// entry to the youngest leaves entries totalling no more than the limit.
pub proof fn eviction_fits_limit(m: Map<CacheKey, EntryView>, ks: Seq<CacheKey>, limit: int)
    requires
        m.dom().finite(),
        well_keyed(m),
        age_ordered(m, ks),
        limit >= 0,
    ensures
        total_size_of(eviction_run(m, entry_keys(m, ks), limit).0) <= limit,
{
    let t = entry_keys(m, ks);
    let r = eviction_run(m, t, limit).0;
    lemma_eviction_run(m, t, limit);
    if total_size_of(r) > limit {
        assert forall|k: CacheKey| !r.dom().contains(k) by {
            if r.dom().contains(k) {
                assert(m.dom().contains(k));
                assert(ks.contains(k));
                let j = choose|j: int| 0 <= j < ks.len() && ks[j] == k;
                assert(t[j] == m[ks[j]].key);
                assert(t[j] == k);
            }
        }
        assert(r.dom() =~= Set::<CacheKey>::empty());
        assert(total_size_of(r) == 0);
    }
}

/// What one eviction of `before` down to `limit` bytes may do: when the
/// entries total more than the limit it runs, taking the entries from the
/// oldest to the youngest (by the keys they carry) until the rest fit, and
/// otherwise leaves the index alone; `freed` is the size it removed.
pub open spec fn evicts(
    before: Map<CacheKey, EntryView>,
    limit: int,
    over_limit: bool,
    freed: int,
    removed: Seq<CacheKey>,
    after: Map<CacheKey, EntryView>,
) -> bool {
    &&& over_limit == (total_size_of(before) > limit)
    &&& !over_limit ==> after == before && freed == 0 && removed == Seq::<CacheKey>::empty()
    &&& over_limit ==> exists|ks: Seq<CacheKey>|
        #![trigger age_ordered(before, ks)]
        age_ordered(before, ks) && eviction_run(before, entry_keys(before, ks), limit) == (after, removed)
    &&& freed == total_size_of(before) - total_size_of(after)
}

/// An eviction run that removes nothing leaves the index as it is.
proof fn lemma_run_without_removal(m: Map<CacheKey, EntryView>, targets: Seq<CacheKey>, limit: int)
    ensures
        eviction_run(m, targets, limit).1.len() == 0 ==> eviction_run(m, targets, limit).0 == m,
    decreases targets.len(),
{
    if targets.len() == 0 || total_size_of(m) <= limit {
    } else if m.contains_key(targets[0]) {
    } else {
        lemma_run_without_removal(m, targets.drop_first(), limit);
    }
}

/// The last entry an eviction run removes was removed while the entries
/// left totalled more than the limit: the index it leaves, with that entry
/// added back, is over the limit.
proof fn lemma_last_removal_over_limit(m: Map<CacheKey, EntryView>, targets: Seq<CacheKey>, limit: int)
    requires
        m.dom().finite(),
    ensures
        ({
            let r = eviction_run(m, targets, limit);
            r.1.len() > 0 ==> m.contains_key(r.1.last()) && total_size_of(r.0) + m[r.1.last()].compressed_size
                > limit
        }),
    decreases targets.len(),
{
    if targets.len() == 0 || total_size_of(m) <= limit {
    } else if m.contains_key(targets[0]) {
        let k = targets[0];
        let m1 = m.remove(k);
        let next = eviction_run(m1, targets.drop_first(), limit);
        let r = eviction_run(m, targets, limit);
        lemma_total_remove(m, k);
        assert(r.1 == seq![k] + next.1);
        if next.1.len() == 0 {
            lemma_run_without_removal(m1, targets.drop_first(), limit);
            assert(r.1.last() == k);
        } else {
            lemma_last_removal_over_limit(m1, targets.drop_first(), limit);
            assert(r.1.last() == next.1.last());
        }
    } else {
        lemma_last_removal_over_limit(m, targets.drop_first(), limit);
    }
}

/// Eviction is minimal: it removes no entry once the rest fit. If it removed
/// anything, the entries it left together with the last one it removed
/// total more than the limit, and since each removal only lowers the total,
/// every removal happened while the entries still left were over the limit.
pub proof fn eviction_is_minimal(
    before: Map<CacheKey, EntryView>,
    limit: int,
    over_limit: bool,
    freed: int,
    removed: Seq<CacheKey>,
    after: Map<CacheKey, EntryView>,
)
    requires
        before.dom().finite(),
        evicts(before, limit, over_limit, freed, removed, after),
        removed.len() > 0,
    ensures
        before.contains_key(removed.last()),
        total_size_of(after) + before[removed.last()].compressed_size > limit,
{
    let ks = choose|ks: Seq<CacheKey>|
        #![trigger age_ordered(before, ks)]
        age_ordered(before, ks) && eviction_run(before, entry_keys(before, ks), limit) == (after, removed);
    lemma_last_removal_over_limit(before, entry_keys(before, ks), limit);
}

/// Evicting twice in a row from an index whose entries are filed under
/// their own keys: the second eviction finds the index within the limit,
/// so it removes nothing, frees nothing and leaves the index as it is.
pub proof fn second_eviction_frees_nothing(
    m0: Map<CacheKey, EntryView>,
    limit: int,
    over1: bool,
    freed1: int,
    removed1: Seq<CacheKey>,
    m1: Map<CacheKey, EntryView>,
    over2: bool,
    freed2: int,
    removed2: Seq<CacheKey>,
    m2: Map<CacheKey, EntryView>,
)
    requires
        m0.dom().finite(),
        well_keyed(m0),
        limit >= 0,
        evicts(m0, limit, over1, freed1, removed1, m1),
        evicts(m1, limit, over2, freed2, removed2, m2),
    ensures
        !over2,
        freed2 == 0,
        removed2 == Seq::<CacheKey>::empty(),
        m2 == m1,
{
    if over1 {
        let ks = choose|ks: Seq<CacheKey>|
            #![trigger age_ordered(m0, ks)]
            age_ordered(m0, ks) && eviction_run(m0, entry_keys(m0, ks), limit) == (m1, removed1);
        eviction_fits_limit(m0, ks, limit);
    }
}

/// When every entry is filed under its own key, the entries eviction
/// removes are a leading part of the oldest-first listing and the rest the
/// remainder of it.
proof fn lemma_eviction_prefix(cur: Map<CacheKey, EntryView>, t: Seq<CacheKey>, limit: int) -> (n: int)
    requires
        cur.dom().finite(),
        lists(cur, t),
    ensures
        0 <= n <= t.len(),
        eviction_run(cur, t, limit).1 == t.take(n),
        lists(eviction_run(cur, t, limit).0, t.skip(n)),
        eviction_run(cur, t, limit).0.submap_of(cur),
    decreases t.len(),
{
    if t.len() == 0 || total_size_of(cur) <= limit {
        assert(t.take(0) =~= Seq::<CacheKey>::empty());
        assert(t.skip(0) =~= t);
        0
    } else {
        assert(t.contains(t[0]));
        let m1 = cur.remove(t[0]);
        let t1 = t.drop_first();
        assert(m1.dom() =~= cur.dom().remove(t[0]));
        assert(t1.no_duplicates());
        assert forall|k: CacheKey| m1.contains_key(k) <==> t1.contains(k) by {
            if m1.contains_key(k) {
                assert(t.contains(k));
                let j = choose|j: int| 0 <= j < t.len() && t[j] == k;
                assert(j != 0);
                assert(t1[j - 1] == k);
            }
            if t1.contains(k) {
                let j = choose|j: int| 0 <= j < t1.len() && t1[j] == k;
                assert(t[j + 1] == k);
                assert(t.contains(k));
            }
        }
        let n1 = lemma_eviction_prefix(m1, t1, limit);
        let r = eviction_run(cur, t, limit);
        assert(r.1 =~= t.take(n1 + 1));
        assert(t1.skip(n1) =~= t.skip(n1 + 1));
        assert forall|k: CacheKey| #[trigger] r.0.dom().contains(k) implies cur.dom().contains(k) && r.0[k]
            == cur[k] by {
            assert(m1.dom().contains(k));
        }
        n1 + 1
    }
}

/// When every entry is filed under its own key, no entry that eviction
/// removes is younger than an entry it keeps.
pub proof fn eviction_removes_oldest(m: Map<CacheKey, EntryView>, ks: Seq<CacheKey>, limit: int)
    requires
        m.dom().finite(),
        well_keyed(m),
        age_ordered(m, ks),
    ensures
        forall|r: CacheKey, q: CacheKey|
            eviction_run(m, entry_keys(m, ks), limit).1.contains(r) && eviction_run(
                m,
                entry_keys(m, ks),
                limit,
            ).0.contains_key(q) ==> (#[trigger] m[r]).created_at.le((#[trigger] m[q]).created_at),
{
    let t = entry_keys(m, ks);
    assert(t =~= ks) by {
        assert forall|j: int| 0 <= j < ks.len() implies t[j] == ks[j] by {
            assert(ks.contains(ks[j]));
        }
    }
    let n = lemma_eviction_prefix(m, ks, limit);
    let res = eviction_run(m, ks, limit);
    assert forall|r: CacheKey, q: CacheKey|
        res.1.contains(r) && res.0.contains_key(q) implies (#[trigger] m[r]).created_at.le(
        (#[trigger] m[q]).created_at) by {
        let a = choose|a: int| 0 <= a < res.1.len() && res.1[a] == r;
        assert(ks.skip(n).contains(q));
        let b = choose|b: int| 0 <= b < ks.skip(n).len() && ks.skip(n)[b] == q;
        assert(ks[a] == r);
        assert(ks[n + b] == q);
        assert(m[ks[a]].created_at.le(m[ks[n + b]].created_at));
    }
}

/// What one eviction did.
pub struct EvictionReport {
    /// The entries totalled more than the size limit, so eviction ran (and
    /// the index must be written back).
    pub over_limit: bool,
    /// The bytes of compressed objects whose entries were removed.
    pub freed: u64,
    /// The keys whose entries were removed, in removal order; their object
    /// files are to be deleted.
    pub removed: Vec<CacheKey>,
}

/// The cache: objects under `cache_dir/objects`, their metadata index under
/// `cache_dir/meta`, and a limit on the total compressed size.
pub struct CacheEngine {
    cache_dir: String,
    compressor: Compressor,
    max_size: u64,
    meta_store: MetaStore,
    loaded: bool,
}

impl View for CacheEngine {
    type V = Map<CacheKey, EntryView>;

    /// The metadata index.
    closed spec fn view(&self) -> Map<CacheKey, EntryView> {
        self.meta_store@
    }
}

impl CacheEngine {
    /// The cache directory.
    pub closed spec fn dir(&self) -> Seq<char> {
        self.cache_dir@
    }

    /// The limit on the total compressed size, in bytes.
    pub closed spec fn size_limit(&self) -> u64 {
        self.max_size
    }

    /// The most entries the index keeps.
    pub closed spec fn entry_limit(&self) -> nat {
        self.meta_store.limit()
    }

    /// The directory of the index file.
    pub closed spec fn index_dir(&self) -> Seq<char> {
        self.meta_store.dir()
    }

    /// The zstd level of the objects.
    pub closed spec fn level(&self) -> i32 {
        self.compressor.level()
    }

    /// The index has been read from its file (or found absent).
    pub closed spec fn is_loaded(&self) -> bool {
        self.loaded
    }

    /// The index is finite.
    pub proof fn lemma_finite(&self)
        ensures
            self@.dom().finite(),
    {
        self.meta_store.lemma_finite();
    }

    /// A cache in `cache_dir` limited to `max_size_mb` MiB of compressed
    /// objects, with an index of at most 10 000 entries, not yet loaded.
    pub fn new(cache_dir: String, max_size_mb: u64) -> (engine: Self)
        requires
            max_size_mb * 1048576 <= u64::MAX,
        ensures
            engine.dir() == cache_dir@,
            engine.size_limit() == max_size_mb * 1048576,
            engine@ == Map::<CacheKey, EntryView>::empty(),
            engine.entry_limit() == 10000,
            engine.index_dir() == joined_path(cache_dir@, "meta"@),
            engine.level() == 3,
            !engine.is_loaded(),
    {
        let meta_dir = join_path(cache_dir.as_str(), "meta");
        CacheEngine {
            meta_store: MetaStore::new(meta_dir, 10_000),
            cache_dir,
            compressor: Compressor::new(3),
            max_size: max_size_mb * 1024 * 1024,
            loaded: false,
        }
    }

    /// The cache directory.
    pub fn cache_dir(&self) -> (dir: &str)
        ensures
            dir@ == self.dir(),
    {
        self.cache_dir.as_str()
    }

    /// The metadata index.
    pub fn meta_store(&self) -> (store: &MetaStore)
        ensures
            store@ == self@,
            store.dir() == self.index_dir(),
            store.limit() == self.entry_limit(),
    {
        &self.meta_store
    }

    /// The directory of the compressed objects.
    pub fn objects_dir(&self) -> (dir: String)
        ensures
            dir@ == joined_path(self.dir(), "objects"@),
    {
        join_path(self.cache_dir.as_str(), "objects")
    }

    /// The file of the compressed object of `key`: its hex name with the
    /// extension `.zst`, in the objects directory.
    pub fn object_path(&self, key: &CacheKey) -> (path: String)
        ensures
            path@ == joined_path(joined_path(self.dir(), "objects"@), hex_text(key.bytes()) + ".zst"@),
    {
        let dir = self.objects_dir();
        let mut name = key.to_hex();
        name.append(".zst");
        join_path(dir.as_str(), name.as_str())
    }

    /// Whether the index still has to be read from its file.
    pub fn needs_load(&self) -> (pending: bool)
        ensures
            pending == !self.is_loaded(),
    {
        !self.loaded
    }

    /// Takes the index as read from its file (`None` when there is no
    /// file, which leaves the index as it is) and marks it loaded.
    pub fn complete_load(&mut self, pairs: Option<Vec<(CacheKey, CacheEntry)>>)
        ensures
            final(self).is_loaded(),
            pairs matches Some(p) ==> final(self)@ == crate::store::pairs_map(p@),
            pairs is None ==> final(self)@ == old(self)@,
            final(self).dir() == old(self).dir(),
            final(self).size_limit() == old(self).size_limit(),
            final(self).entry_limit() == old(self).entry_limit(),
            final(self).index_dir() == old(self).index_dir(),
            final(self).level() == old(self).level(),
    {
        match pairs {
            Some(p) => self.meta_store.load(p),
            None => {},
        }
        self.loaded = true;
    }

    /// Whether `key` is cached: its object file exists (`object_exists`,
    /// as found on disk) and the index has an entry for it.
    pub fn contains(&self, key: &CacheKey, object_exists: bool) -> (cached: bool)
        ensures
            cached == (object_exists && self@.contains_key(*key)),
    {
        object_exists && self.meta_store.get(key).is_some()
    }

    /// A copy of the entry under `key`, or a cache miss naming the key in hex.
    pub fn get(&self, key: &CacheKey) -> (entry: Result<CacheEntry, Error>)
        ensures
            entry is Ok <==> self@.contains_key(*key),
            entry matches Ok(e) ==> e@ == self@[*key],
            entry matches Err(err) ==> err matches Error::CacheMiss(h) && h@ == hex_text(key.bytes()),
    {
        match self.meta_store.get(key) {
            Some(e) => Ok(e.clone()),
            None => Err(Error::CacheMiss(key.to_hex())),
        }
    }

    /// The archive of a cached build from its compressed object; an object
    /// that zstd cannot decode gives a `Compress` error.
    pub fn restore(&self, compressed: &[u8]) -> (archive: Result<Vec<u8>, Error>)
        ensures
            archive is Ok <==> zstd_decompressed(compressed@) is Some,
            archive matches Ok(v) ==> zstd_decompressed(compressed@) == Some(v@),
            archive matches Err(e) ==> e is Compress,
    {
        self.compressor.decompress(compressed)
    }

    /// The compressed object of a build's output archive, which `restore`
    /// turns back into the archive.
    pub fn compress_archive(&self, archive: &[u8]) -> (object: Result<Vec<u8>, Error>)
        ensures
            object matches Ok(v) && v@ == zstd_compressed(archive@, self.level())
                && zstd_decompressed(v@) == Some(archive@) && v@.len() > 0,
    {
        self.compressor.compress(archive)
    }


    /// Where the candidate with the earliest creation time stands.
    fn earliest(cands: &Vec<(CacheKey, Timestamp)>) -> (pos: usize)
        requires
            cands@.len() > 0,
        ensures
            pos < cands@.len(),
            forall|j: int| 0 <= j < cands@.len() ==> cands@[pos as int].1.le(#[trigger] cands@[j].1),
    {
        let mut best: usize = 0;
        let mut i: usize = 1;
        while i < cands.len()
            invariant
                1 <= i <= cands@.len(),
                best < i,
                forall|j: int| 0 <= j < i ==> cands@[best as int].1.le(#[trigger] cands@[j].1),
            decreases cands@.len() - i,
        {
            if !cands[best].1.not_after(&cands[i].1) {
                best = i;
            }
            i = i + 1;
        }
        best
    }

    /// When the entries total more than the size limit, removes entries from
    /// the oldest to the youngest, each by the key its entry carries, until
    /// the rest fit; reports whether it ran, the bytes freed and the keys
    /// removed.
    pub fn evict(&mut self) -> (report: EvictionReport)
        requires
            total_size_of(old(self)@) <= u64::MAX,
        ensures
            evicts(
                old(self)@,
                old(self).size_limit() as int,
                report.over_limit,
                report.freed as int,
                report.removed@,
                final(self)@,
            ),
            report.removed@.len() > 0 ==> old(self)@.contains_key(report.removed@.last())
                && total_size_of(final(self)@) + old(self)@[report.removed@.last()].compressed_size
                > old(self).size_limit(),
            final(self).dir() == old(self).dir(),
            final(self).size_limit() == old(self).size_limit(),
            final(self).entry_limit() == old(self).entry_limit(),
            final(self).index_dir() == old(self).index_dir(),
            final(self).level() == old(self).level(),
            final(self).is_loaded() == old(self).is_loaded(),
    {
        proof {
            self.meta_store.lemma_finite();
        }
        let total = self.meta_store.total_size();
        if total <= self.max_size {
            return EvictionReport { over_limit: false, freed: 0, removed: Vec::new() };
        }
        let ghost m = self.meta_store@;
        let limit = self.max_size;
        // Candidates: each entry's own key and creation time.
        let all = self.meta_store.entries();
        let ghost ks0 = choose|ks: Seq<CacheKey>|
            #![trigger lists(m, ks)]
            lists(m, ks) && all@.len() == ks.len() && forall|i: int|
                0 <= i < ks.len() ==> (#[trigger] all@[i])@ == m[ks[i]];
        let mut rest: Vec<(CacheKey, Timestamp)> = Vec::new();
        let mut i: usize = 0;
        while i < all.len()
            invariant
                i <= all@.len(),
                all@.len() == ks0.len(),
                forall|j: int| 0 <= j < ks0.len() ==> (#[trigger] all@[j])@ == m[ks0[j]],
                rest@.len() == i,
                forall|j: int|
                    0 <= j < i ==> #[trigger] rest@[j] == (m[ks0[j]].key, m[ks0[j]].created_at),
            decreases all@.len() - i,
        {
            rest.push((all[i].key, all[i].created_at));
            i = i + 1;
        }
        // Order them from the oldest to the youngest.
        let mut sorted: Vec<(CacheKey, Timestamp)> = Vec::new();
        let ghost mut sks: Seq<CacheKey> = Seq::empty();
        let ghost mut rks: Seq<CacheKey> = ks0;
        while rest.len() > 0
            invariant
                sorted@.len() == sks.len(),
                rest@.len() == rks.len(),
                forall|j: int|
                    0 <= j < sks.len() ==> #[trigger] sorted@[j] == (m[sks[j]].key, m[sks[j]].created_at),
                forall|j: int|
                    0 <= j < rks.len() ==> #[trigger] rest@[j] == (m[rks[j]].key, m[rks[j]].created_at),
                sks.no_duplicates(),
                rks.no_duplicates(),
                forall|k: CacheKey| sks.contains(k) ==> !rks.contains(k),
                forall|k: CacheKey| m.contains_key(k) <==> (sks.contains(k) || rks.contains(k)),
                forall|a: int, b: int|
                    0 <= a < b < sorted@.len() ==> (#[trigger] sorted@[a]).1.le((#[trigger] sorted@[b]).1),
                forall|a: int, b: int|
                    0 <= a < sorted@.len() && 0 <= b < rest@.len() ==> (#[trigger] sorted@[a]).1.le(
                        (#[trigger] rest@[b]).1,
                    ),
            decreases rest@.len(),
        {
            let p = Self::earliest(&rest);
            let ghost before = rest@;
            let ghost k = rks[p as int];
            let c = rest.remove(p);
            sorted.push(c);
            proof {
                let old_sks = sks;
                let old_rks = rks;
                sks = sks.push(k);
                rks = rks.remove(p as int);
                assert forall|x: CacheKey| old_rks.remove(p as int).contains(x) <==> (old_rks.contains(x) && x != k) by {
                    if old_rks.remove(p as int).contains(x) {
                        let j = choose|j: int| 0 <= j < old_rks.len() - 1 && old_rks.remove(p as int)[j] == x;
                        let j0 = if j < p { j } else { j + 1 };
                        assert(old_rks[j0] == x);
                        assert(j0 != p);
                    }
                    if old_rks.contains(x) && x != k {
                        let j = choose|j: int| 0 <= j < old_rks.len() && old_rks[j] == x;
                        assert(j != p);
                        let j1 = if j < p { j } else { j - 1 };
                        assert(old_rks.remove(p as int)[j1] == x);
                    }
                }
                assert forall|x: CacheKey| sks.contains(x) <==> (old_sks.contains(x) || x == k) by {
                    if sks.contains(x) {
                        let j = choose|j: int| 0 <= j < sks.len() && sks[j] == x;
                        if j < old_sks.len() {
                            assert(old_sks[j] == x);
                        }
                    }
                    if old_sks.contains(x) {
                        let j = choose|j: int| 0 <= j < old_sks.len() && old_sks[j] == x;
                        assert(sks[j] == x);
                    }
                    if x == k {
                        assert(sks[old_sks.len() as int] == x);
                    }
                }
                assert(old_rks.contains(k));
                assert forall|a: int, b: int| 0 <= a < b < rks.len() implies rks[a] != rks[b] by {
                    let a0 = if a < p { a } else { a + 1 };
                    let b0 = if b < p { b } else { b + 1 };
                    assert(rks[a] == old_rks[a0]);
                    assert(rks[b] == old_rks[b0]);
                }
                assert forall|a: int, b: int| 0 <= a < b < sks.len() implies sks[a] != sks[b] by {
                    if b == old_sks.len() {
                        assert(old_sks.contains(sks[a]));
                    }
                }
                assert forall|j: int| 0 <= j < rks.len() implies #[trigger] rest@[j] == (
                m[rks[j]].key, m[rks[j]].created_at) by {
                    let j0 = if j < p { j } else { j + 1 };
                    assert(rest@[j] == before[j0]);
                    assert(rks[j] == old_rks[j0]);
                }
                assert forall|a: int, b: int|
                    0 <= a < b < sorted@.len() implies (#[trigger] sorted@[a]).1.le((#[trigger] sorted@[b]).1) by {
                    if b == sorted@.len() - 1 {
                        assert(sorted@[b] == before[p as int]);
                    }
                }
                assert forall|a: int, b: int|
                    0 <= a < sorted@.len() && 0 <= b < rest@.len() implies (#[trigger] sorted@[a]).1.le(
                    (#[trigger] rest@[b]).1) by {
                    let b0 = if b < p { b } else { b + 1 };
                    assert(rest@[b] == before[b0]);
                    if a == sorted@.len() - 1 {
                        assert(sorted@[a] == before[p as int]);
                    }
                }
            }
        }
        proof {
            assert(rks.len() == 0);
            assert forall|k: CacheKey| m.contains_key(k) <==> sks.contains(k) by {
                if rks.contains(k) {
                    let j = choose|j: int| 0 <= j < rks.len() && rks[j] == k;
                }
            }
            assert(age_ordered(m, sks)) by {
                assert forall|a: int, b: int| 0 <= a < b < sks.len() implies (#[trigger] m[sks[a]]).created_at.le(
                    (#[trigger] m[sks[b]]).created_at) by {
                    assert(sorted@[a].1 == m[sks[a]].created_at);
                    assert(sorted@[b].1 == m[sks[b]].created_at);
                }
            }
        }
        let ghost targets = entry_keys(m, sks);
        // Remove entries in that order until the rest fit.
        let mut freed: u64 = 0;
        let mut current: u64 = total;
        let mut removed: Vec<CacheKey> = Vec::new();
        let mut i: usize = 0;
        assert(targets.skip(0) =~= targets);
        while i < sorted.len() && current > limit
            invariant
                i <= sorted@.len(),
                sorted@.len() == targets.len(),
                forall|j: int| 0 <= j < targets.len() ==> #[trigger] targets[j] == sorted@[j].0,
                limit == self.size_limit(),
                self.size_limit() == old(self).size_limit(),
                self.dir() == old(self).dir(),
                self.entry_limit() == old(self).entry_limit(),
                self.index_dir() == old(self).index_dir(),
                self.level() == old(self).level(),
                self.is_loaded() == old(self).is_loaded(),
                m == old(self)@,
                m.dom().finite(),
                total_size_of(m) <= u64::MAX,
                self@.dom().finite(),
                current == total_size_of(self@),
                freed == total_size_of(m) - total_size_of(self@),
                eviction_run(m, targets, limit as int) == {
                    let rest = eviction_run(self@, targets.skip(i as int), limit as int);
                    (rest.0, removed@ + rest.1)
                },
            decreases sorted@.len() - i,
        {
            let ghost cur = self@;
            let key = sorted[i].0;
            assert(targets.skip(i as int)[0] == key);
            assert(targets.skip(i as int).drop_first() =~= targets.skip(i + 1));
            match self.meta_store.remove(&key) {
                Some(e) => {
                    proof {
                        lemma_total_remove(cur, key);
                        lemma_total_nonneg(cur.remove(key));
                        lemma_total_nonneg(cur);
                        assert(self@ == cur.remove(key));
                        assert(e@ == cur[key]);
                        assert(e.compressed_size == cur[key].compressed_size);
                        assert(total_size_of(cur) == e.compressed_size + total_size_of(self@));
                    }
                    current = current.saturating_sub(e.compressed_size);
                    freed = freed + e.compressed_size;
                    removed.push(key);
                    assert(removed@ =~= (removed@.drop_last() + seq![key]));
                    proof {
                        let r = eviction_run(self@, targets.skip(i + 1), limit as int);
                        assert(removed@ + r.1 =~= removed@.drop_last() + (seq![key] + r.1));
                    }
                },
                None => {
                    assert(self@ =~= cur);
                },
            }
            i = i + 1;
        }
        proof {
            if i < sorted@.len() {
                assert(current <= limit);
            } else {
                assert(targets.skip(i as int).len() == 0);
            }
            assert(removed@ + Seq::<CacheKey>::empty() =~= removed@);
            lemma_last_removal_over_limit(m, targets, limit as int);
        }
        EvictionReport { over_limit: true, freed, removed }
    }

    /// Removes the entries of the builds that depend on the changed source
    /// file `source`: those whose outputs were collected from a project
    /// directory that holds it. Gives the keys removed, each once, for
    /// their object files to be deleted.
    pub fn invalidate(&mut self, source: &str) -> (removed: Vec<CacheKey>)
        ensures
            final(self)@ == without_dependents(old(self)@, source@),
            removed@.no_duplicates(),
            forall|k: CacheKey|
                #[trigger] removed@.contains(k) <==> (old(self)@.contains_key(k) && depends_on(
                    old(self)@[k],
                    source@,
                )),
            final(self).dir() == old(self).dir(),
            final(self).size_limit() == old(self).size_limit(),
            final(self).entry_limit() == old(self).entry_limit(),
            final(self).index_dir() == old(self).index_dir(),
            final(self).level() == old(self).level(),
            final(self).is_loaded() == old(self).is_loaded(),
    {
        let pairs = self.meta_store.snapshot();
        let ghost m = self@;
        proof {
            lemma_pairs_map(pairs@);
        }
        let mut removed: Vec<CacheKey> = Vec::new();
        let mut i: usize = 0;
        while i < pairs.len()
            invariant
                i <= pairs@.len(),
                m == old(self)@,
                pairs_map(pairs@) == m,
                keys_unique(pairs@),
                forall|k: CacheKey|
                    m.contains_key(k) <==> exists|j: int| 0 <= j < pairs@.len() && #[trigger] pairs@[j].0 == k,
                forall|j: int| 0 <= j < pairs@.len() ==> #[trigger] m[pairs@[j].0] == pairs@[j].1@,
                forall|k: CacheKey|
                    #[trigger] self@.contains_key(k) <==> (m.contains_key(k) && !removed@.contains(k)),
                forall|k: CacheKey| #[trigger] self@.contains_key(k) ==> self@[k] == m[k],
                forall|k: CacheKey|
                    #[trigger] removed@.contains(k) <==> (exists|j: int|
                        0 <= j < i && #[trigger] pairs@[j].0 == k && depends_on(pairs@[j].1@, source@)),
                removed@.no_duplicates(),
                self.dir() == old(self).dir(),
                self.size_limit() == old(self).size_limit(),
                self.entry_limit() == old(self).entry_limit(),
                self.index_dir() == old(self).index_dir(),
                self.level() == old(self).level(),
                self.is_loaded() == old(self).is_loaded(),
            decreases pairs@.len() - i,
        {
            let key = pairs[i].0;
            if depends_on_source(&pairs[i].1, source) {
                let ghost before = self@;
                let ghost rb = removed@;
                self.meta_store.remove(&key);
                removed.push(key);
                proof {
                    assert forall|k: CacheKey| #[trigger] removed@.contains(k) <==> (exists|j: int|
                        0 <= j < i + 1 && #[trigger] pairs@[j].0 == k && depends_on(pairs@[j].1@, source@)) by {
                        if removed@.contains(k) && k != key {
                            let a = choose|a: int| 0 <= a < removed@.len() && removed@[a] == k;
                            assert(rb[a] == k);
                            assert(rb.contains(k));
                        }
                        if k == key {
                            assert(removed@[removed@.len() - 1] == key);
                        }
                        if exists|j: int|
                            0 <= j < i + 1 && #[trigger] pairs@[j].0 == k && depends_on(pairs@[j].1@, source@) {
                            let j = choose|j: int|
                                0 <= j < i + 1 && #[trigger] pairs@[j].0 == k && depends_on(pairs@[j].1@, source@);
                            if j < i {
                                assert(rb.contains(k));
                                let a = choose|a: int| 0 <= a < rb.len() && rb[a] == k;
                                assert(removed@[a] == k);
                            } else {
                                assert(removed@[removed@.len() - 1] == key);
                            }
                        }
                    }
                    assert(!rb.contains(key)) by {
                        if rb.contains(key) {
                            let j = choose|j: int|
                                0 <= j < i && #[trigger] pairs@[j].0 == key && depends_on(pairs@[j].1@, source@);
                            assert(pairs@[j].0 == pairs@[i as int].0);
                        }
                    }
                    assert forall|a: int, b: int| 0 <= a < b < removed@.len() implies removed@[a] != removed@[b] by {
                        if b == removed@.len() - 1 {
                            assert(rb.contains(removed@[a]));
                        } else {
                            assert(rb[a] == removed@[a] && rb[b] == removed@[b]);
                        }
                    }
                    assert forall|k: CacheKey|
                        #[trigger] self@.contains_key(k) <==> (m.contains_key(k) && !removed@.contains(k)) by {
                        if k == key {
                            assert(removed@[removed@.len() - 1] == key);
                        } else if rb.contains(k) {
                            let a = choose|a: int| 0 <= a < rb.len() && rb[a] == k;
                            assert(removed@[a] == k);
                        } else if removed@.contains(k) {
                            let a = choose|a: int| 0 <= a < removed@.len() && removed@[a] == k;
                            assert(rb[a] == k);
                        }
                    }
                }
            } else {
                proof {
                    assert forall|k: CacheKey| #[trigger] removed@.contains(k) <==> (exists|j: int|
                        0 <= j < i + 1 && #[trigger] pairs@[j].0 == k && depends_on(pairs@[j].1@, source@)) by {
                        if exists|j: int|
                            0 <= j < i + 1 && #[trigger] pairs@[j].0 == k && depends_on(pairs@[j].1@, source@) {
                            let j = choose|j: int|
                                0 <= j < i + 1 && #[trigger] pairs@[j].0 == k && depends_on(pairs@[j].1@, source@);
                            if j == i {
                                assert(false);
                            }
                        }
                    }
                }
            }
            i = i + 1;
        }
        proof {
            assert forall|k: CacheKey|
                #[trigger] removed@.contains(k) <==> (m.contains_key(k) && depends_on(m[k], source@)) by {
                if m.contains_key(k) {
                    let j = choose|j: int| 0 <= j < pairs@.len() && #[trigger] pairs@[j].0 == k;
                    assert(m[pairs@[j].0] == pairs@[j].1@);
                }
                if removed@.contains(k) {
                    let j = choose|j: int|
                        0 <= j < i && #[trigger] pairs@[j].0 == k && depends_on(pairs@[j].1@, source@);
                    assert(m[pairs@[j].0] == pairs@[j].1@);
                }
            }
            assert(self@ =~= without_dependents(m, source@));
        }
        removed
    }

    /// Records a stored build: an entry for `key` with its outputs, the
    /// sizes of its archive and compressed object, when it was made, the
    /// toolchain and how long the build took, added to the index (which
    /// then drops oldest entries beyond its entry limit).
    pub fn store(
        &mut self,
        key: &CacheKey,
        outputs: Vec<String>,
        toolchain: &str,
        duration_ms: u64,
        original_size: u64,
        compressed_size: u64,
        created_at: Timestamp,
    )
        ensures
            admits(
                old(self)@,
                EntryView {
                    key: *key,
                    output_paths: outputs@.map_values(|p: String| p@),
                    compressed_size,
                    original_size,
                    created_at,
                    toolchain: toolchain@,
                    duration_ms,
                },
                old(self).entry_limit(),
                final(self)@,
            ),
            final(self).dir() == old(self).dir(),
            final(self).size_limit() == old(self).size_limit(),
            final(self).entry_limit() == old(self).entry_limit(),
            final(self).index_dir() == old(self).index_dir(),
            final(self).level() == old(self).level(),
            final(self).is_loaded() == old(self).is_loaded(),
    {
        let entry = CacheEntry {
            key: *key,
            output_paths: outputs,
            compressed_size,
            original_size,
            created_at,
            toolchain: String::from_str(toolchain),
            duration_ms,
        };
        self.meta_store.insert(entry);
    }
}

} // verus!
