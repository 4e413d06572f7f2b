//! The metadata index: cache entries by key, bounded in count, oldest
//! entries dropped first.

use vstd::prelude::*;
use crate::entry::{CacheEntry, EntryView};
use crate::key::CacheKey;

verus! {

/// No key occurs twice in the list.
pub open spec fn keys_unique(s: Seq<(CacheKey, CacheEntry)>) -> bool {
    forall|i: int, j: int| 0 <= i < j < s.len() ==> s[i].0 != s[j].0
}

/// The index that a list of (key, entry) pairs denotes, later pairs
/// replacing earlier ones of the same key.
pub open spec fn pairs_map(s: Seq<(CacheKey, CacheEntry)>) -> Map<CacheKey, EntryView>
    decreases s.len(),
{
    if s.len() == 0 {
        Map::empty()
    } else {
        pairs_map(s.drop_last()).insert(s.last().0, s.last().1@)
    }
}

/// The sum of the compressed sizes of all entries of an index.
pub open spec fn total_size_of(m: Map<CacheKey, EntryView>) -> int
    decreases m.dom().len(),
    when m.dom().finite()
{
    if m.dom().len() == 0 {
        0
    } else {
        let k = m.dom().choose();
        m[k].compressed_size + total_size_of(m.remove(k))
    }
}

/// `ks` lists the keys of `m`, each once.
pub open spec fn lists(m: Map<CacheKey, EntryView>, ks: Seq<CacheKey>) -> bool {
    &&& ks.no_duplicates()
    &&& forall|k: CacheKey| m.contains_key(k) <==> ks.contains(k)
}

/// What an index `old` may become when `e` is added under its own key and
/// then, while more than `limit` entries remain, an oldest one is dropped:
/// a part of `old` with `e` added, of `limit` entries if there were more,
/// whose dropped entries are none of them younger than any kept one.
pub open spec fn admits(
    old: Map<CacheKey, EntryView>,
    e: EntryView,
    limit: nat,
    new: Map<CacheKey, EntryView>,
) -> bool {
    let ins = old.insert(e.key, e);
    &&& new.submap_of(ins)
    &&& new.dom().len() == if ins.dom().len() <= limit {
        ins.dom().len()
    } else {
        limit
    }
    &&& forall|r: CacheKey, q: CacheKey|
        #![trigger ins[r], new[q]]
        ins.contains_key(r) && !new.contains_key(r) && new.contains_key(q) ==> ins[r].created_at.le(
            ins[q].created_at,
        )
}

/// A dropped entry `r` of `ins` is not younger than a kept entry `q` of `cur`.
spec fn before_inv(ins: Map<CacheKey, EntryView>, cur: Map<CacheKey, EntryView>, r: CacheKey, q: CacheKey) -> bool {
    ins.contains_key(r) && !cur.contains_key(r) && cur.contains_key(q) ==> ins[r].created_at.le(ins[q].created_at)
}

/// Every entry of the index is filed under its own key.
pub open spec fn well_keyed(m: Map<CacheKey, EntryView>) -> bool {
    forall|k: CacheKey| #[trigger] m.contains_key(k) ==> m[k].key == k
}

/// A list of pairs denotes a finite index whose keys are exactly the
/// list's keys; with unique keys, each key maps to its pair's entry and
/// the index has as many entries as the list.
pub proof fn lemma_pairs_map(s: Seq<(CacheKey, CacheEntry)>)
    ensures
        pairs_map(s).dom().finite(),
        forall|k: CacheKey|
            pairs_map(s).contains_key(k) <==> exists|i: int| 0 <= i < s.len() && #[trigger] s[i].0 == k,
        keys_unique(s) ==> pairs_map(s).dom().len() == s.len(),
        keys_unique(s) ==> forall|i: int|
            0 <= i < s.len() ==> #[trigger] pairs_map(s)[s[i].0] == s[i].1@,
    decreases s.len(),
{
    if s.len() > 0 {
        let init = s.drop_last();
        lemma_pairs_map(init);
        assert forall|k: CacheKey|
            pairs_map(s).contains_key(k) <==> exists|i: int| 0 <= i < s.len() && #[trigger] s[i].0 == k by {
            if pairs_map(s).contains_key(k) && k != s.last().0 {
                let i = choose|i: int| 0 <= i < init.len() && #[trigger] init[i].0 == k;
                assert(s[i].0 == k);
            }
            if exists|i: int| 0 <= i < s.len() && #[trigger] s[i].0 == k {
                let i = choose|i: int| 0 <= i < s.len() && #[trigger] s[i].0 == k;
                if i < init.len() {
                    assert(init[i].0 == k);
                }
            }
        }
        if keys_unique(s) {
            assert(keys_unique(init));
            assert(!pairs_map(init).contains_key(s.last().0)) by {
                if pairs_map(init).contains_key(s.last().0) {
                    let i = choose|i: int| 0 <= i < init.len() && #[trigger] init[i].0 == s.last().0;
                    assert(s[i].0 == s[s.len() - 1].0);
                }
            }
            assert forall|i: int| 0 <= i < s.len() implies #[trigger] pairs_map(s)[s[i].0] == s[i].1@ by {
                if i < init.len() {
                    assert(init[i] == s[i]);
                    assert(s[i].0 != s.last().0);
                }
            }
        }
    }
}

/// Dropping a pair from a list of unique keys drops its key from the index.
pub proof fn lemma_pairs_map_remove(s: Seq<(CacheKey, CacheEntry)>, i: int)
    requires
        keys_unique(s),
        0 <= i < s.len(),
    ensures
        keys_unique(s.remove(i)),
        pairs_map(s.remove(i)) == pairs_map(s).remove(s[i].0),
{
    let t = s.remove(i);
    assert(keys_unique(t)) by {
        assert forall|a: int, b: int| 0 <= a < b < t.len() implies t[a].0 != t[b].0 by {
            let a0 = if a < i { a } else { a + 1 };
            let b0 = if b < i { b } else { b + 1 };
            assert(t[a] == s[a0]);
            assert(t[b] == s[b0]);
        }
    }
    lemma_pairs_map(s);
    lemma_pairs_map(t);
    let m = pairs_map(s).remove(s[i].0);
    assert forall|k: CacheKey| pairs_map(t).contains_key(k) <==> m.contains_key(k) by {
        if pairs_map(t).contains_key(k) {
            let j = choose|j: int| 0 <= j < t.len() && #[trigger] t[j].0 == k;
            let j0 = if j < i { j } else { j + 1 };
            assert(t[j] == s[j0]);
            assert(s[j0].0 == k);
            assert(j0 != i);
        }
        if m.contains_key(k) {
            let j = choose|j: int| 0 <= j < s.len() && #[trigger] s[j].0 == k;
            assert(j != i);
            let j1 = if j < i { j } else { j - 1 };
            assert(t[j1] == s[j]);
            assert(t[j1].0 == k);
        }
    }
    assert forall|k: CacheKey| #[trigger] pairs_map(t).contains_key(k) implies pairs_map(t)[k] == m[k] by {
        let j = choose|j: int| 0 <= j < t.len() && #[trigger] t[j].0 == k;
        let j0 = if j < i { j } else { j + 1 };
        assert(t[j] == s[j0]);
        assert(pairs_map(t)[t[j].0] == t[j].1@);
        assert(pairs_map(s)[s[j0].0] == s[j0].1@);
    }
    assert(pairs_map(t) =~= m);
}

/// Replacing the entry of a pair replaces it in the index.
pub proof fn lemma_pairs_map_update(s: Seq<(CacheKey, CacheEntry)>, i: int, e: CacheEntry)
    requires
        keys_unique(s),
        0 <= i < s.len(),
    ensures
        keys_unique(s.update(i, (s[i].0, e))),
        pairs_map(s.update(i, (s[i].0, e))) == pairs_map(s).insert(s[i].0, e@),
{
    let t = s.update(i, (s[i].0, e));
    assert(keys_unique(t)) by {
        assert forall|a: int, b: int| 0 <= a < b < t.len() implies t[a].0 != t[b].0 by {
            assert(t[a].0 == s[a].0);
            assert(t[b].0 == s[b].0);
        }
    }
    lemma_pairs_map(s);
    lemma_pairs_map(t);
    let m = pairs_map(s).insert(s[i].0, e@);
    assert forall|k: CacheKey| pairs_map(t).contains_key(k) <==> m.contains_key(k) by {
        if pairs_map(t).contains_key(k) {
            let j = choose|j: int| 0 <= j < t.len() && #[trigger] t[j].0 == k;
            assert(s[j].0 == k);
        }
        if m.contains_key(k) && k != s[i].0 {
            let j = choose|j: int| 0 <= j < s.len() && #[trigger] s[j].0 == k;
            assert(t[j].0 == k);
        }
        if k == s[i].0 {
            assert(t[i].0 == k);
        }
    }
    assert forall|k: CacheKey| #[trigger] pairs_map(t).contains_key(k) implies pairs_map(t)[k] == m[k] by {
        let j = choose|j: int| 0 <= j < t.len() && #[trigger] t[j].0 == k;
        assert(pairs_map(t)[t[j].0] == t[j].1@);
        if j != i {
            assert(pairs_map(s)[s[j].0] == s[j].1@);
        }
    }
    assert(pairs_map(t) =~= m);
}

/// Two lists with the same keys and equal entries denote the same index.
pub proof fn lemma_pairs_map_views(s: Seq<(CacheKey, CacheEntry)>, t: Seq<(CacheKey, CacheEntry)>)
    requires
        s.len() == t.len(),
        forall|i: int| 0 <= i < s.len() ==> s[i].0 == t[i].0 && s[i].1@ == t[i].1@,
    ensures
        pairs_map(s) == pairs_map(t),
    decreases s.len(),
{
    if s.len() > 0 {
        lemma_pairs_map_views(s.drop_last(), t.drop_last());
    }
}

/// Removing a removable nonempty set's chosen key shortens it.
proof fn lemma_remove_shortens(m: Map<CacheKey, EntryView>, k: CacheKey)
    requires
        m.dom().finite(),
        m.contains_key(k),
    ensures
        m.remove(k).dom().finite(),
        m.remove(k).dom().len() == m.dom().len() - 1,
{
    assert(m.remove(k).dom() =~= m.dom().remove(k));
}

/// The total of an index is any one entry's size plus the total of the rest.
pub proof fn lemma_total_remove(m: Map<CacheKey, EntryView>, k: CacheKey)
    requires
        m.dom().finite(),
        m.contains_key(k),
    ensures
        total_size_of(m) == m[k].compressed_size + total_size_of(m.remove(k)),
    decreases m.dom().len(),
{
    lemma_remove_shortens(m, k);
    let c = m.dom().choose();
    assert(m.dom().contains(c));
    if c != k {
        let mc = m.remove(c);
        let mk = m.remove(k);
        lemma_remove_shortens(m, c);
        assert(mc.contains_key(k));
        assert(mk.contains_key(c));
        lemma_total_remove(mc, k);
        lemma_total_remove(mk, c);
        assert(mc.remove(k) =~= mk.remove(c));
    }
}

/// Totals are never negative.
pub proof fn lemma_total_nonneg(m: Map<CacheKey, EntryView>)
    requires
        m.dom().finite(),
    ensures
        total_size_of(m) >= 0,
    decreases m.dom().len(),
{
    if m.dom().len() > 0 {
        let c = m.dom().choose();
        assert(m.dom().contains(c)) by {
            if !m.dom().contains(c) {
                m.dom().lemma_len0_is_empty();
            }
        }
        lemma_remove_shortens(m, c);
        lemma_total_nonneg(m.remove(c));
    }
}

/// The sum of the compressed sizes of a list's entries.
pub open spec fn seq_total(s: Seq<(CacheKey, CacheEntry)>) -> int
    decreases s.len(),
{
    if s.len() == 0 {
        0
    } else {
        seq_total(s.drop_last()) + s.last().1.compressed_size
    }
}

/// A list of unique keys totals what its index totals.
pub proof fn lemma_seq_total(s: Seq<(CacheKey, CacheEntry)>)
    requires
        keys_unique(s),
    ensures
        seq_total(s) == total_size_of(pairs_map(s)),
    decreases s.len(),
{
    if s.len() > 0 {
        let init = s.drop_last();
        assert(keys_unique(init));
        lemma_seq_total(init);
        lemma_pairs_map(init);
        lemma_pairs_map(s);
        let k = s.last().0;
        assert(!pairs_map(init).contains_key(k)) by {
            if pairs_map(init).contains_key(k) {
                let i = choose|i: int| 0 <= i < init.len() && #[trigger] init[i].0 == k;
                assert(s[i].0 == s[s.len() - 1].0);
            }
        }
        lemma_total_remove(pairs_map(s), k);
        assert(pairs_map(s).remove(k) =~= pairs_map(init));
    }
}

/// A prefix never totals more than the whole list.
pub proof fn lemma_seq_total_prefix(s: Seq<(CacheKey, CacheEntry)>, n: int)
    requires
        0 <= n <= s.len(),
    ensures
        0 <= seq_total(s.take(n)) <= seq_total(s),
    decreases s.len(),
{
    if s.len() > 0 {
        if n == s.len() {
            assert(s.take(n) =~= s);
            lemma_seq_total_prefix(s.drop_last(), n - 1);
            assert(s.drop_last().take(n - 1) =~= s.drop_last());
        } else {
            lemma_seq_total_prefix(s.drop_last(), n);
            assert(s.drop_last().take(n) =~= s.take(n));
            lemma_seq_total_prefix(s.drop_last(), s.len() - 1);
            assert(s.drop_last().take(s.len() - 1) =~= s.drop_last());
        }
    }
}



/// Adding an entry under its own key keeps every entry of the index under
/// its own key.
pub proof fn insert_keeps_well_keyed(
    old: Map<CacheKey, EntryView>,
    e: EntryView,
    limit: nat,
    new: Map<CacheKey, EntryView>,
)
    requires
        well_keyed(old),
        admits(old, e, limit, new),
    ensures
        well_keyed(new),
{
    let ins = old.insert(e.key, e);
    assert forall|k: CacheKey| #[trigger] new.contains_key(k) implies new[k].key == k by {
        assert(ins.dom().contains(k));
    }
}

/// An insertion that leaves the index within its limit drops nothing: the
/// index afterwards is the index before with the entry added.
pub proof fn insert_within_limit_drops_nothing(
    old: Map<CacheKey, EntryView>,
    e: EntryView,
    limit: nat,
    new: Map<CacheKey, EntryView>,
)
    requires
        old.dom().finite(),
        admits(old, e, limit, new),
        old.insert(e.key, e).dom().len() <= limit,
    ensures
        new == old.insert(e.key, e),
{
    let ins = old.insert(e.key, e);
    assert(new.dom().subset_of(ins.dom())) by {
        assert forall|k: CacheKey| new.dom().contains(k) implies ins.dom().contains(k) by {
            assert(new.contains_key(k));
        }
    }
    assert forall|k: CacheKey| ins.contains_key(k) implies new.contains_key(k) by {
        if !new.contains_key(k) {
            assert(new.dom().subset_of(ins.dom().remove(k)));
            vstd::set_lib::lemma_len_subset(new.dom(), ins.dom().remove(k));
        }
    }
    assert forall|k: CacheKey| #[trigger] new.contains_key(k) implies new[k] == ins[k] by {
        assert(ins.dom().contains(k));
    }
    assert(new =~= ins);
}

/// An entry younger than every other entry of the index survives its own
/// insertion whenever the index keeps at least one entry, replacing what
/// was stored under its key before.
pub proof fn insert_keeps_youngest(
    old: Map<CacheKey, EntryView>,
    e: EntryView,
    limit: nat,
    new: Map<CacheKey, EntryView>,
)
    requires
        old.dom().finite(),
        admits(old, e, limit, new),
        limit >= 1,
        forall|k: CacheKey|
            #[trigger] old.contains_key(k) && k != e.key ==> !e.created_at.le(old[k].created_at),
    ensures
        new.contains_key(e.key),
        new[e.key] == e,
{
    let ins = old.insert(e.key, e);
    assert(ins.dom().contains(e.key));
    assert(ins.dom().len() >= 1) by {
        if ins.dom().len() == 0 {
            ins.dom().lemma_len0_is_empty();
        }
    }
    assert(new.dom().finite()) by {
        assert(new.dom().subset_of(ins.dom())) by {
            assert forall|k: CacheKey| new.dom().contains(k) implies ins.dom().contains(k) by {
                assert(new.contains_key(k));
            }
        }
        vstd::set_lib::lemma_len_subset(new.dom(), ins.dom());
    }
    let q = new.dom().choose();
    if !new.dom().contains(q) {
        assert(new.dom() =~= Set::<CacheKey>::empty());
    }
    assert(ins.dom().contains(q));
    if !new.contains_key(e.key) {
        assert(ins[e.key].created_at.le(ins[q].created_at));
        assert(q != e.key);
        assert(old.contains_key(q));
    }
    assert(ins.dom().contains(e.key));
}

/// Storing a build under a key that already has one replaces it: when the
/// second entry is younger than every other entry of the index (and the
/// index keeps at least one entry), or the index has room for it, the
/// index afterwards holds the second entry under that key.
pub proof fn second_store_replaces_first(
    m0: Map<CacheKey, EntryView>,
    e1: EntryView,
    e2: EntryView,
    limit: nat,
    m1: Map<CacheKey, EntryView>,
    m2: Map<CacheKey, EntryView>,
)
    requires
        m0.dom().finite(),
        e1.key == e2.key,
        admits(m0, e1, limit, m1),
        admits(m1, e2, limit, m2),
        (limit >= 1 && forall|k: CacheKey|
            #[trigger] m1.contains_key(k) && k != e2.key ==> !e2.created_at.le(m1[k].created_at))
            || m1.insert(e2.key, e2).dom().len() <= limit,
    ensures
        m2.contains_key(e2.key),
        m2[e2.key] == e2,
{
    let ins = m0.insert(e1.key, e1);
    assert(m1.dom().subset_of(ins.dom())) by {
        assert forall|k: CacheKey| m1.dom().contains(k) implies ins.dom().contains(k) by {
            assert(m1.contains_key(k));
        }
    }
    vstd::set_lib::lemma_len_subset(m1.dom(), ins.dom());
    if m1.insert(e2.key, e2).dom().len() <= limit {
        insert_within_limit_drops_nothing(m1, e2, limit, m2);
    } else {
        insert_keeps_youngest(m1, e2, limit, m2);
    }
}

/// The metadata index of the cache: one entry per key, at most
/// `max_entries` of them after each insertion, kept for the directory
/// `db_dir` that holds its file.
///
/// The entries are held as a list of (key, entry) pairs in which no key
/// occurs twice. vstd specifies `HashMap` only for key types that it knows
/// to obey its key model (primitive integers, `bool`, and `Box`es of them);
/// for a struct key such as `CacheKey` that fact could only be assumed.
pub struct MetaStore {
    db_dir: String,
    entries: Vec<(CacheKey, CacheEntry)>,
    max_entries: usize,
}

impl View for MetaStore {
    type V = Map<CacheKey, EntryView>;

    closed spec fn view(&self) -> Map<CacheKey, EntryView> {
        pairs_map(self.entries@)
    }
}

impl MetaStore {
    #[verifier::type_invariant]
    spec fn keys_are_unique(self) -> bool {
        keys_unique(self.entries@)
    }

    /// The most entries an insertion leaves.
    pub closed spec fn limit(&self) -> nat {
        self.max_entries as nat
    }

    /// The directory of the index file.
    pub closed spec fn dir(&self) -> Seq<char> {
        self.db_dir@
    }

    /// The index is finite.
    pub proof fn lemma_finite(&self)
        ensures
            self@.dom().finite(),
    {
        lemma_pairs_map(self.entries@);
    }

    /// An empty index for `db_dir`, keeping at most `max_entries` entries.
    pub fn new(db_dir: String, max_entries: usize) -> (store: Self)
        ensures
            store@ == Map::<CacheKey, EntryView>::empty(),
            store.limit() == max_entries,
            store.dir() == db_dir@,
    {
        MetaStore { db_dir, entries: Vec::new(), max_entries }
    }

    /// The directory of the index file.
    pub fn db_dir(&self) -> (dir: &str)
        ensures
            dir@ == self.dir(),
    {
        self.db_dir.as_str()
    }

    /// Where `key` stands in the list, if anywhere.
    fn position(&self, key: &CacheKey) -> (pos: Option<usize>)
        ensures
            pos matches Some(i) ==> i < self.entries@.len() && self.entries@[i as int].0 == *key,
            pos is None ==> !self@.contains_key(*key),
    {
        let mut i: usize = 0;
        while i < self.entries.len()
            invariant
                i <= self.entries@.len(),
                forall|j: int| 0 <= j < i ==> self.entries@[j].0 != *key,
            decreases self.entries@.len() - i,
        {
            if self.entries[i].0.same(key) {
                return Some(i);
            }
            i = i + 1;
        }
        proof {
            lemma_pairs_map(self.entries@);
        }
        None
    }

    /// The entry under `key`, if any.
    pub fn get(&self, key: &CacheKey) -> (entry: Option<&CacheEntry>)
        ensures
            entry matches Some(e) ==> self@.contains_key(*key) && e@ == self@[*key],
            entry is None ==> !self@.contains_key(*key),
    {
        proof {
            use_type_invariant(self);
            lemma_pairs_map(self.entries@);
        }
        match self.position(key) {
            Some(i) => Some(&self.entries[i].1),
            None => None,
        }
    }

    /// Takes the entry under `key` out of the index.
    pub fn remove(&mut self, key: &CacheKey) -> (entry: Option<CacheEntry>)
        ensures
            final(self)@ == old(self)@.remove(*key),
            final(self).limit() == old(self).limit(),
            final(self).dir() == old(self).dir(),
            entry matches Some(e) ==> old(self)@.contains_key(*key) && e@ == old(self)@[*key],
            entry is None ==> !old(self)@.contains_key(*key),
    {
        proof {
            use_type_invariant(&*self);
            lemma_pairs_map(self.entries@);
        }
        match self.position(key) {
            None => {
                assert(self@.remove(*key) =~= self@);
                None
            },
            Some(i) => {
                let mut entries: Vec<(CacheKey, CacheEntry)> = Vec::new();
                std::mem::swap(&mut entries, &mut self.entries);
                let ghost before = entries@;
                let (_, e) = entries.remove(i);
                proof {
                    lemma_pairs_map_remove(before, i as int);
                }
                self.entries = entries;
                Some(e)
            },
        }
    }

    /// Files `entry` under `key`, replacing what was there.
    fn put(&mut self, key: CacheKey, entry: CacheEntry)
        ensures
            final(self)@ == old(self)@.insert(key, entry@),
            final(self).limit() == old(self).limit(),
            final(self).dir() == old(self).dir(),
    {
        proof {
            use_type_invariant(&*self);
            lemma_pairs_map(self.entries@);
        }
        let pos = self.position(&key);
        let mut entries: Vec<(CacheKey, CacheEntry)> = Vec::new();
        std::mem::swap(&mut entries, &mut self.entries);
        let ghost before = entries@;
        match pos {
            Some(i) => {
                proof {
                    lemma_pairs_map_update(before, i as int, entry);
                }
                entries.set(i, (key, entry));
            },
            None => {
                entries.push((key, entry));
                assert(entries@.drop_last() =~= before);
                assert(keys_unique(entries@)) by {
                    assert forall|a: int, b: int| 0 <= a < b < entries@.len() implies entries@[a].0
                        != entries@[b].0 by {
                        if b == before.len() {
                            assert(entries@[a] == before[a]);
                        } else {
                            assert(entries@[a] == before[a]);
                            assert(entries@[b] == before[b]);
                        }
                    }
                }
            },
        }
        self.entries = entries;
    }

    /// Where an entry with the earliest creation time stands in the list.
    fn oldest_position(&self) -> (pos: usize)
        requires
            self.entries@.len() > 0,
        ensures
            pos < self.entries@.len(),
            forall|j: int|
                0 <= j < self.entries@.len() ==> self.entries@[pos as int].1.created_at.le(
                    #[trigger] self.entries@[j].1.created_at,
                ),
    {
        let mut best: usize = 0;
        let mut i: usize = 1;
        while i < self.entries.len()
            invariant
                1 <= i <= self.entries@.len(),
                best < i,
                forall|j: int|
                    0 <= j < i ==> self.entries@[best as int].1.created_at.le(
                        #[trigger] self.entries@[j].1.created_at,
                    ),
            decreases self.entries@.len() - i,
        {
            if !self.entries[best].1.created_at.not_after(&self.entries[i].1.created_at) {
                best = i;
            }
            i = i + 1;
        }
        best
    }

    /// Adds `entry` under its own key, then drops oldest entries while more
    /// than `max_entries` remain.
    pub fn insert(&mut self, entry: CacheEntry)
        ensures
            admits(old(self)@, entry@, old(self).limit(), final(self)@),
            final(self).limit() == old(self).limit(),
            final(self).dir() == old(self).dir(),
    {
        let ghost e = entry@;
        let key = entry.key;
        self.put(key, entry);
        let ghost ins = self@;
        proof {
            self.lemma_finite();
        }
        while self.entries.len() > self.max_entries
            invariant
                ins == old(self)@.insert(e.key, e),
                ins.dom().finite(),
                self.limit() == old(self).limit(),
                self.dir() == old(self).dir(),
                forall|k: CacheKey| #[trigger]
                    self@.contains_key(k) ==> ins.contains_key(k) && self@[k] == ins[k],
                self@.dom().len() == ins.dom().len() || self@.dom().len() >= self.limit(),
                forall|r: CacheKey, q: CacheKey| #[trigger] before_inv(ins, self@, r, q),
            decreases self.entries@.len(),
        {
            proof {
                use_type_invariant(&*self);
                lemma_pairs_map(self.entries@);
            }
            let pos = self.oldest_position();
            let oldest = self.entries[pos].0;
            let ghost cur = self@;
            proof {
                assert forall|q: CacheKey| #[trigger] cur.contains_key(q) implies cur[oldest].created_at.le(
                    cur[q].created_at) by {
                    let j = choose|j: int| 0 <= j < self.entries@.len() && #[trigger] self.entries@[j].0 == q;
                    assert(cur[self.entries@[j].0] == self.entries@[j].1@);
                    assert(cur[self.entries@[pos as int].0] == self.entries@[pos as int].1@);
                }
            }
            self.remove(&oldest);
            proof {
                use_type_invariant(&*self);
                lemma_pairs_map(self.entries@);
                lemma_remove_shortens(cur, oldest);
                assert forall|r: CacheKey, q: CacheKey| #[trigger] before_inv(ins, self@, r, q) by {
                    if ins.contains_key(r) && !self@.contains_key(r) && self@.contains_key(q) {
                        assert(cur.contains_key(q));
                        assert(cur.contains_key(oldest));
                        if r == oldest {
                            assert(cur[oldest].created_at.le(cur[q].created_at));
                        } else {
                            assert(before_inv(ins, cur, r, q));
                        }
                    }
                }
            }
        }
        proof {
            use_type_invariant(&*self);
            lemma_pairs_map(self.entries@);
            assert(self@.dom().subset_of(ins.dom()));
            vstd::set_lib::lemma_len_subset(self@.dom(), ins.dom());
            assert forall|r: CacheKey, q: CacheKey|
                #![trigger ins[r], self@[q]]
                ins.contains_key(r) && !self@.contains_key(r) && self@.contains_key(q)
                    implies ins[r].created_at.le(ins[q].created_at) by {
                assert(before_inv(ins, self@, r, q));
            }
        }
    }


    /// Replaces the whole index by the pairs read back from its file, a
    /// later pair replacing an earlier one of the same key.
    pub fn load(&mut self, pairs: Vec<(CacheKey, CacheEntry)>)
        ensures
            final(self)@ == pairs_map(pairs@),
            final(self).limit() == old(self).limit(),
            final(self).dir() == old(self).dir(),
    {
        self.entries = Vec::new();
        assert(self@ =~= Map::<CacheKey, EntryView>::empty());
        let mut i: usize = 0;
        while i < pairs.len()
            invariant
                i <= pairs@.len(),
                self@ == pairs_map(pairs@.take(i as int)),
                self.limit() == old(self).limit(),
                self.dir() == old(self).dir(),
            decreases pairs@.len() - i,
        {
            let key = pairs[i].0;
            let entry = pairs[i].1.clone();
            self.put(key, entry);
            assert(pairs@.take(i + 1).drop_last() =~= pairs@.take(i as int));
            i = i + 1;
        }
        assert(pairs@.take(pairs@.len() as int) =~= pairs@);
    }

    /// Every (key, entry) pair of the index, each key once, for writing
    /// the index to its file.
    pub fn snapshot(&self) -> (pairs: Vec<(CacheKey, CacheEntry)>)
        ensures
            keys_unique(pairs@),
            pairs_map(pairs@) == self@,
    {
        proof {
            use_type_invariant(self);
        }
        let mut pairs: Vec<(CacheKey, CacheEntry)> = Vec::new();
        let mut i: usize = 0;
        while i < self.entries.len()
            invariant
                i <= self.entries@.len(),
                keys_unique(self.entries@),
                pairs@.len() == i,
                forall|j: int|
                    0 <= j < i ==> (#[trigger] pairs@[j]).0 == self.entries@[j].0 && pairs@[j].1@
                        == self.entries@[j].1@,
            decreases self.entries@.len() - i,
        {
            let k = self.entries[i].0;
            let e = self.entries[i].1.clone();
            pairs.push((k, e));
            assert(pairs@[i as int].1@ == self.entries@[i as int].1@);
            i = i + 1;
        }
        proof {
            lemma_pairs_map_views(pairs@, self.entries@);
            assert forall|a: int, b: int| 0 <= a < b < pairs@.len() implies pairs@[a].0 != pairs@[b].0 by {
                assert(pairs@[a].0 == self.entries@[a].0);
                assert(pairs@[b].0 == self.entries@[b].0);
            }
        }
        pairs
    }

    /// All entries, each once, in no particular order.
    pub fn entries(&self) -> (all: Vec<&CacheEntry>)
        ensures
            exists|ks: Seq<CacheKey>|
                #![trigger lists(self@, ks)]
                lists(self@, ks) && all@.len() == ks.len() && forall|i: int|
                    0 <= i < ks.len() ==> (#[trigger] all@[i])@ == self@[ks[i]],
    {
        proof {
            use_type_invariant(self);
            lemma_pairs_map(self.entries@);
        }
        let mut all: Vec<&CacheEntry> = Vec::new();
        let mut i: usize = 0;
        while i < self.entries.len()
            invariant
                i <= self.entries@.len(),
                all@.len() == i,
                forall|j: int| 0 <= j < i ==> (#[trigger] all@[j]) == &self.entries@[j].1,
            decreases self.entries@.len() - i,
        {
            all.push(&self.entries[i].1);
            i = i + 1;
        }
        let ghost ks = self.entries@.map_values(|p: (CacheKey, CacheEntry)| p.0);
        proof {
            assert forall|k: CacheKey| self@.contains_key(k) <==> ks.contains(k) by {
                if self@.contains_key(k) {
                    let j = choose|j: int| 0 <= j < self.entries@.len() && #[trigger] self.entries@[j].0 == k;
                    assert(ks[j] == k);
                }
                if ks.contains(k) {
                    let j = choose|j: int| 0 <= j < ks.len() && ks[j] == k;
                    assert(self.entries@[j].0 == k);
                }
            }
            assert forall|i: int| 0 <= i < ks.len() implies (#[trigger] all@[i])@ == self@[ks[i]] by {
                assert(self@[self.entries@[i].0] == self.entries@[i].1@);
            }
            assert(lists(self@, ks));
        }
        all
    }

    /// The sum of the compressed sizes of all entries.
    pub fn total_size(&self) -> (total: u64)
        requires
            total_size_of(self@) <= u64::MAX,
        ensures
            total == total_size_of(self@),
    {
        proof {
            use_type_invariant(self);
            lemma_seq_total(self.entries@);
        }
        let mut total: u64 = 0;
        let mut i: usize = 0;
        while i < self.entries.len()
            invariant
                i <= self.entries@.len(),
                seq_total(self.entries@) <= u64::MAX,
                total == seq_total(self.entries@.take(i as int)),
            decreases self.entries@.len() - i,
        {
            proof {
                lemma_seq_total_prefix(self.entries@, i + 1);
                assert(self.entries@.take(i + 1).drop_last() =~= self.entries@.take(i as int));
            }
            total = total + self.entries[i].1.compressed_size;
            i = i + 1;
        }
        assert(self.entries@.take(i as int) =~= self.entries@);
        total
    }

    /// The sum of the compressed sizes of all entries, if it fits in 64 bits.
    pub fn checked_total_size(&self) -> (total: Option<u64>)
        ensures
            self@.dom().finite(),
            total == if total_size_of(self@) <= u64::MAX {
                Some(total_size_of(self@) as u64)
            } else {
                None::<u64>
            },
    {
        proof {
            use_type_invariant(self);
            lemma_seq_total(self.entries@);
            lemma_pairs_map(self.entries@);
        }
        let mut total: u64 = 0;
        let mut i: usize = 0;
        while i < self.entries.len()
            invariant
                i <= self.entries@.len(),
                seq_total(self.entries@) == total_size_of(self@),
                self@.dom().finite(),
                total == seq_total(self.entries@.take(i as int)),
            decreases self.entries@.len() - i,
        {
            proof {
                lemma_seq_total_prefix(self.entries@, i + 1);
                assert(self.entries@.take(i + 1).drop_last() =~= self.entries@.take(i as int));
            }
            match total.checked_add(self.entries[i].1.compressed_size) {
                Some(t) => {
                    total = t;
                },
                None => {
                    return None;
                },
            }
            i = i + 1;
        }
        assert(self.entries@.take(i as int) =~= self.entries@);
        Some(total)
    }

    /// The number of entries.
    pub fn len(&self) -> (n: usize)
        ensures
            n == self@.len(),
    {
        proof {
            use_type_invariant(self);
            lemma_pairs_map(self.entries@);
        }
        self.entries.len()
    }
}

} // verus!
