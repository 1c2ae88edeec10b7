//! The byte-keyed store the ledger persists into.
//!
//! The ledger needs a get/put/flush interface over byte keys and byte
//! values; this one holds its records in memory with unique keys, and its
//! view is the map from keys to values. The embedding around the library
//! decides where the records ultimately live.

use vstd::prelude::*;
use crate::util::{bytes_eq, copy_bytes};

verus! {

/// The map a run of records denotes: later records shadow earlier ones,
/// which the unique-key invariant makes immaterial.
pub closed spec fn map_of(s: Seq<(Vec<u8>, Vec<u8>)>) -> Map<Seq<u8>, Seq<u8>>
    decreases s.len(),
{
    if s.len() == 0 {
        Map::empty()
    } else {
        map_of(s.drop_last()).insert(s.last().0@, s.last().1@)
    }
}

/// Whether no two records share a key.
spec fn unique_keys(s: Seq<(Vec<u8>, Vec<u8>)>) -> bool {
    forall|i: int, j: int| 0 <= i < j < s.len() ==> (#[trigger] s[i]).0@ != (#[trigger] s[j]).0@
}

/// A key is in the denoted map exactly when some record holds it.
proof fn lemma_map_of_contains(s: Seq<(Vec<u8>, Vec<u8>)>, k: Seq<u8>)
    ensures
        map_of(s).contains_key(k) <==> (exists|i: int| 0 <= i < s.len() && (#[trigger] s[i]).0@
            == k),
    decreases s.len(),
{
    if s.len() > 0 {
        lemma_map_of_contains(s.drop_last(), k);
        if s.last().0@ == k {
            assert((s[s.len() - 1]).0@ == k);
        } else if map_of(s).contains_key(k) {
            let i = choose|i: int| 0 <= i < s.len() - 1 && (#[trigger] s.drop_last()[i]).0@ == k;
            assert((s[i]).0@ == k);
        } else {
            if exists|i: int| 0 <= i < s.len() && (#[trigger] s[i]).0@ == k {
                let i = choose|i: int| 0 <= i < s.len() && (#[trigger] s[i]).0@ == k;
                assert((s.drop_last()[i]).0@ == k);
            }
        }
    }
}

/// With unique keys, the record at `i` is what the denoted map holds for
/// its key.
proof fn lemma_map_of_at(s: Seq<(Vec<u8>, Vec<u8>)>, i: int)
    requires
        unique_keys(s),
        0 <= i < s.len(),
    ensures
        map_of(s).contains_key(s[i].0@),
        map_of(s)[s[i].0@] == s[i].1@,
    decreases s.len(),
{
    if i == s.len() - 1 {
    } else {
        assert(unique_keys(s.drop_last()));
        assert(s.drop_last()[i] == s[i]);
        lemma_map_of_at(s.drop_last(), i);
        assert(s[i].0@ != s[s.len() - 1].0@);
    }
}

/// With unique keys, replacing the record that holds a key is insertion
/// into the denoted map.
proof fn lemma_map_of_update(s: Seq<(Vec<u8>, Vec<u8>)>, i: int, kv: (Vec<u8>, Vec<u8>))
    requires
        unique_keys(s),
        0 <= i < s.len(),
        kv.0@ == s[i].0@,
    ensures
        map_of(s.update(i, kv)) =~= map_of(s).insert(kv.0@, kv.1@),
    decreases s.len(),
{
    let su = s.update(i, kv);
    if i == s.len() - 1 {
        assert(su.drop_last() =~= s.drop_last());
        assert(su.last() == kv);
    } else {
        assert(su.drop_last() =~= s.drop_last().update(i, kv));
        assert(unique_keys(s.drop_last()));
        assert(s.drop_last()[i] == s[i]);
        lemma_map_of_update(s.drop_last(), i, kv);
        assert(su.last() == s.last());
        assert(kv.0@ != s.last().0@);
    }
}

/// The byte-keyed key-value store: get, put, flush, and a point-in-time
/// copy for snapshots.
pub struct KvStore {
    entries: Vec<(Vec<u8>, Vec<u8>)>,
}

impl View for KvStore {
    type V = Map<Seq<u8>, Seq<u8>>;

    closed spec fn view(&self) -> Map<Seq<u8>, Seq<u8>> {
        map_of(self.entries@)
    }
}

impl KvStore {
    /// Whether the store's records are well formed: one record per key.
    pub closed spec fn wf(&self) -> bool {
        unique_keys(self.entries@)
    }

    /// An empty store.
    pub fn new() -> (s: KvStore)
        ensures
            s.wf(),
            s@ == Map::<Seq<u8>, Seq<u8>>::empty(),
    {
        KvStore { entries: Vec::new() }
    }

    /// Looks a key up: the stored value, or nothing when the key is
    /// absent.
    pub fn get(&self, key: &[u8]) -> (r: Option<Vec<u8>>)
        requires
            self.wf(),
        ensures
            match r {
                Some(v) => self@.contains_key(key@) && v@ == self@[key@],
                None => !self@.contains_key(key@),
            },
    {
        let mut i: usize = 0;
        while i < self.entries.len()
            invariant
                self.wf(),
                i <= self.entries@.len(),
                forall|j: int| 0 <= j < i ==> (#[trigger] self.entries@[j]).0@ != key@,
            decreases self.entries@.len() - i,
        {
            if bytes_eq(self.entries[i].0.as_slice(), key) {
                let v = copy_bytes(self.entries[i].1.as_slice());
                proof {
                    lemma_map_of_at(self.entries@, i as int);
                }
                return Some(v);
            }
            i = i + 1;
        }
        proof {
            lemma_map_of_contains(self.entries@, key@);
        }
        None
    }

    /// Writes a value under a key, replacing what the key held before.
    pub fn put(&mut self, key: &[u8], value: Vec<u8>)
        requires
            old(self).wf(),
        ensures
            final(self).wf(),
            final(self)@ == old(self)@.insert(key@, value@),
    {
        let mut i: usize = 0;
        while i < self.entries.len()
            invariant
                self.wf(),
                self.entries@ == old(self).entries@,
                i <= self.entries@.len(),
                forall|j: int| 0 <= j < i ==> (#[trigger] self.entries@[j]).0@ != key@,
            decreases self.entries@.len() - i,
        {
            if bytes_eq(self.entries[i].0.as_slice(), key) {
                let kv = (copy_bytes(key), value);
                proof {
                    lemma_map_of_update(self.entries@, i as int, kv);
                    assert(unique_keys(self.entries@.update(i as int, kv)));
                }
                self.entries.set(i, kv);
                return ;
            }
            i = i + 1;
        }
        let kv = (copy_bytes(key), value);
        proof {
            lemma_map_of_contains(self.entries@, key@);
            assert(unique_keys(self.entries@.push(kv)));
            assert(self.entries@.push(kv).drop_last() =~= self.entries@);
        }
        self.entries.push(kv);
    }

    /// Makes pending writes durable. The records here are already their
    /// durable form, so there is nothing left to do.
    pub fn flush(&self) {
    }

    /// A point-in-time copy of the whole store: what a backup packages
    /// and a catching-up node restores.
    pub fn snapshot(&self) -> (r: KvStore)
        requires
            self.wf(),
        ensures
            r.wf(),
            r@ == self@,
    {
        let mut entries: Vec<(Vec<u8>, Vec<u8>)> = Vec::new();
        let mut i: usize = 0;
        while i < self.entries.len()
            invariant
                i <= self.entries@.len(),
                entries@.len() == i,
                forall|j: int| 0 <= j < i ==> (#[trigger] entries@[j]).0@ == self.entries@[j].0@
                    && (#[trigger] entries@[j]).1@ == self.entries@[j].1@,
            decreases self.entries@.len() - i,
        {
            let k = copy_bytes(self.entries[i].0.as_slice());
            let v = copy_bytes(self.entries[i].1.as_slice());
            entries.push((k, v));
            i = i + 1;
        }
        let r = KvStore { entries };
        proof {
            assert(unique_keys(r.entries@));
            lemma_map_of_congruence(r.entries@, self.entries@);
        }
        r
    }
}

/// Two runs of records with pairwise equal keys and values denote the
/// same map.
proof fn lemma_map_of_congruence(a: Seq<(Vec<u8>, Vec<u8>)>, b: Seq<(Vec<u8>, Vec<u8>)>)
    requires
        a.len() == b.len(),
        forall|j: int| 0 <= j < a.len() ==> (#[trigger] a[j]).0@ == b[j].0@ && (#[trigger] a[j]).1@
            == b[j].1@,
    ensures
        map_of(a) =~= map_of(b),
    decreases a.len(),
{
    if a.len() > 0 {
        lemma_map_of_congruence(a.drop_last(), b.drop_last());
    }
}

} // verus!
