//! A dispatch table of named operations: a header line and entries of
//! key and description, looked up by exact key. The front end that
//! renders the table, reads a choice, and runs the chosen operation
//! stands outside the library.

use vstd::prelude::*;

verus! {

/// The index of the first entry with this key, or the table's length.
pub open spec fn menu_find(entries: Seq<(Seq<char>, Seq<char>)>, key: Seq<char>) -> int
    decreases entries.len(),
{
    if entries.len() == 0 {
        0
    } else if entries[0].0 == key {
        0
    } else {
        1 + menu_find(entries.drop_first(), key)
    }
}

/// Adding keyed by the entry's key: replace the entry that holds the
/// key, or append.
pub open spec fn menu_insert(
    entries: Seq<(Seq<char>, Seq<char>)>,
    key: Seq<char>,
    desc: Seq<char>,
) -> Seq<(Seq<char>, Seq<char>)> {
    if menu_find(entries, key) < entries.len() {
        entries.update(menu_find(entries, key), (key, desc))
    } else {
        entries.push((key, desc))
    }
}

/// The dispatch table.
pub struct MenuBuilder {
    header: String,
    entries: Vec<(String, String)>,
}

impl MenuBuilder {
    /// The header line shown above the table.
    pub closed spec fn spec_header(&self) -> Seq<char> {
        self.header@
    }

    /// The table's entries: key and description, in insertion order.
    pub closed spec fn entries(&self) -> Seq<(Seq<char>, Seq<char>)> {
        Seq::new(self.entries@.len(), |k: int| (self.entries@[k].0@, self.entries@[k].1@))
    }

    /// Whether the table's keys are pairwise distinct.
    pub open spec fn wf(&self) -> bool {
        forall|i: int, j: int|
            0 <= i < j < self.entries().len() ==> (#[trigger] self.entries()[i]).0 != (
            #[trigger] self.entries()[j]).0
    }

    /// An empty table with an empty header.
    pub fn new() -> (m: MenuBuilder)
        ensures
            m.wf(),
            m.spec_header() =~= Seq::<char>::empty(),
            m.entries() =~= Seq::<(Seq<char>, Seq<char>)>::empty(),
    {
        MenuBuilder { header: String::new(), entries: Vec::new() }
    }

    /// Replaces the header line.
    pub fn set_header(&mut self, header: String)
        requires
            old(self).wf(),
        ensures
            final(self).wf(),
            final(self).spec_header() == header@,
            final(self).entries() == old(self).entries(),
    {
        self.header = header;
        proof {
            assert(self.entries() =~= old(self).entries());
        }
    }

    /// Adds a named operation under a key; an operation already listed
    /// under the same key is replaced.
    #[verifier::loop_isolation(false)]
    pub fn add(&mut self, key: String, desc: String)
        requires
            old(self).wf(),
        ensures
            final(self).wf(),
            final(self).spec_header() == old(self).spec_header(),
            final(self).entries() == menu_insert(old(self).entries(), key@, desc@),
    {
        let mut i: usize = 0;
        while i < self.entries.len()
            invariant
                self == old(self),
                i <= self.entries@.len(),
                forall|j: int| 0 <= j < i ==> (#[trigger] self.entries()[j]).0 != key@,
            decreases self.entries@.len() - i,
        {
            if self.entries[i].0 == key {
                proof {
                    lemma_menu_find_hit(self.entries(), key@, i as int);
                }
                let ghost e0 = self.entries();
                self.entries.set(i, (key, desc));
                proof {
                    assert(self.entries() =~= e0.update(i as int, (key@, desc@)));
                    let idx = i as int;
                    assert forall|a: int, b: int|
                        0 <= a < b < self.entries().len() implies (
                    #[trigger] self.entries()[a]).0 != (#[trigger] self.entries()[b]).0 by {
                        if a == idx {
                            assert(e0[b].0 != e0[idx].0);
                        } else if b == idx {
                            assert(e0[a].0 != key@);
                        } else {
                            assert(e0[a].0 != e0[b].0);
                        }
                    }
                }
                return ;
            }
            i = i + 1;
        }
        proof {
            lemma_menu_find_miss(self.entries(), key@);
        }
        let ghost e0 = self.entries();
        self.entries.push((key, desc));
        proof {
            assert(self.entries() =~= e0.push((key@, desc@)));
        }
    }

    /// Looks a key up: the index of its entry, or nothing when no
    /// operation is listed under it.
    pub fn find(&self, key: &String) -> (r: Option<usize>)
        ensures
            match r {
                Some(i) => i < self.entries().len() && self.entries()[i as int].0 == key@,
                None => forall|j: int|
                    0 <= j < self.entries().len() ==> (#[trigger] self.entries()[j]).0 != key@,
            },
    {
        let mut i: usize = 0;
        while i < self.entries.len()
            invariant
                i <= self.entries@.len(),
                forall|j: int| 0 <= j < i ==> (#[trigger] self.entries()[j]).0 != key@,
            decreases self.entries@.len() - i,
        {
            if self.entries[i].0 == *key {
                proof {
                    assert(self.entries()[i as int].0 == key@);
                }
                return Some(i);
            }
            i = i + 1;
        }
        None
    }

    /// How many operations are listed.
    pub fn len(&self) -> (r: usize)
        ensures
            r == self.entries().len(),
    {
        self.entries.len()
    }

    /// The description of the entry at an index.
    pub fn description(&self, i: usize) -> (r: &String)
        requires
            i < self.entries().len(),
        ensures
            r@ == self.entries()[i as int].1,
    {
        &self.entries[i].1
    }

    /// The key of the entry at an index.
    pub fn key(&self, i: usize) -> (r: &String)
        requires
            i < self.entries().len(),
        ensures
            r@ == self.entries()[i as int].0,
    {
        &self.entries[i].0
    }

    /// The header line.
    pub fn header(&self) -> (r: &String)
        ensures
            r@ == self.spec_header(),
    {
        &self.header
    }
}

/// When the entries before `k` miss the key and entry `k` holds it,
/// `k` is where the table keeps that key.
proof fn lemma_menu_find_hit(entries: Seq<(Seq<char>, Seq<char>)>, key: Seq<char>, k: int)
    requires
        0 <= k < entries.len(),
        entries[k].0 == key,
        forall|j: int| 0 <= j < k ==> (#[trigger] entries[j]).0 != key,
    ensures
        menu_find(entries, key) == k,
    decreases entries.len(),
{
    if k > 0 {
        assert(entries[0].0 != key);
        assert(entries.drop_first()[k - 1].0 == key);
        assert forall|j: int| 0 <= j < k - 1 implies (#[trigger] entries.drop_first()[j]).0
            != key by {
            assert(entries[j + 1].0 != key);
        }
        lemma_menu_find_hit(entries.drop_first(), key, k - 1);
    }
}

/// When no entry holds the key, the find lands at the table's length.
proof fn lemma_menu_find_miss(entries: Seq<(Seq<char>, Seq<char>)>, key: Seq<char>)
    requires
        forall|j: int| 0 <= j < entries.len() ==> (#[trigger] entries[j]).0 != key,
    ensures
        menu_find(entries, key) == entries.len(),
    decreases entries.len(),
{
    if entries.len() > 0 {
        lemma_menu_find_miss(entries.drop_first(), key);
    }
}

} // verus!
