//! The in-memory index: for each live key, where its latest `Set` record lies.
use vstd::prelude::*;

verus! {

/// Where a record lies: its segment, its offset there and its length in bytes.
#[derive(Debug, Clone, Copy, PartialEq, Eq, Structural)]
pub struct CommandPos {
    pub gen: u64,
    pub pos: u64,
    pub len: u64,
}

impl From<(u64, u64, u64)> for CommandPos {
    fn from(t: (u64, u64, u64)) -> (r: CommandPos) {
        CommandPos { gen: t.0, pos: t.1, len: t.2 }
    }
}

impl vstd::std_specs::convert::FromSpecImpl<(u64, u64, u64)> for CommandPos {
    open spec fn obeys_from_spec() -> bool {
        true
    }

    open spec fn from_spec(t: (u64, u64, u64)) -> CommandPos {
        CommandPos { gen: t.0, pos: t.1, len: t.2 }
    }
}

/// The total length of the records at `locs`.
pub open spec fn sum_lens(locs: Seq<CommandPos>) -> int
    decreases locs.len(),
{
    if locs.len() == 0 {
        0
    } else {
        sum_lens(locs.drop_last()) + locs.last().len
    }
}

pub proof fn lemma_sum_lens_prefix(locs: Seq<CommandPos>, i: int)
    requires
        0 <= i <= locs.len(),
    ensures
        0 <= sum_lens(locs.take(i)) <= sum_lens(locs),
    decreases locs.len() - i,
{
    if i < locs.len() {
        lemma_sum_lens_prefix(locs, i + 1);
        assert(locs.take(i + 1).drop_last() =~= locs.take(i));
    } else {
        assert(locs.take(i) =~= locs);
    }
    lemma_sum_lens_nonneg(locs.take(i));
}

pub proof fn lemma_sum_lens_nonneg(locs: Seq<CommandPos>)
    ensures
        sum_lens(locs) >= 0,
    decreases locs.len(),
{
    if locs.len() > 0 {
        lemma_sum_lens_nonneg(locs.drop_last());
    }
}

pub proof fn lemma_sum_lens_update(locs: Seq<CommandPos>, i: int, x: CommandPos)
    requires
        0 <= i < locs.len(),
    ensures
        sum_lens(locs.update(i, x)) == sum_lens(locs) - locs[i].len + x.len,
    decreases locs.len(),
{
    if i < locs.len() - 1 {
        lemma_sum_lens_update(locs.drop_last(), i, x);
        assert(locs.update(i, x).drop_last() =~= locs.drop_last().update(i, x));
    } else {
        assert(locs.update(i, x).drop_last() =~= locs.drop_last());
    }
}

proof fn lemma_sum_lens_push(locs: Seq<CommandPos>, x: CommandPos)
    ensures
        sum_lens(locs.push(x)) == sum_lens(locs) + x.len,
{
    assert(locs.push(x).drop_last() =~= locs);
}

/// The value that `m` holds for `k`, if any.
pub open spec fn lookup<K, V>(m: Map<K, V>, k: K) -> Option<V> {
    if m.contains_key(k) {
        Some(m[k])
    } else {
        None
    }
}

pub(crate) struct IndexEntry {
    pub key: String,
    pub loc: CommandPos,
}

/// A map from keys to locations, kept as a vector of entries with distinct
/// keys; the order of the entries is the order compaction copies them in.
pub(crate) struct KeyIndex {
    pub(crate) entries: Vec<IndexEntry>,
    pub(crate) map: Ghost<Map<Seq<char>, CommandPos>>,
}

impl View for KeyIndex {
    type V = Map<Seq<char>, CommandPos>;

    closed spec fn view(&self) -> Map<Seq<char>, CommandPos> {
        self.map@
    }
}

impl KeyIndex {
    /// The key of the `i`-th entry.
    pub(crate) open spec fn key_at(&self, i: int) -> Seq<char> {
        self.entries@[i].key@
    }

    /// The location of each entry, in order.
    pub(crate) open spec fn locs(&self) -> Seq<CommandPos> {
        Seq::new(self.entries@.len(), |j: int| self.entries@[j].loc)
    }

    /// The total length of the live records.
    pub(crate) open spec fn live_len(&self) -> int {
        sum_lens(self.locs())
    }

    pub(crate) open spec fn wf(&self) -> bool {
        &&& forall|i: int|
            #![trigger self.entries@[i]]
            0 <= i < self.entries@.len() ==> self@.contains_key(self.key_at(i)) && self@[self.key_at(
                i,
            )] == self.entries@[i].loc
        &&& forall|k: Seq<char>|
            #[trigger] self@.contains_key(k) ==> exists|i: int|
                0 <= i < self.entries@.len() && self.key_at(i) == k
        &&& forall|i: int, j: int|
            0 <= i < j < self.entries@.len() ==> self.key_at(i) != self.key_at(j)
    }

    /// An empty index.
    pub(crate) fn new() -> (r: KeyIndex)
        ensures
            r.wf(),
            r@ == Map::<Seq<char>, CommandPos>::empty(),
            r.entries@.len() == 0,
    {
        KeyIndex { entries: Vec::new(), map: Ghost(Map::empty()) }
    }

    /// The number of keys.
    pub(crate) fn len(&self) -> (r: usize)
        ensures
            r == self.entries@.len(),
    {
        self.entries.len()
    }

    fn find(&self, key: &String) -> (r: Option<usize>)
        requires
            self.wf(),
        ensures
            match r {
                Some(i) => i < self.entries@.len() && self.key_at(i as int) == key@,
                None => !self@.contains_key(key@),
            },
    {
        let mut i: usize = 0;
        while i < self.entries.len()
            invariant
                i <= self.entries@.len(),
                forall|j: int| 0 <= j < i ==> self.key_at(j) != key@,
            decreases self.entries@.len() - i,
        {
            if self.entries[i].key.eq(key) {
                return Some(i);
            }
            i = i + 1;
        }
        None
    }

    /// Where the record of `key` lies, if the key is live.
    pub(crate) fn get(&self, key: &String) -> (r: Option<CommandPos>)
        requires
            self.wf(),
        ensures
            r == lookup(self@, key@),
    {
        match self.find(key) {
            Some(i) => Some(self.entries[i].loc),
            None => None,
        }
    }

    /// Points `key` at `loc`; returns where it pointed before.
    pub(crate) fn insert(&mut self, key: String, loc: CommandPos) -> (r: Option<CommandPos>)
        requires
            old(self).wf(),
        ensures
            final(self).wf(),
            final(self)@ == old(self)@.insert(key@, loc),
            r == lookup(old(self)@, key@),
            final(self).live_len() == old(self).live_len() + loc.len - match r {
                Some(l) => l.len as int,
                None => 0,
            },
    {
        let ghost k = key@;
        match self.find(&key) {
            Some(i) => {
                let prev = self.entries[i].loc;
                let ghost old_entries = self.entries@;
                let ghost old_locs = self.locs();
                self.entries.set(i, IndexEntry { key, loc });
                self.map = Ghost(self.map@.insert(k, loc));
                proof {
                    assert(self.locs() =~= old_locs.update(i as int, loc));
                    lemma_sum_lens_update(old_locs, i as int, loc);
                    assert forall|j: int| 0 <= j < self.entries@.len() implies self.key_at(j)
                        == old_entries[j].key@ by {}
                    assert forall|kk: Seq<char>| #[trigger]
                        self@.contains_key(kk) implies exists|j: int|
                        0 <= j < self.entries@.len() && self.key_at(j) == kk by {
                        if kk != k {
                            let j = choose|j: int|
                                0 <= j < old_entries.len() && old_entries[j].key@ == kk;
                            assert(self.key_at(j) == kk);
                        } else {
                            assert(self.key_at(i as int) == kk);
                        }
                    }
                }
                Some(prev)
            },
            None => {
                let ghost old_entries = self.entries@;
                let ghost old_locs = self.locs();
                self.entries.push(IndexEntry { key, loc });
                self.map = Ghost(self.map@.insert(k, loc));
                proof {
                    assert(self.locs() =~= old_locs.push(loc));
                    lemma_sum_lens_push(old_locs, loc);
                    let n = old_entries.len() as int;
                    assert(self.key_at(n) == k);
                    assert forall|j: int| 0 <= j < n implies self.key_at(j)
                        == old_entries[j].key@ by {}
                    assert forall|kk: Seq<char>| #[trigger]
                        self@.contains_key(kk) implies exists|j: int|
                        0 <= j < self.entries@.len() && self.key_at(j) == kk by {
                        if kk != k {
                            let j = choose|j: int|
                                0 <= j < old_entries.len() && old_entries[j].key@ == kk;
                            assert(self.key_at(j) == kk);
                        }
                    }
                }
                None
            },
        }
    }

    /// Drops `key`; returns where it pointed.
    pub(crate) fn remove(&mut self, key: &String) -> (r: Option<CommandPos>)
        requires
            old(self).wf(),
        ensures
            final(self).wf(),
            final(self)@ == old(self)@.remove(key@),
            r == lookup(old(self)@, key@),
            final(self).live_len() == old(self).live_len() - match r {
                Some(l) => l.len as int,
                None => 0,
            },
    {
        match self.find(key) {
            Some(i) => {
                let ghost old_entries = self.entries@;
                let ghost n = old_entries.len() as int;
                let ghost old_locs = self.locs();
                let e = self.entries.swap_remove(i);
                self.map = Ghost(self.map@.remove(key@));
                proof {
                    let last = old_locs[n - 1];
                    assert(self.locs() =~= old_locs.update(i as int, last).drop_last());
                    lemma_sum_lens_update(old_locs, i as int, last);
                    assert(old_locs.update(i as int, last).last() == last);
                    assert forall|j: int| 0 <= j < self.entries@.len() implies self.key_at(j) == (
                    if j == i {
                        old_entries[n - 1].key@
                    } else {
                        old_entries[j].key@
                    }) by {}
                    assert forall|kk: Seq<char>| #[trigger]
                        self@.contains_key(kk) implies exists|j: int|
                        0 <= j < self.entries@.len() && self.key_at(j) == kk by {
                        let j = choose|j: int|
                            0 <= j < old_entries.len() && old_entries[j].key@ == kk;
                        if j == n - 1 && (i as int) < n - 1 {
                            assert(self.key_at(i as int) == kk);
                        } else {
                            assert(j != i);
                            assert(self.key_at(j) == kk);
                        }
                    }
                }
                Some(e.loc)
            },
            None => {
                assert(self.map@.remove(key@) =~= self.map@);
                None
            },
        }
    }

    /// The location held by the `i`-th entry.
    pub(crate) fn loc_at(&self, i: usize) -> (r: CommandPos)
        requires
            self.wf(),
            i < self.entries@.len(),
        ensures
            r == self.entries@[i as int].loc,
            r == self@[self.key_at(i as int)],
    {
        self.entries[i].loc
    }

    /// Points the `i`-th entry at `loc`; the order of the keys stays.
    pub(crate) fn set_loc(&mut self, i: usize, loc: CommandPos)
        requires
            old(self).wf(),
            i < old(self).entries@.len(),
        ensures
            final(self).wf(),
            final(self)@ == old(self)@.insert(old(self).key_at(i as int), loc),
            final(self).entries@.len() == old(self).entries@.len(),
            forall|j: int|
                0 <= j < old(self).entries@.len() ==> final(self).key_at(j) == old(self).key_at(
                    j,
                ),
            final(self).locs() == old(self).locs().update(i as int, loc),
    {
        let ghost k = self.key_at(i as int);
        let ghost old_entries = self.entries@;
        let ghost old_locs = self.locs();
        self.entries[i].loc = loc;
        assert(self.locs() =~= old_locs.update(i as int, loc));
        self.map = Ghost(self.map@.insert(k, loc));
        proof {
            assert forall|j: int| 0 <= j < self.entries@.len() implies self.key_at(j)
                == old_entries[j].key@ by {}
            assert forall|kk: Seq<char>| #[trigger]
                self@.contains_key(kk) implies exists|j: int|
                0 <= j < self.entries@.len() && self.key_at(j) == kk by {
                if kk != k {
                    let j = choose|j: int| 0 <= j < old_entries.len() && old_entries[j].key@ == kk;
                    assert(self.key_at(j) == kk);
                } else {
                    assert(self.key_at(i as int) == kk);
                }
            }
        }
    }
}

} // verus!
