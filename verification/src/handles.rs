//! The handle table: a mapping from inode number to an open cache-file
//! descriptor with a reference count, coalescing repeated open/release pairs
//! on the same inode. The descriptor type is a parameter; the table never
//! looks inside it.

use vstd::prelude::*;
use vstd::map::*;

verus! {

/// A descriptor with its open-count (always at least 1 while present).
pub struct FileHandle<D> {
    pub file: D,
    pub count: u64,
}

/// Inode number to handle; keys unique, counts positive.
pub struct HandleTable<D> {
    pub entries: Vec<(u64, FileHandle<D>)>,
}

/// The table after one more open of an already-open inode.
pub open spec fn spec_bump<D>(m: Map<u64, (D, u64)>, ino: u64) -> Map<u64, (D, u64)>
    recommends
        m.contains_key(ino),
        m[ino].1 < u64::MAX,
{
    m.insert(ino, (m[ino].0, (m[ino].1 + 1) as u64))
}

/// The table after the first open of `ino` with fresh descriptor `d`.
pub open spec fn spec_insert<D>(m: Map<u64, (D, u64)>, ino: u64, d: D) -> Map<u64, (D, u64)> {
    m.insert(ino, (d, 1u64))
}

/// The table after one release of `ino`: the entry leaves when its count
/// falls to zero and stays (same descriptor) otherwise.
pub open spec fn spec_release<D>(m: Map<u64, (D, u64)>, ino: u64) -> Map<u64, (D, u64)>
    recommends
        m.contains_key(ino),
{
    if m[ino].1 <= 1 {
        m.remove(ino)
    } else {
        m.insert(ino, (m[ino].0, (m[ino].1 - 1) as u64))
    }
}

impl<D> HandleTable<D> {
    /// The table as a map from inode to (descriptor, open-count).
    pub open spec fn m(self) -> Map<u64, (D, u64)> {
        Map::new(
            |k: u64|
                exists|j: int|
                    0 <= j < self.entries@.len() && (#[trigger] self.entries@[j]).0 == k,
            |k: u64|
                {
                    let j = choose|j: int|
                        0 <= j < self.entries@.len() && (#[trigger] self.entries@[j]).0 == k;
                    (self.entries@[j].1.file, self.entries@[j].1.count)
                },
        )
    }

    pub open spec fn wf(self) -> bool {
        &&& forall|j1: int, j2: int|
            0 <= j1 < j2 < self.entries@.len() ==> (#[trigger] self.entries@[j1]).0 != (
            #[trigger] self.entries@[j2]).0
        &&& forall|j: int|
            0 <= j < self.entries@.len() ==> (#[trigger] self.entries@[j]).1.count >= 1
    }

    pub fn new() -> (r: HandleTable<D>)
        ensures
            r.wf(),
            r.m() =~= Map::<u64, (D, u64)>::empty(),
    {
        HandleTable { entries: Vec::new() }
    }

    /// Index of the entry for `ino`, when present.
    fn find(&self, ino: u64) -> (r: Option<usize>)
        requires
            self.wf(),
        ensures
            match r {
                Some(j) => j < self.entries@.len() && self.entries@[j as int].0 == ino
                    && self.m().contains_key(ino) && self.m()[ino] == (
                self.entries@[j as int].1.file,
                self.entries@[j as int].1.count,
                ),
                None => !self.m().contains_key(ino),
            },
    {
        let n = self.entries.len();
        let mut j: usize = 0;
        while j < n
            invariant
                n == self.entries@.len(),
                j <= n,
                self.wf(),
                forall|k: int| 0 <= k < j ==> (#[trigger] self.entries@[k]).0 != ino,
            decreases n - j,
        {
            if self.entries[j].0 == ino {
                proof {
                    let w = choose|w: int|
                        0 <= w < self.entries@.len() && (#[trigger] self.entries@[w]).0 == ino;
                    if w != j {
                        assert(self.entries@[w].0 != self.entries@[j as int].0);
                    }
                }
                return Some(j);
            }
            j += 1;
        }
        None
    }

    pub fn contains(&self, ino: u64) -> (r: bool)
        requires
            self.wf(),
        ensures
            r == self.m().contains_key(ino),
    {
        self.find(ino).is_some()
    }

    /// The open-count held for `ino`; 0 when absent.
    pub fn count_of(&self, ino: u64) -> (r: u64)
        requires
            self.wf(),
        ensures
            r == if self.m().contains_key(ino) {
                self.m()[ino].1
            } else {
                0u64
            },
    {
        match self.find(ino) {
            None => 0,
            Some(j) => self.entries[j].1.count,
        }
    }

    /// Number of inodes currently held open.
    pub fn len(&self) -> (r: usize)
        requires
            self.wf(),
        ensures
            r == self.m().dom().len(),
    {
        proof {
            self.lemma_dom_len();
        }
        self.entries.len()
    }

    /// The distinct keys are exactly the entries.
    proof fn lemma_dom_len(self)
        requires
            self.wf(),
        ensures
            self.m().dom().len() == self.entries@.len(),
    {
        lemma_keys_len(self.entries@);
        assert(self.m().dom() =~= keys_of(self.entries@));
    }

    /// One more open of an already-open inode: bump its count, reuse the
    /// descriptor. Returns whether an entry existed; the table is unchanged
    /// otherwise.
    pub fn bump(&mut self, ino: u64) -> (r: bool)
        requires
            old(self).wf(),
            old(self).m().contains_key(ino) ==> old(self).m()[ino].1 < u64::MAX,
        ensures
            final(self).wf(),
            r == old(self).m().contains_key(ino),
            r ==> final(self).m() == spec_bump(old(self).m(), ino),
            !r ==> *final(self) == *old(self),
    {
        let j = match self.find(ino) {
            None => { return false; },
            Some(j) => j,
        };
        let e = &mut self.entries[j];
        e.1.count = e.1.count + 1;
        proof {
            self.lemma_point_update(*old(self), j as int);
            assert(final(self).m() =~= spec_bump(old(self).m(), ino));
        }
        true
    }

    /// After updating slot `j` in place (same inode key), the map changes
    /// only at that key.
    proof fn lemma_point_update(self, prev: HandleTable<D>, j: int)
        requires
            prev.wf(),
            0 <= j < prev.entries@.len(),
            self.entries@.len() == prev.entries@.len(),
            self.entries@[j].0 == prev.entries@[j].0,
            forall|k: int| 0 <= k < prev.entries@.len() && k != j ==> self.entries@[k] == prev.entries@[k],
        ensures
            self.wf() || !(forall|k: int|
                0 <= k < self.entries@.len() ==> (#[trigger] self.entries@[k]).1.count >= 1),
            self.m().dom() =~= prev.m().dom(),
            forall|k: u64|
                prev.m().contains_key(k) && k != prev.entries@[j].0 ==> self.m()[k]
                    == prev.m()[k],
            self.m().contains_key(prev.entries@[j].0),
            self.m()[prev.entries@[j].0] == (self.entries@[j].1.file, self.entries@[j].1.count),
    {
        assert forall|j1: int, j2: int| 0 <= j1 < j2 < self.entries@.len() implies (
        #[trigger] self.entries@[j1]).0 != (#[trigger] self.entries@[j2]).0 by {
            assert(prev.entries@[j1].0 != prev.entries@[j2].0);
            assert(self.entries@[j1].0 == prev.entries@[j1].0);
            assert(self.entries@[j2].0 == prev.entries@[j2].0);
        }
        assert forall|k: u64| prev.m().contains_key(k) implies self.m().contains_key(k) by {
            let w = choose|w: int|
                0 <= w < prev.entries@.len() && (#[trigger] prev.entries@[w]).0 == k;
            assert(self.entries@[w].0 == k);
        }
        assert forall|k: u64| self.m().contains_key(k) implies prev.m().contains_key(k) by {
            let w = choose|w: int|
                0 <= w < self.entries@.len() && (#[trigger] self.entries@[w]).0 == k;
            assert(prev.entries@[w].0 == k);
        }
        assert forall|k: u64|
            prev.m().contains_key(k) && k != prev.entries@[j].0 implies self.m()[k]
            == prev.m()[k] by {
            let w1 = choose|w: int|
                0 <= w < self.entries@.len() && (#[trigger] self.entries@[w]).0 == k;
            let w2 = choose|w: int|
                0 <= w < prev.entries@.len() && (#[trigger] prev.entries@[w]).0 == k;
            if w1 != w2 {
                assert(prev.entries@[w1].0 != prev.entries@[w2].0 || w1 == j || w2 == j);
            }
        }
        let key = prev.entries@[j].0;
        let w = choose|w: int|
            0 <= w < self.entries@.len() && (#[trigger] self.entries@[w]).0 == key;
        if w != j {
            assert(prev.entries@[w].0 != prev.entries@[j].0);
        }
    }

    /// First open of `ino`: install the fresh descriptor with count 1.
    pub fn insert(&mut self, ino: u64, d: D)
        requires
            old(self).wf(),
            !old(self).m().contains_key(ino),
        ensures
            final(self).wf(),
            final(self).m() == spec_insert(old(self).m(), ino, d),
    {
        self.entries.push((ino, FileHandle { file: d, count: 1 }));
        proof {
            let prev = *old(self);
            let n = prev.entries@.len() as int;
            assert forall|j1: int, j2: int| 0 <= j1 < j2 < self.entries@.len() implies (
            #[trigger] self.entries@[j1]).0 != (#[trigger] self.entries@[j2]).0 by {
                if j2 < n {
                    assert(prev.entries@[j1].0 != prev.entries@[j2].0);
                } else {
                    if self.entries@[j1].0 == ino {
                        assert(prev.entries@[j1].0 == ino);
                    }
                }
            }
            assert_maps_equal!(self.m(), spec_insert(prev.m(), ino, d), k => {
                if k == ino {
                    assert(self.entries@[n].0 == k);
                    assert(self.m().contains_key(k));
                    let w = choose|w: int|
                        0 <= w < self.entries@.len() && (#[trigger] self.entries@[w]).0 == k;
                    if w != n {
                        assert(prev.entries@[w].0 == ino);
                    }
                    assert(self.m()[k] == (d, 1u64));
                } else {
                    if self.m().contains_key(k) {
                        let w = choose|w: int|
                            0 <= w < self.entries@.len() && (#[trigger] self.entries@[w]).0 == k;
                        assert(w < n);
                        assert(prev.entries@[w].0 == k);
                        assert(prev.m().contains_key(k));
                        let w2 = choose|w2: int|
                            0 <= w2 < prev.entries@.len() && (#[trigger] prev.entries@[w2]).0
                                == k;
                        if w2 != w {
                            assert(prev.entries@[w2].0 != prev.entries@[w].0);
                        }
                        assert(self.m()[k] == prev.m()[k]);
                    }
                    if prev.m().contains_key(k) {
                        let w = choose|w: int|
                            0 <= w < prev.entries@.len() && (#[trigger] prev.entries@[w]).0 == k;
                        assert(self.entries@[w].0 == k);
                        assert(self.m().contains_key(k));
                    }
                }
            });
        }
    }

    /// Borrow the descriptor held for `ino`.
    pub fn get(&self, ino: u64) -> (r: Option<&D>)
        requires
            self.wf(),
        ensures
            match r {
                Some(d) => self.m().contains_key(ino) && *d == self.m()[ino].0,
                None => !self.m().contains_key(ino),
            },
    {
        match self.find(ino) {
            None => None,
            Some(j) => Some(&self.entries[j].1.file),
        }
    }

    /// One release of `ino`: decrement; drop the entry (and its descriptor)
    /// when the count reaches zero. `false` iff no entry was held, in which
    /// case the table is unchanged.
    pub fn release(&mut self, ino: u64) -> (r: bool)
        requires
            old(self).wf(),
        ensures
            final(self).wf(),
            r == old(self).m().contains_key(ino),
            r ==> final(self).m() == spec_release(old(self).m(), ino),
            !r ==> *final(self) == *old(self),
    {
        let j = match self.find(ino) {
            None => { return false; },
            Some(j) => j,
        };
        let count = self.entries[j].1.count;
        if count <= 1 {
            let ghost prev = *self;
            let _ = self.entries.swap_remove(j);
            proof {
                let n = prev.entries@.len() as int;
                assert(self.entries@ =~= prev.entries@.update(
                    j as int,
                    prev.entries@[n - 1],
                ).drop_last());
                assert forall|j1: int, j2: int| 0 <= j1 < j2 < self.entries@.len() implies (
                #[trigger] self.entries@[j1]).0 != (#[trigger] self.entries@[j2]).0 by {
                    let a1: int = if j1 == j { n - 1 } else { j1 };
                    let a2: int = if j2 == j { n - 1 } else { j2 };
                    assert(self.entries@[j1] == prev.entries@[a1]);
                    assert(self.entries@[j2] == prev.entries@[a2]);
                    assert(prev.entries@[a1].0 != prev.entries@[a2].0);
                }
                assert forall|k: u64| self.m().contains_key(k) implies spec_release(
                    prev.m(),
                    ino,
                ).contains_key(k) && self.m()[k] == spec_release(prev.m(), ino)[k] by {
                    let w = choose|w: int|
                        0 <= w < self.entries@.len() && (#[trigger] self.entries@[w]).0 == k;
                    let a: int = if w == j { n - 1 } else { w };
                    assert(prev.entries@[a].0 == k);
                    if k == ino {
                        assert(prev.entries@[a].0 != prev.entries@[j as int].0 || a == j);
                        assert(false);
                    }
                    let w2 = choose|w2: int|
                        0 <= w2 < prev.entries@.len() && (#[trigger] prev.entries@[w2]).0 == k;
                    if w2 != a {
                        assert(prev.entries@[w2].0 != prev.entries@[a].0);
                    }
                }
                assert forall|k: u64| spec_release(prev.m(), ino).contains_key(k) implies
                    self.m().contains_key(k) by {
                    let w = choose|w: int|
                        0 <= w < prev.entries@.len() && (#[trigger] prev.entries@[w]).0 == k;
                    assert(w != j);
                    let a: int = if w == n - 1 { j as int } else { w };
                    assert(self.entries@[a].0 == k);
                }
                assert(self.m() =~= spec_release(prev.m(), ino));
            }
        } else {
            let e = &mut self.entries[j];
            e.1.count = e.1.count - 1;
            proof {
                self.lemma_point_update(*old(self), j as int);
                assert(final(self).m() =~= spec_release(old(self).m(), ino));
            }
        }
        true
    }
}

/// The set of inode keys among a run of entry pairs.
spec fn keys_of<D>(s: Seq<(u64, FileHandle<D>)>) -> Set<u64> {
    Set::new(|k: u64| exists|j: int| 0 <= j < s.len() && (#[trigger] s[j]).0 == k)
}

/// With pairwise distinct keys, the key set is as large as the run.
proof fn lemma_keys_len<D>(s: Seq<(u64, FileHandle<D>)>)
    requires
        forall|j1: int, j2: int| 0 <= j1 < j2 < s.len() ==> (#[trigger] s[j1]).0 != (#[trigger] s[j2]).0,
    ensures
        keys_of(s).finite(),
        keys_of(s).len() == s.len(),
    decreases s.len(),
{
    if s.len() == 0 {
        assert(keys_of(s) =~= Set::<u64>::empty());
    } else {
        let short = s.drop_last();
        lemma_keys_len(short);
        let last = s[s.len() - 1].0;
        assert(!keys_of(short).contains(last)) by {
            if keys_of(short).contains(last) {
                let w = choose|w: int| 0 <= w < short.len() && (#[trigger] short[w]).0 == last;
                assert(s[w].0 != s[s.len() - 1].0);
            }
        }
        assert(keys_of(s) =~= keys_of(short).insert(last)) by {
            assert forall|k: u64| keys_of(s).contains(k) implies keys_of(short).insert(
                last,
            ).contains(k) by {
                let w = choose|w: int| 0 <= w < s.len() && (#[trigger] s[w]).0 == k;
                if w < s.len() - 1 {
                    assert(short[w].0 == k);
                }
            }
            assert forall|k: u64| keys_of(short).insert(last).contains(k) implies keys_of(
                s,
            ).contains(k) by {
                if k == last {
                    assert(s[s.len() - 1].0 == k);
                } else {
                    let w = choose|w: int| 0 <= w < short.len() && (#[trigger] short[w]).0 == k;
                    assert(s[w].0 == k);
                }
            }
        }
        vstd::set::axiom_set_insert_len(keys_of(short), last);
    }
}

/// Law: after `1 + n` opens of one inode (one fresh open, then `n` bumped
/// reopens) followed by `1 + n` releases, the table holds no entry for that
/// inode and is exactly what it was; and throughout, from the first open to
/// the last release, the one descriptor installed by the first open is the
/// one held — exactly one descriptor is created and destroyed.
pub proof fn lemma_balanced_open_release<D>(m: Map<u64, (D, u64)>, ino: u64, d: D, n: nat)
    requires
        !m.contains_key(ino),
        n + 1 <= u64::MAX,
    ensures
        release_n(bump_n(spec_insert(m, ino, d), ino, n), ino, n + 1) == m,
        forall|j: nat|
            j <= n ==> {
                &&& (#[trigger] release_n(bump_n(spec_insert(m, ino, d), ino, n), ino, j)).contains_key(ino)
                &&& release_n(bump_n(spec_insert(m, ino, d), ino, n), ino, j)[ino].0 == d
                &&& release_n(bump_n(spec_insert(m, ino, d), ino, n), ino, j)[ino].1 == n + 1 - j
            },
{
    let opened = bump_n(spec_insert(m, ino, d), ino, n);
    lemma_bump_n(spec_insert(m, ino, d), ino, n);
    assert forall|k: u64| k != ino implies opened.contains_key(k) == m.contains_key(k) by {
        assert(spec_insert(m, ino, d).contains_key(k) == m.contains_key(k));
        assert(bump_n(spec_insert(m, ino, d), ino, n).contains_key(k) == spec_insert(
            m,
            ino,
            d,
        ).contains_key(k));
    }
    assert forall|k: u64| k != ino && m.contains_key(k) implies opened[k] == m[k] by {
        assert(spec_insert(m, ino, d)[k] == m[k]);
        assert(bump_n(spec_insert(m, ino, d), ino, n)[k] == spec_insert(m, ino, d)[k]);
    }
    assert forall|j: nat| j <= n implies {
        &&& (#[trigger] release_n(opened, ino, j)).contains_key(ino)
        &&& release_n(opened, ino, j)[ino].0 == d
        &&& release_n(opened, ino, j)[ino].1 == n + 1 - j
        &&& forall|k: u64| k != ino ==> release_n(opened, ino, j).contains_key(k) == m.contains_key(k)
        &&& forall|k: u64| k != ino && m.contains_key(k) ==> release_n(opened, ino, j)[k] == m[k]
    } by {
        lemma_release_n(opened, ino, d, m, n, j);
    }
    lemma_release_n(opened, ino, d, m, n, n);
    assert(release_n(opened, ino, n + 1) == spec_release(release_n(opened, ino, n), ino));
    assert(release_n(opened, ino, n + 1) =~= m);
}

/// `n` successive bumped reopens.
pub open spec fn bump_n<D>(m: Map<u64, (D, u64)>, ino: u64, n: nat) -> Map<u64, (D, u64)>
    decreases n,
{
    if n == 0 {
        m
    } else {
        spec_bump(bump_n(m, ino, (n - 1) as nat), ino)
    }
}

/// `n` successive releases.
pub open spec fn release_n<D>(m: Map<u64, (D, u64)>, ino: u64, n: nat) -> Map<u64, (D, u64)>
    decreases n,
{
    if n == 0 {
        m
    } else {
        spec_release(release_n(m, ino, (n - 1) as nat), ino)
    }
}

proof fn lemma_bump_n<D>(m: Map<u64, (D, u64)>, ino: u64, n: nat)
    requires
        m.contains_key(ino),
        m[ino].1 + n <= u64::MAX,
    ensures
        bump_n(m, ino, n).contains_key(ino),
        bump_n(m, ino, n)[ino].0 == m[ino].0,
        bump_n(m, ino, n)[ino].1 == m[ino].1 + n,
        forall|k: u64| k != ino ==> bump_n(m, ino, n).contains_key(k) == m.contains_key(k),
        forall|k: u64| k != ino && m.contains_key(k) ==> bump_n(m, ino, n)[k] == m[k],
    decreases n,
{
    if n > 0 {
        lemma_bump_n(m, ino, (n - 1) as nat);
    }
}

/// After `j <= n` releases of an inode opened `n + 1` times above `m`, the
/// entry still holds the original descriptor with count `n + 1 - j`, and no
/// other key moved.
proof fn lemma_release_n<D>(
    opened: Map<u64, (D, u64)>,
    ino: u64,
    d: D,
    m: Map<u64, (D, u64)>,
    n: nat,
    j: nat,
)
    requires
        j <= n,
        opened.contains_key(ino),
        opened[ino].0 == d,
        opened[ino].1 == n + 1,
        forall|k: u64| k != ino ==> opened.contains_key(k) == m.contains_key(k),
        forall|k: u64| k != ino && m.contains_key(k) ==> opened[k] == m[k],
    ensures
        release_n(opened, ino, j).contains_key(ino),
        release_n(opened, ino, j)[ino].0 == d,
        release_n(opened, ino, j)[ino].1 == n + 1 - j,
        forall|k: u64|
            k != ino ==> release_n(opened, ino, j).contains_key(k) == m.contains_key(k),
        forall|k: u64| k != ino && m.contains_key(k) ==> release_n(opened, ino, j)[k] == m[k],
    decreases j,
{
    if j > 0 {
        lemma_release_n(opened, ino, d, m, n, (j - 1) as nat);
    }
}

} // verus!
