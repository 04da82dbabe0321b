//! The shared key/value state with per-key expiry.
//!
//! `State` is the data behind the store mutex: the key/value entries and
//! the expiration index. The index holds one `(instant, key)` pair for
//! each entry that expires, ordered by instant, so the reaper finds due
//! keys at the front. Instants are milliseconds on the caller's monotonic
//! clock; the store never reads a clock itself.
//!
//! The invariant `inv` carries the index-consistency law: a pair stands
//! in the index exactly when the entry under that key expires at that
//! instant. Every operation preserves it.

use crate::bytes_util::bytes_eq;
use vstd::prelude::*;

verus! {

/// One key/value binding: the payload and the instant it lapses, if any.
struct Entry {
    data: Vec<u8>,
    expires_at: Option<u64>,
}

/// The store state guarded by one mutex.
pub struct State {
    entries: Vec<(Vec<u8>, Entry)>,
    expirations: Vec<(u64, Vec<u8>)>,
    shutdown: bool,
}

/// The map an entry list denotes: key to payload and expiry.
spec fn map_of(s: Seq<(Vec<u8>, Entry)>) -> Map<Seq<u8>, (Seq<u8>, Option<u64>)>
    decreases s.len(),
{
    if s.len() == 0 {
        Map::empty()
    } else {
        map_of(s.drop_last()).insert(
            s.last().0@,
            (s.last().1.data@, s.last().1.expires_at),
        )
    }
}

spec fn unique_keys(s: Seq<(Vec<u8>, Entry)>) -> bool {
    forall|i: int, j: int| 0 <= i < j < s.len() ==> s[i].0@ != s[j].0@
}

spec fn pairs_sorted(p: Seq<(u64, Vec<u8>)>) -> bool {
    forall|i: int, j: int| 0 <= i < j < p.len() ==> p[i].0 <= p[j].0
}

/// Some entry lapses exactly as the pair `x` says.
spec fn pair_covered(s: Seq<(Vec<u8>, Entry)>, x: (u64, Vec<u8>)) -> bool {
    exists|i: int|
        0 <= i < s.len() && (#[trigger] s[i]).0@ == x.1@ && s[i].1.expires_at == Some(x.0)
}

/// Every index pair names an entry that lapses at its instant.
spec fn pairs_covered(s: Seq<(Vec<u8>, Entry)>, p: Seq<(u64, Vec<u8>)>) -> bool {
    forall|j: int| 0 <= j < p.len() ==> pair_covered(s, #[trigger] p[j])
}

/// Some index pair says exactly when the entry `e` lapses.
spec fn entry_indexed(p: Seq<(u64, Vec<u8>)>, e: (Vec<u8>, Entry)) -> bool {
    exists|j: int|
        0 <= j < p.len() && (#[trigger] p[j]).1@ == e.0@ && Some(p[j].0) == e.1.expires_at
}

/// Every entry that lapses has its pair in the index.
spec fn entries_indexed(s: Seq<(Vec<u8>, Entry)>, p: Seq<(u64, Vec<u8>)>) -> bool {
    forall|i: int| 0 <= i < s.len() && (#[trigger] s[i]).1.expires_at is Some
        ==> entry_indexed(p, s[i])
}

/// No two index pairs name the same key.
spec fn pair_keys_unique(p: Seq<(u64, Vec<u8>)>) -> bool {
    forall|j1: int, j2: int| 0 <= j1 < j2 < p.len() ==> p[j1].1@ != p[j2].1@
}

/// The index and the entries name each other exactly.
spec fn pairs_match(s: Seq<(Vec<u8>, Entry)>, p: Seq<(u64, Vec<u8>)>) -> bool {
    &&& pairs_covered(s, p)
    &&& entries_indexed(s, p)
    &&& pair_keys_unique(p)
}

/// A listed entry is in the denoted map, under its own key.
proof fn lemma_map_of_index(s: Seq<(Vec<u8>, Entry)>, i: int)
    requires
        unique_keys(s),
        0 <= i < s.len(),
    ensures
        map_of(s).contains_key(s[i].0@),
        map_of(s)[s[i].0@] == (s[i].1.data@, s[i].1.expires_at),
    decreases s.len(),
{
    if i < s.len() - 1 {
        assert(s.drop_last()[i] == s[i]);
        lemma_map_of_index(s.drop_last(), i);
        assert(s[s.len() - 1].0@ != s[i].0@);
    }
}

/// A key no listed entry bears is not in the denoted map.
proof fn lemma_map_of_absent(s: Seq<(Vec<u8>, Entry)>, k: Seq<u8>)
    requires
        forall|i: int| 0 <= i < s.len() ==> (#[trigger] s[i]).0@ != k,
    ensures
        !map_of(s).contains_key(k),
    decreases s.len(),
{
    if s.len() > 0 {
        assert(forall|i: int| 0 <= i < s.drop_last().len() ==> (#[trigger] s.drop_last()[
            i
        ]).0@ != k);
        lemma_map_of_absent(s.drop_last(), k);
    }
}

/// Every key in the denoted map is borne by some listed entry.
proof fn lemma_map_of_covered(s: Seq<(Vec<u8>, Entry)>, k: Seq<u8>)
    requires
        map_of(s).contains_key(k),
    ensures
        exists|i: int| 0 <= i < s.len() && (#[trigger] s[i]).0@ == k,
    decreases s.len(),
{
    if s.len() > 0 {
        if s.last().0@ != k {
            lemma_map_of_covered(s.drop_last(), k);
            let i = choose|i: int|
                0 <= i < s.drop_last().len() && (#[trigger] s.drop_last()[i]).0@ == k;
            assert(s[i].0@ == k);
        } else {
            assert(s[s.len() - 1].0@ == k);
        }
    }
}

/// Dropping the entry at `i` takes exactly its key out of the map.
proof fn lemma_map_of_remove(s: Seq<(Vec<u8>, Entry)>, i: int)
    requires
        unique_keys(s),
        0 <= i < s.len(),
    ensures
        map_of(s.remove(i)) == map_of(s).remove(s[i].0@),
    decreases s.len(),
{
    let k = s[i].0@;
    if i == s.len() - 1 {
        assert(s.remove(i) =~= s.drop_last());
        assert(forall|j: int| 0 <= j < s.drop_last().len() ==> (#[trigger] s.drop_last()[
            j
        ]).0@ != k);
        lemma_map_of_absent(s.drop_last(), k);
        assert(map_of(s.drop_last()) =~= map_of(s).remove(k));
    } else {
        assert(s.remove(i).drop_last() =~= s.drop_last().remove(i));
        assert(s.drop_last()[i] == s[i]);
        assert(unique_keys(s.drop_last()));
        lemma_map_of_remove(s.drop_last(), i);
        assert(s.remove(i).last() == s.last());
        assert(s.last().0@ != k);
        assert(map_of(s.remove(i)) =~= map_of(s).remove(k));
    }
}


/// Placing a pair at its ordered spot keeps the index ordered.
#[verifier::spinoff_prover]
proof fn lemma_sorted_after_insert(p1: Seq<(u64, Vec<u8>)>, x: (u64, Vec<u8>), j: int)
    requires
        pairs_sorted(p1),
        0 <= j <= p1.len(),
        forall|i: int| 0 <= i < j ==> (#[trigger] p1[i]).0 <= x.0,
        j < p1.len() ==> p1[j].0 > x.0,
    ensures
        pairs_sorted(p1.insert(j, x)),
{
    let p2 = p1.insert(j, x);
    assert forall|a: int, b: int| 0 <= a < b < p2.len() implies p2[a].0 <= p2[b].0 by {
        if a < j && b < j {
        } else if a < j && b == j {
        } else if a < j && b > j {
            assert(p2[b] == p1[b - 1]);
        } else if a == j {
            assert(p2[b] == p1[b - 1]);
            if j < p1.len() {
                assert(p1[j].0 <= p1[b - 1].0);
            }
        } else {
            assert(p2[a] == p1[a - 1]);
            assert(p2[b] == p1[b - 1]);
        }
    }
}

/// After the append and the placing, every index pair still names a
/// lapsing entry.
#[verifier::spinoff_prover]
proof fn lemma_covered_after_insert(
    s: Seq<(Vec<u8>, Entry)>,
    p1: Seq<(u64, Vec<u8>)>,
    x: (u64, Vec<u8>),
    j: int,
)
    requires
        s.len() > 0,
        pairs_covered(s.drop_last(), p1),
        0 <= j <= p1.len(),
        x.1@ == s.last().0@,
        Some(x.0) == s.last().1.expires_at,
    ensures
        pairs_covered(s, p1.insert(j, x)),
{
    let s1 = s.drop_last();
    let p2 = p1.insert(j, x);
    assert forall|jj: int| 0 <= jj < p2.len() implies pair_covered(s, #[trigger] p2[jj]) by {
        if jj == j {
            let w = s.len() - 1;
            assert(0 <= w < s.len() && s[w].0@ == p2[jj].1@ && s[w].1.expires_at == Some(
                p2[jj].0,
            ));
        } else {
            let jo: int = if jj < j {
                jj
            } else {
                jj - 1
            };
            assert(p2[jj] == p1[jo]);
            assert(pair_covered(s1, p1[jo]));
            let io = choose|io: int|
                0 <= io < s1.len() && (#[trigger] s1[io]).0@ == p1[jo].1@ && s1[
                    io
                ].1.expires_at == Some(p1[jo].0);
            assert(s[io] == s1[io]);
            assert(0 <= io < s.len() && s[io].0@ == p2[jj].1@ && s[io].1.expires_at
                == Some(p2[jj].0));
        }
    }
}

/// After the append and the placing, every lapsing entry still has its
/// pair.
#[verifier::spinoff_prover]
proof fn lemma_indexed_after_insert(
    s: Seq<(Vec<u8>, Entry)>,
    p1: Seq<(u64, Vec<u8>)>,
    x: (u64, Vec<u8>),
    j: int,
)
    requires
        s.len() > 0,
        entries_indexed(s.drop_last(), p1),
        0 <= j <= p1.len(),
        x.1@ == s.last().0@,
        Some(x.0) == s.last().1.expires_at,
    ensures
        entries_indexed(s, p1.insert(j, x)),
{
    let s1 = s.drop_last();
    let p2 = p1.insert(j, x);
    assert forall|ii: int|
        0 <= ii < s.len() && (#[trigger] s[ii]).1.expires_at is Some implies entry_indexed(
        p2,
        s[ii],
    ) by {
        if ii == s.len() - 1 {
            assert(p2[j] == x);
            assert(0 <= j < p2.len() && p2[j].1@ == s[ii].0@ && Some(p2[j].0) == s[
                ii
            ].1.expires_at);
        } else {
            assert(s[ii] == s1[ii]);
            assert(entry_indexed(p1, s1[ii]));
            let jo = choose|jo: int|
                0 <= jo < p1.len() && (#[trigger] p1[jo]).1@ == s1[ii].0@ && Some(p1[
                    jo
                ].0) == s1[ii].1.expires_at;
            let nj: int = if jo < j {
                jo
            } else {
                jo + 1
            };
            assert(p2[nj] == p1[jo]);
            assert(0 <= nj < p2.len() && p2[nj].1@ == s[ii].0@ && Some(p2[nj].0) == s[
                ii
            ].1.expires_at);
        }
    }
}

/// Placing a pair with a fresh key keeps the index keys distinct.
#[verifier::spinoff_prover]
proof fn lemma_unique_after_insert(p1: Seq<(u64, Vec<u8>)>, x: (u64, Vec<u8>), j: int)
    requires
        pair_keys_unique(p1),
        0 <= j <= p1.len(),
        forall|jj: int| 0 <= jj < p1.len() ==> (#[trigger] p1[jj]).1@ != x.1@,
    ensures
        pair_keys_unique(p1.insert(j, x)),
{
    let p2 = p1.insert(j, x);
    assert forall|j1: int, j2: int|
        0 <= j1 < j2 < p2.len() implies (#[trigger] p2[j1]).1@ != (#[trigger] p2[
        j2]).1@ by {
        if j1 != j && j2 != j {
            let o1: int = if j1 < j {
                j1
            } else {
                j1 - 1
            };
            let o2: int = if j2 < j {
                j2
            } else {
                j2 - 1
            };
            assert(p2[j1] == p1[o1]);
            assert(p2[j2] == p1[o2]);
        } else if j1 == j {
            assert(p2[j2] == p1[j2 - 1]);
            assert(p2[j1] == x);
        } else {
            assert(p2[j1] == p1[j1]);
            assert(p2[j2] == x);
        }
    }
}

/// Dropping a pair keeps the index ordered, keeps every survivor a pair
/// of the old index, and keeps its keys clear of the dropped pair's key.
#[verifier::spinoff_prover]
proof fn lemma_index_after_remove(p0: Seq<(u64, Vec<u8>)>, j: int)
    requires
        pairs_sorted(p0),
        pair_keys_unique(p0),
        0 <= j < p0.len(),
    ensures
        pairs_sorted(p0.remove(j)),
        pair_keys_unique(p0.remove(j)),
        forall|jj: int|
            0 <= jj < p0.remove(j).len() ==> p0.contains(#[trigger] p0.remove(j)[jj]),
        forall|jj: int|
            0 <= jj < p0.remove(j).len() ==> (#[trigger] p0.remove(j)[jj]).1@ != p0[
                j
            ].1@,
{
    let p1 = p0.remove(j);
    assert forall|jj: int| 0 <= jj < p1.len() implies p0.contains(#[trigger] p1[jj]) && (
    p1[jj]).1@ != p0[j].1@ by {
        if jj < j {
            assert(p1[jj] == p0[jj]);
        } else {
            assert(p1[jj] == p0[jj + 1]);
        }
    }
    assert forall|a: int, b: int| 0 <= a < b < p1.len() implies p1[a].0 <= p1[b].0 by {
        if b < j {
        } else if a < j {
            assert(p1[b] == p0[b + 1]);
        } else {
            assert(p1[a] == p0[a + 1]);
            assert(p1[b] == p0[b + 1]);
        }
    }
    assert forall|j1: int, j2: int|
        0 <= j1 < j2 < p1.len() implies (#[trigger] p1[j1]).1@ != (#[trigger] p1[
        j2]).1@ by {
        let o1: int = if j1 < j {
            j1
        } else {
            j1 + 1
        };
        let o2: int = if j2 < j {
            j2
        } else {
            j2 + 1
        };
        assert(p1[j1] == p0[o1]);
        assert(p1[j2] == p0[o2]);
    }
}

/// Dropping an entry and its own pair keeps index and entries naming
/// each other exactly.
#[verifier::spinoff_prover]
proof fn lemma_match_after_double_remove(
    s0: Seq<(Vec<u8>, Entry)>,
    p0: Seq<(u64, Vec<u8>)>,
    i: int,
    j: int,
)
    requires
        pairs_covered(s0, p0),
        entries_indexed(s0, p0),
        pair_keys_unique(p0),
        unique_keys(s0),
        0 <= i < s0.len(),
        0 <= j < p0.len(),
        p0[j].1@ == s0[i].0@,
    ensures
        pairs_covered(s0.remove(i), p0.remove(j)),
        entries_indexed(s0.remove(i), p0.remove(j)),
{
    let s1 = s0.remove(i);
    let p1 = p0.remove(j);
    assert forall|jj: int| 0 <= jj < p1.len() implies pair_covered(s1, #[trigger] p1[jj]) by {
        let jo: int = if jj < j {
            jj
        } else {
            jj + 1
        };
        assert(p1[jj] == p0[jo]);
        assert(pair_covered(s0, p0[jo]));
        let io = choose|io: int|
            0 <= io < s0.len() && (#[trigger] s0[io]).0@ == p0[jo].1@ && s0[
                io
            ].1.expires_at == Some(p0[jo].0);
        assert(io != i) by {
            if io == i {
                assert(p0[jo].1@ == p0[j].1@);
            }
        }
        let ni: int = if io < i {
            io
        } else {
            io - 1
        };
        assert(s1[ni] == s0[io]);
        assert(0 <= ni < s1.len() && s1[ni].0@ == p1[jj].1@ && s1[ni].1.expires_at
            == Some(p1[jj].0));
    }
    assert forall|ii: int|
        0 <= ii < s1.len() && (#[trigger] s1[ii]).1.expires_at is Some implies entry_indexed(
        p1,
        s1[ii],
    ) by {
        let io: int = if ii < i {
            ii
        } else {
            ii + 1
        };
        assert(s1[ii] == s0[io]);
        assert(entry_indexed(p0, s0[io]));
        let jo = choose|jo: int|
            0 <= jo < p0.len() && (#[trigger] p0[jo]).1@ == s0[io].0@ && Some(p0[jo].0)
                == s0[io].1.expires_at;
        assert(jo != j) by {
            if jo == j {
                assert(s0[io].0@ == s0[i].0@);
                assert(io != i);
            }
        }
        let nj: int = if jo < j {
            jo
        } else {
            jo - 1
        };
        assert(p1[nj] == p0[jo]);
        assert(0 <= nj < p1.len() && p1[nj].1@ == s1[ii].0@ && Some(p1[nj].0) == s1[
            ii
        ].1.expires_at);
    }
}

/// Dropping an entry that does not lapse leaves the index matching the
/// entries; no pair named that entry's key.
#[verifier::spinoff_prover]
proof fn lemma_match_entry_removed(s0: Seq<(Vec<u8>, Entry)>, p0: Seq<(u64, Vec<u8>)>, i: int)
    requires
        pairs_covered(s0, p0),
        entries_indexed(s0, p0),
        unique_keys(s0),
        0 <= i < s0.len(),
        s0[i].1.expires_at is None,
    ensures
        pairs_covered(s0.remove(i), p0),
        entries_indexed(s0.remove(i), p0),
        forall|jj: int| 0 <= jj < p0.len() ==> (#[trigger] p0[jj]).1@ != s0[i].0@,
{
    let s1 = s0.remove(i);
    assert forall|jj: int| 0 <= jj < p0.len() implies (#[trigger] p0[jj]).1@ != s0[
        i
    ].0@ by {
        if p0[jj].1@ == s0[i].0@ {
            assert(pair_covered(s0, p0[jj]));
            let io = choose|io: int|
                0 <= io < s0.len() && (#[trigger] s0[io]).0@ == p0[jj].1@ && s0[
                    io
                ].1.expires_at == Some(p0[jj].0);
            assert(io == i);
        }
    }
    assert forall|jj: int| 0 <= jj < p0.len() implies pair_covered(s1, #[trigger] p0[jj]) by {
        assert(pair_covered(s0, p0[jj]));
        let io = choose|io: int|
            0 <= io < s0.len() && (#[trigger] s0[io]).0@ == p0[jj].1@ && s0[
                io
            ].1.expires_at == Some(p0[jj].0);
        assert(io != i);
        let ni: int = if io < i {
            io
        } else {
            io - 1
        };
        assert(s1[ni] == s0[io]);
        assert(0 <= ni < s1.len() && s1[ni].0@ == p0[jj].1@ && s1[ni].1.expires_at
            == Some(p0[jj].0));
    }
    assert forall|ii: int|
        0 <= ii < s1.len() && (#[trigger] s1[ii]).1.expires_at is Some implies entry_indexed(
        p0,
        s1[ii],
    ) by {
        let io: int = if ii < i {
            ii
        } else {
            ii + 1
        };
        assert(s1[ii] == s0[io]);
        assert(entry_indexed(p0, s0[io]));
    }
}

impl State {
    /// The bindings the store holds: key to payload and expiry instant.
    pub closed spec fn entries(self) -> Map<Seq<u8>, (Seq<u8>, Option<u64>)> {
        map_of(self.entries@)
    }

    /// The expiration index: `(instant, key)` pairs, soonest first.
    pub closed spec fn pairs(self) -> Seq<(u64, Seq<u8>)> {
        self.expirations@.map_values(|p: (u64, Vec<u8>)| (p.0, p.1@))
    }

    /// True once the store is shutting down.
    pub closed spec fn shutting_down(self) -> bool {
        self.shutdown
    }

    /// The instant the next entry lapses, if any entry expires at all.
    pub open spec fn next_due(self) -> Option<u64> {
        if self.pairs().len() == 0 {
            None
        } else {
            Some(self.pairs()[0].0)
        }
    }

    /// Well-formedness: keys are unique, the index is ordered soonest
    /// first, and index pairs and expiring entries name each other
    /// exactly — the index-consistency law.
    pub closed spec fn inv(self) -> bool {
        &&& unique_keys(self.entries@)
        &&& pairs_sorted(self.expirations@)
        &&& pairs_match(self.entries@, self.expirations@)
    }

    /// Index consistency, spoken over the public views: a pair stands in
    /// the index exactly when the entry under its key lapses at its
    /// instant.
    pub proof fn lemma_index_consistent(self)
        requires
            self.inv(),
        ensures
            forall|w: u64, k: Seq<u8>|
                self.pairs().contains((w, k)) <==> (self.entries().contains_key(k)
                    && self.entries()[k].1 == Some(w)),
    {
        let s = self.entries@;
        let p = self.expirations@;
        assert forall|w: u64, k: Seq<u8>|
            self.pairs().contains((w, k)) <==> (self.entries().contains_key(k)
                && self.entries()[k].1 == Some(w)) by {
            if self.pairs().contains((w, k)) {
                let j = choose|j: int|
                    0 <= j < self.pairs().len() && self.pairs()[j] == (w, k);
                assert(p[j].1@ == k && p[j].0 == w);
                assert(pair_covered(s, p[j]));
                let i = choose|i: int|
                    0 <= i < s.len() && (#[trigger] s[i]).0@ == p[j].1@ && s[
                        i
                    ].1.expires_at == Some(p[j].0);
                lemma_map_of_index(s, i);
            }
            if self.entries().contains_key(k) && self.entries()[k].1 == Some(w) {
                lemma_map_of_covered(s, k);
                let i = choose|i: int| 0 <= i < s.len() && (#[trigger] s[i]).0@ == k;
                lemma_map_of_index(s, i);
                assert(s[i].1.expires_at == Some(w));
                assert(entry_indexed(p, s[i]));
                let j = choose|j: int|
                    0 <= j < p.len() && (#[trigger] p[j]).1@ == s[i].0@ && Some(p[j].0)
                        == s[i].1.expires_at;
                assert(self.pairs()[j] == (w, k));
            }
        }
    }

    /// A fresh store: no bindings, nothing due, not shutting down.
    pub fn new() -> (r: State)
        ensures
            r.inv(),
            r.entries() == Map::<Seq<u8>, (Seq<u8>, Option<u64>)>::empty(),
            r.pairs().len() == 0,
            !r.shutting_down(),
    {
        let r = State { entries: Vec::new(), expirations: Vec::new(), shutdown: false };
        proof {
            assert(r.entries@.len() == 0);
            assert(r.entries() =~= Map::<Seq<u8>, (Seq<u8>, Option<u64>)>::empty());
        }
        r
    }

    /// True once `shutdown` has been called.
    pub fn is_shutdown(&self) -> (r: bool)
        ensures
            r == self.shutting_down(),
    {
        self.shutdown
    }

    /// Marks the store as shutting down; the reaper exits on seeing it.
    /// Called once, when the last outside handle on the store goes away.
    pub fn shutdown(&mut self)
        ensures
            final(self).shutting_down(),
            final(self).entries() == old(self).entries(),
            final(self).pairs() == old(self).pairs(),
            old(self).inv() ==> final(self).inv(),
    {
        self.shutdown = true;
    }

    /// The index position of `key` among the entries, if it is bound.
    fn find_entry(&self, key: &[u8]) -> (r: Option<usize>)
        ensures
            match r {
                Some(i) => i < self.entries@.len() && self.entries@[i as int].0@ == key@,
                None => forall|i: int|
                    0 <= i < self.entries@.len() ==> (#[trigger] self.entries@[i]).0@
                        != key@,
            },
    {
        let mut i: usize = 0;
        while i < self.entries.len()
            invariant
                0 <= i <= self.entries@.len(),
                forall|j: int| 0 <= j < i ==> (#[trigger] self.entries@[j]).0@ != key@,
            decreases self.entries@.len() - i,
        {
            if bytes_eq(self.entries[i].0.as_slice(), key) {
                return Some(i);
            }
            i = i + 1;
        }
        None
    }

    /// The value bound to `key`, or nothing. Reading does not test the
    /// clock: an entry past its instant but not yet reaped is still
    /// returned; the reaper, not the reader, enforces expiry.
    pub fn get(&self, key: &[u8]) -> (r: Option<Vec<u8>>)
        requires
            self.inv(),
        ensures
            match r {
                Some(d) => self.entries().contains_key(key@) && self.entries()[key@].0
                    == d@,
                None => !self.entries().contains_key(key@),
            },
    {
        match self.find_entry(key) {
            Some(i) => {
                proof {
                    lemma_map_of_index(self.entries@, i as int);
                }
                Some(vstd::slice::slice_to_vec(self.entries[i].1.data.as_slice()))
            },
            None => {
                proof {
                    lemma_map_of_absent(self.entries@, key@);
                }
                None
            },
        }
    }

    /// The instant the next entry lapses: the front of the index, which
    /// under the invariant is the soonest instant in it — the reaper may
    /// sleep until then without oversleeping any binding.
    pub fn next_expiration(&self) -> (r: Option<u64>)
        ensures
            r == self.next_due(),
            self.inv() ==> (r matches Some(w) ==> forall|j: int|
                0 <= j < self.pairs().len() ==> w <= (#[trigger] self.pairs()[j]).0),
    {
        proof {
            if self.inv() {
                self.lemma_pairs_ordered();
            }
        }
        if self.expirations.len() == 0 {
            None
        } else {
            Some(self.expirations[0].0)
        }
    }

    /// The index is ordered: an earlier pair never lapses later.
    pub proof fn lemma_pairs_ordered(self)
        requires
            self.inv(),
        ensures
            forall|i: int, j: int|
                0 <= i < j < self.pairs().len() ==> (#[trigger] self.pairs()[i]).0 <= (
                #[trigger] self.pairs()[j]).0,
    {
        assert forall|i: int, j: int|
            0 <= i < j < self.pairs().len() implies (#[trigger] self.pairs()[i]).0 <= (
        #[trigger] self.pairs()[j]).0 by {
            assert(self.pairs()[i].0 == self.expirations@[i].0);
            assert(self.pairs()[j].0 == self.expirations@[j].0);
        }
    }

    /// The index position of the pair `(when, key)`, if it stands there.
    fn find_pair(&self, when: u64, key: &[u8]) -> (r: Option<usize>)
        ensures
            match r {
                Some(j) => j < self.expirations@.len() && self.expirations@[j as int].0
                    == when && self.expirations@[j as int].1@ == key@,
                None => forall|j: int|
                    0 <= j < self.expirations@.len() ==> !((#[trigger] self.expirations@[
                        j
                    ]).0 == when && self.expirations@[j].1@ == key@),
            },
    {
        let mut j: usize = 0;
        while j < self.expirations.len()
            invariant
                0 <= j <= self.expirations@.len(),
                forall|i: int|
                    0 <= i < j ==> !((#[trigger] self.expirations@[i]).0 == when
                        && self.expirations@[i].1@ == key@),
            decreases self.expirations@.len() - j,
        {
            if self.expirations[j].0 == when && bytes_eq(
                self.expirations[j].1.as_slice(),
                key,
            ) {
                return Some(j);
            }
            j = j + 1;
        }
        None
    }

    /// Drops any prior binding of `key` and its index pair. Afterwards no
    /// entry and no index pair bears the key.
    #[verifier::rlimit(100)]
    #[verifier::spinoff_prover]
    fn take_out(&mut self, key: &[u8])
        requires
            old(self).inv(),
        ensures
            final(self).inv(),
            final(self).entries() == old(self).entries().remove(key@),
            final(self).shutting_down() == old(self).shutting_down(),
            forall|i: int|
                0 <= i < final(self).entries@.len() ==> (#[trigger] final(self).entries@[
                    i
                ]).0@ != key@,
            forall|j: int|
                0 <= j < final(self).expirations@.len() ==> (#[trigger] final(self).expirations@[j]).1@ != key@,
            pairs_sorted(final(self).expirations@),
            // every pair that survives stood in the index before
            forall|j: int|
                0 <= j < final(self).expirations@.len() ==> old(self).expirations@.contains(#[trigger] final(self).expirations@[j]),
    {
        match self.find_entry(key) {
            Some(i) => {
                let prior: Option<u64> = self.entries[i].1.expires_at;
                let ghost s0 = self.entries@;
                let ghost p0_none = self.expirations@;
                proof {
                    lemma_map_of_index(s0, i as int);
                    lemma_map_of_remove(s0, i as int);
                }
                self.entries.remove(i);
                proof {
                    assert(unique_keys(self.entries@));
                    assert(forall|ii: int|
                        0 <= ii < self.entries@.len() ==> (#[trigger] self.entries@[
                            ii
                        ]).0@ != key@);
                }
                match prior {
                    Some(w) => {
                        let ghost p0 = self.expirations@;
                        let j = match self.find_pair(w, key) {
                            Some(j) => j,
                            None => {
                                proof {
                                    assert(entry_indexed(p0, s0[i as int]));
                                    let jw = choose|jw: int|
                                        0 <= jw < p0.len() && (#[trigger] p0[jw]).1@
                                            == s0[i as int].0@ && Some(p0[jw].0) == s0[
                                            i as int
                                        ].1.expires_at;
                                    assert(false);
                                }
                                0
                            },
                        };
                        self.expirations.remove(j);
                        proof {
                            lemma_index_after_remove(p0, j as int);
                            lemma_match_after_double_remove(s0, p0, i as int, j as int);
                        }
                    },
                    None => {
                        proof {
                            lemma_match_entry_removed(s0, p0_none, i as int);
                        }
                    },
                }
            },
            None => {
                proof {
                    lemma_map_of_absent(self.entries@, key@);
                    assert(old(self).entries().remove(key@) =~= old(self).entries());
                    // no pair bears an unbound key
                    assert forall|jj: int|
                        0 <= jj < self.expirations@.len() implies (
                    #[trigger] self.expirations@[jj]).1@ != key@ by {
                        let p0 = self.expirations@;
                        if p0[jj].1@ == key@ {
                            let io = choose|io: int|
                                0 <= io < self.entries@.len() && self.entries@[io].0@ == (
                                #[trigger] p0[jj]).1@ && self.entries@[io].1.expires_at
                                    == Some(p0[jj].0);
                        }
                    }
                }
            },
        };
    }

    /// Inserts `(w, kp)` into the index at its ordered place. The entry
    /// under `kp` was just appended as the last entry and nothing in the
    /// index names that key yet.
    #[verifier::rlimit(100)]
    #[verifier::spinoff_prover]
    fn put_pair(&mut self, w: u64, kp: Vec<u8>)
        requires
            unique_keys(old(self).entries@),
            pairs_sorted(old(self).expirations@),
            pairs_match(old(self).entries@.drop_last(), old(self).expirations@),
            old(self).entries@.len() > 0,
            old(self).entries@.last().0@ == kp@,
            old(self).entries@.last().1.expires_at == Some(w),
            forall|j: int|
                0 <= j < old(self).expirations@.len() ==> (#[trigger] old(self).expirations@[j]).1@ != kp@,
        ensures
            final(self).inv(),
            final(self).entries@ == old(self).entries@,
            final(self).shutting_down() == old(self).shutting_down(),
    {
        let ghost p1 = self.expirations@;
        let ghost s = self.entries@;
        let mut j: usize = 0;
        while j < self.expirations.len() && self.expirations[j].0 <= w
            invariant
                0 <= j <= self.expirations@.len(),
                self.expirations@ == p1,
                forall|i: int| 0 <= i < j ==> (#[trigger] self.expirations@[i]).0 <= w,
            decreases self.expirations@.len() - j,
        {
            j = j + 1;
        }
        let ghost x = (w, kp);
        self.expirations.insert(j, (w, kp));
        proof {
            assert(self.expirations@ == p1.insert(j as int, x));
            lemma_sorted_after_insert(p1, x, j as int);
            lemma_covered_after_insert(s, p1, x, j as int);
            lemma_indexed_after_insert(s, p1, x, j as int);
            lemma_unique_after_insert(p1, x, j as int);
        }
    }

    /// What a completed purge pass at instant `now` leaves behind, seen
    /// through the public views: the surviving bindings are exactly those
    /// of `pre` not yet due at `now`, unchanged; the returned instant is
    /// the next due one, past `now`; nothing left in the index is due.
    pub open spec fn purged(pre: State, post: State, r: Option<u64>, now: u64) -> bool {
        &&& r == post.next_due()
        &&& (r matches Some(w) ==> w > now)
        &&& forall|k: Seq<u8>| #![trigger post.entries().contains_key(k)]
            post.entries().contains_key(k) ==> pre.entries().contains_key(k)
                && post.entries()[k] == pre.entries()[k]
        &&& forall|k: Seq<u8>|
            pre.entries().contains_key(k) ==> (post.entries().contains_key(k) <==> !((
            #[trigger] pre.entries()[k]).1 matches Some(w2) && w2 <= now))
        &&& forall|jj: int|
            0 <= jj < post.pairs().len() ==> (#[trigger] post.pairs()[jj]).0 > now
    }

    /// Expiration liveness, the store's side: a binding due at `now` does
    /// not survive a purge pass at `now` — a later `get` of its key finds
    /// nothing.
    pub proof fn lemma_expiration_liveness(
        pre: State,
        post: State,
        r: Option<u64>,
        now: u64,
        k: Seq<u8>,
        w: u64,
    )
        requires
            State::purged(pre, post, r, now),
            pre.entries().contains_key(k),
            pre.entries()[k].1 == Some(w),
            w <= now,
        ensures
            !post.entries().contains_key(k),
    {
    }

    /// Removes every binding whose instant has passed, walking the index
    /// from the front, soonest first. Returns the instant the next
    /// binding lapses — the reaper sleeps until then — or nothing, when
    /// no binding expires or the store is shutting down.
    #[verifier::rlimit(100)]
    #[verifier::spinoff_prover]
    pub fn purge_expired_keys(&mut self, now: u64) -> (r: Option<u64>)
        requires
            old(self).inv(),
        ensures
            final(self).inv(),
            final(self).shutting_down() == old(self).shutting_down(),
            old(self).shutting_down() ==> r is None && final(self).entries() == old(self).entries() && final(self).pairs() == old(self).pairs(),
            !old(self).shutting_down() ==> State::purged(*old(self), *final(self), r, now),
    {
        if self.is_shutdown() {
            return None;
        }
        while self.expirations.len() > 0 && self.expirations[0].0 <= now
            invariant
                self.inv(),
                self.shutting_down() == old(self).shutting_down(),
                !old(self).shutting_down(),
                forall|k: Seq<u8>| #![trigger self.entries().contains_key(k)]
                    self.entries().contains_key(k) ==> old(self).entries().contains_key(k) && self.entries()[k] == old(self).entries()[k],
                forall|k: Seq<u8>|
                    old(self).entries().contains_key(k) && !self.entries().contains_key(k) ==> ((#[trigger] old(self).entries()[k]).1 matches Some(w2) && w2
                        <= now),
                forall|k: Seq<u8>|
                    old(self).entries().contains_key(k) && !((#[trigger] old(self).entries()[k]).1 matches Some(w2) && w2 <= now) ==> self.entries(
                    ).contains_key(k),
            decreases self.expirations@.len(),
        {
            let ghost st0 = *self;
            let ghost p0 = self.expirations@;
            let ghost s0 = self.entries@;
            let w0 = self.expirations[0].0;
            proof {
                assert(pair_covered(s0, p0[0]));
            }
            let i = match self.find_entry(self.expirations[0].1.as_slice()) {
                Some(i) => i,
                None => {
                    proof {
                        let io = choose|io: int|
                            0 <= io < s0.len() && (#[trigger] s0[io]).0@ == p0[0].1@
                                && s0[io].1.expires_at == Some(p0[0].0);
                        assert(false);
                    }
                    0
                },
            };
            proof {
                let io = choose|io: int|
                    0 <= io < s0.len() && (#[trigger] s0[io]).0@ == p0[0].1@ && s0[
                        io
                    ].1.expires_at == Some(p0[0].0);
                assert(io == i as int);
                assert(s0[i as int].1.expires_at == Some(w0));
                lemma_map_of_index(s0, i as int);
                lemma_map_of_remove(s0, i as int);
            }
            self.entries.remove(i);
            self.expirations.remove(0);
            proof {
                lemma_index_after_remove(p0, 0);
                lemma_match_after_double_remove(s0, p0, i as int, 0);
                assert(unique_keys(self.entries@));
                let k0 = s0[i as int].0@;
                let prevm = st0.entries();
                let newm = self.entries();
                assert(prevm == map_of(s0));
                assert(newm == map_of(self.entries@));
                assert(newm == prevm.remove(k0));
                assert(prevm[k0].1 == Some(w0) && w0 <= now);
                assert forall|k: Seq<u8>|
                    newm.contains_key(k) implies old(self).entries().contains_key(k)
                    && newm[k] == old(self).entries()[k] by {
                    assert(prevm.contains_key(k) && k != k0);
                    assert(st0.entries().contains_key(k));
                    assert(old(self).entries().contains_key(k) && st0.entries()[k]
                        == old(self).entries()[k]);
                    assert(newm[k] == prevm[k]);
                }
                assert forall|k: Seq<u8>|
                    old(self).entries().contains_key(k) && !newm.contains_key(
                        k,
                    ) implies ((#[trigger] old(self).entries()[k]).1 matches Some(w2)
                    && w2 <= now) by {
                    if prevm.contains_key(k) {
                        assert(k == k0);
                        assert(prevm.contains_key(k0));
                        assert(old(self).entries()[k0] == prevm[k0]);
                    }
                }
                assert forall|k: Seq<u8>|
                    old(self).entries().contains_key(k) && !((#[trigger] old(
                        self,
                    ).entries()[k]).1 matches Some(w2) && w2 <= now) implies newm.contains_key(
                    k,
                ) by {
                    assert(prevm.contains_key(k));
                    assert(old(self).entries()[k] == prevm[k]);
                    if k == k0 {
                        assert(old(self).entries()[k0] == prevm[k0]);
                    }
                }
            }
        }
        proof {
            if self.expirations@.len() > 0 {
                assert forall|jj: int|
                    0 <= jj < self.pairs().len() implies (#[trigger] self.pairs()[jj]).0
                    > now by {
                    assert(self.pairs()[jj].0 == self.expirations@[jj].0);
                    if jj > 0 {
                        assert(self.expirations@[0].0 <= self.expirations@[jj].0);
                    }
                }
            }
            // a due binding could not have survived: its pair would still
            // stand at the front of an index that now starts after `now`
            assert forall|k: Seq<u8>|
                old(self).entries().contains_key(k) implies (self.entries(
                ).contains_key(k) <==> !((#[trigger] old(self).entries()[k]).1 matches
                Some(w2) && w2 <= now)) by {
                if self.entries().contains_key(k) {
                    if old(self).entries()[k].1 is Some && old(self).entries()[k].1->Some_0
                        <= now {
                        let w2 = old(self).entries()[k].1->Some_0;
                        let s = self.entries@;
                        lemma_map_of_covered(s, k);
                        let io = choose|io: int|
                            0 <= io < s.len() && (#[trigger] s[io]).0@ == k;
                        lemma_map_of_index(s, io);
                        assert(s[io].1.expires_at == Some(w2));
                        assert(entry_indexed(self.expirations@, s[io]));
                        let jo = choose|jo: int|
                            0 <= jo < self.expirations@.len() && (
                            #[trigger] self.expirations@[jo]).1@ == s[io].0@ && Some(
                                self.expirations@[jo].0,
                            ) == s[io].1.expires_at;
                        assert(self.expirations@[0].0 <= self.expirations@[jo].0);
                        assert(false);
                    }
                }
            }
        }
        self.next_expiration()
    }

    /// Binds `key` to `value`, replacing any prior binding; the binding
    /// lapses at `expires_at`, if given. Returns whether the reaper must
    /// be woken: exactly when the new binding is due ahead of everything
    /// the index held.
    #[verifier::rlimit(100)]
    #[verifier::spinoff_prover]
    pub fn set(&mut self, key: Vec<u8>, value: Vec<u8>, expires_at: Option<u64>) -> (notify:
        bool)
        requires
            old(self).inv(),
        ensures
            final(self).inv(),
            final(self).entries() == old(self).entries().insert(
                key@,
                (value@, expires_at),
            ),
            final(self).shutting_down() == old(self).shutting_down(),
            notify == (match expires_at {
                Some(w) => match old(self).next_due() {
                    Some(e) => e > w,
                    None => true,
                },
                None => false,
            }),
    {
        let notify = match expires_at {
            Some(w) => match self.next_expiration() {
                Some(e) => e > w,
                None => true,
            },
            None => false,
        };
        let ghost kv = key@;
        let ghost vv = value@;
        self.take_out(key.as_slice());
        let key_for_pair = vstd::slice::slice_to_vec(key.as_slice());
        let ghost s1 = self.entries@;
        let ghost p1 = self.expirations@;
        self.entries.push((key, Entry { data: value, expires_at }));
        proof {
            assert(self.entries@.drop_last() =~= s1);
            assert(map_of(self.entries@) =~= map_of(s1).insert(
                self.entries@.last().0@,
                (self.entries@.last().1.data@, self.entries@.last().1.expires_at),
            ));
            assert(self.entries@.last().0@ == kv);
            assert(old(self).entries().remove(kv).insert(kv, (vv, expires_at))
                =~= old(self).entries().insert(kv, (vv, expires_at)));
            assert(unique_keys(self.entries@)) by {
                assert(forall|ii: int| 0 <= ii < s1.len() ==> (#[trigger] s1[ii]).0@ != kv);
                assert(forall|ii: int| 0 <= ii < s1.len() ==> self.entries@[ii] == s1[ii]);
            }
        }
        match expires_at {
            Some(w) => {
                proof {
                    assert(self.entries@.drop_last() =~= s1);
                }
                self.put_pair(w, key_for_pair);
            },
            None => {
                proof {
                    let s = self.entries@;
                    let p = self.expirations@;
                    assert(pairs_match(s, p)) by {
                        assert forall|jj: int| 0 <= jj < p.len() implies exists|ii: int|
                            0 <= ii < s.len() && s[ii].0@ == (#[trigger] p[jj]).1@ && s[
                                ii
                            ].1.expires_at == Some(p[jj].0) by {
                            let io = choose|io: int|
                                0 <= io < s1.len() && s1[io].0@ == (#[trigger] p[jj]).1@
                                    && s1[io].1.expires_at == Some(p[jj].0);
                            assert(s[io] == s1[io]);
                        }
                        assert forall|ii: int|
                            0 <= ii < s.len() && (#[trigger] s[ii]).1.expires_at
                                is Some implies exists|jj: int|
                            0 <= jj < p.len() && p[jj].1@ == s[ii].0@ && Some(p[jj].0)
                                == s[ii].1.expires_at by {
                            assert(ii < s.len() - 1);
                            assert(s[ii] == s1[ii]);
                        }
                    }
                }
            },
        }
        notify
    }
}

} // verus!
