//! An association map from names to values, keyed by the characters of the
//! name.
//!
//! The story graph keeps its knots and stitches in such maps.  Lookup finds
//! the first entry whose key has the given characters; insertion replaces an
//! existing entry, so maps built through [`NameMap::insert`] have pairwise
//! distinct keys.

use vstd::prelude::*;
use crate::text::str_eq;

verus! {

/// First index in `entries` whose key reads `name`; `entries.len()` if none.
pub open spec fn find_key<T>(entries: Seq<(String, T)>, name: Seq<char>) -> nat
    decreases entries.len(),
{
    if entries.len() == 0 {
        0
    } else if entries[0].0@ == name {
        0
    } else {
        1 + find_key(entries.drop_first(), name)
    }
}

pub proof fn lemma_find_key<T>(entries: Seq<(String, T)>, name: Seq<char>, n: int)
    requires
        0 <= n <= entries.len(),
        forall|j: int| 0 <= j < n ==> entries[j].0@ != name,
        n < entries.len() ==> entries[n].0@ == name,
    ensures
        find_key(entries, name) == n,
    decreases entries.len(),
{
    if entries.len() == 0 {
    } else if entries[0].0@ == name {
        assert(n == 0);
    } else {
        assert(n >= 1);
        let t = entries.drop_first();
        assert forall|j: int| 0 <= j < n - 1 implies t[j].0@ != name by {
            assert(t[j] == entries[j + 1]);
        }
        if n - 1 < t.len() {
            assert(t[n - 1] == entries[n]);
        }
        lemma_find_key(t, name, n - 1);
    }
}

pub proof fn lemma_find_key_props<T>(entries: Seq<(String, T)>, name: Seq<char>)
    ensures
        find_key(entries, name) <= entries.len(),
        forall|j: int| 0 <= j < find_key(entries, name) ==> entries[j].0@ != name,
        find_key(entries, name) < entries.len() ==> entries[find_key(entries, name) as int].0@
            == name,
    decreases entries.len(),
{
    if entries.len() == 0 {
    } else if entries[0].0@ == name {
    } else {
        let t = entries.drop_first();
        lemma_find_key_props(t, name);
        assert forall|j: int| 0 <= j < find_key(entries, name) implies entries[j].0@ != name by {
            if j >= 1 {
                assert(t[j - 1] == entries[j]);
            }
        }
        if find_key(entries, name) < entries.len() {
            assert(t[find_key(t, name) as int] == entries[1 + find_key(t, name) as int]);
        }
    }
}

/// A map from names to values of type `T`.
#[derive(Clone, Debug, PartialEq)]
pub struct NameMap<T> {
    pub entries: Vec<(String, T)>,
}

impl<T> NameMap<T> {
    /// Whether some entry's key reads `name`.
    pub open spec fn spec_contains(self, name: Seq<char>) -> bool {
        find_key(self.entries@, name) < self.entries@.len()
    }

    /// The value stored under `name` (the first such entry).
    pub open spec fn spec_get(self, name: Seq<char>) -> T {
        self.entries@[find_key(self.entries@, name) as int].1
    }

    /// The number of entries.
    pub open spec fn spec_len(self) -> nat {
        self.entries@.len()
    }

    /// Keys are pairwise distinct, so every name has at most one entry.
    pub open spec fn wf(self) -> bool {
        forall|i: int, j: int|
            0 <= i < j < self.entries@.len() ==> self.entries@[i].0@ != self.entries@[j].0@
    }

    /// An empty map.
    pub fn new() -> (r: NameMap<T>)
        ensures
            r.spec_len() == 0,
            forall|n: Seq<char>| !r.spec_contains(n),
            r.wf(),
    {
        NameMap { entries: Vec::new() }
    }

    /// First index whose key reads `name`, or the length if there is none.
    fn position_of(&self, name: &str) -> (r: usize)
        ensures
            r == find_key(self.entries@, name@),
            r <= self.entries@.len(),
            r < self.entries@.len() ==> self.entries@[r as int].0@ == name@,
    {
        let mut i: usize = 0;
        while i < self.entries.len()
            invariant
                i <= self.entries@.len(),
                forall|j: int| 0 <= j < i ==> self.entries@[j].0@ != name@,
            decreases self.entries@.len() - i,
        {
            if str_eq(self.entries[i].0.as_str(), name) {
                proof {
                    lemma_find_key(self.entries@, name@, i as int);
                }
                return i;
            }
            i = i + 1;
        }
        proof {
            lemma_find_key(self.entries@, name@, i as int);
        }
        i
    }

    /// Whether the map holds an entry under `name`.
    pub fn contains_key(&self, name: &str) -> (r: bool)
        ensures
            r == self.spec_contains(name@),
    {
        let p = self.position_of(name);
        p < self.entries.len()
    }

    /// The value under `name`, if any.
    pub fn get(&self, name: &str) -> (r: Option<&T>)
        ensures
            match r {
                Some(v) => self.spec_contains(name@) && *v == self.spec_get(name@),
                None => !self.spec_contains(name@),
            },
    {
        let p = self.position_of(name);
        if p < self.entries.len() {
            Some(&self.entries[p].1)
        } else {
            None
        }
    }

    /// The number of entries.
    pub fn len(&self) -> (r: usize)
        ensures
            r == self.spec_len(),
    {
        self.entries.len()
    }

    /// Store `value` under `name`, replacing any existing entry.
    pub fn insert(&mut self, name: String, value: T)
        requires
            old(self).wf(),
        ensures
            final(self).wf(),
            final(self).spec_contains(name@),
            final(self).spec_get(name@) == value,
            forall|n: Seq<char>|
                n != name@ ==> final(self).spec_contains(n) == old(self).spec_contains(n),
            forall|n: Seq<char>|
                n != name@ && old(self).spec_contains(n) ==> final(self).spec_get(n) == old(
                    self,
                ).spec_get(n),
            final(self).spec_len() == if old(self).spec_contains(name@) {
                old(self).spec_len()
            } else {
                old(self).spec_len() + 1
            },
    {
        let ghost old_entries = self.entries@;
        proof {
            lemma_find_key_props(old_entries, name@);
        }
        let p = self.position_of(name.as_str());
        if p < self.entries.len() {
            let _ = self.entries.remove(p);
        }
        let ghost mid = self.entries@;
        let ghost pair_name = name@;
        self.entries.push((name, value));
        proof {
            let now = self.entries@;
            let k = now.len() - 1;
            lemma_entries_after_insert(old_entries, mid, now, now[k], pair_name, p as int, k);
        }
    }
}

/// After removing the entry for `name` (if present at `p`) and pushing a new
/// one at the end, lookups behave as `insert` promises.
proof fn lemma_entries_after_insert<T>(
    old_entries: Seq<(String, T)>,
    mid: Seq<(String, T)>,
    now: Seq<(String, T)>,
    pair: (String, T),
    name: Seq<char>,
    p: int,
    k: int,
)
    requires
        forall|i: int, j: int|
            0 <= i < j < old_entries.len() ==> old_entries[i].0@ != old_entries[j].0@,
        p == find_key(old_entries, name),
        0 <= p <= old_entries.len(),
        mid == if p < old_entries.len() {
            old_entries.remove(p)
        } else {
            old_entries
        },
        k == mid.len(),
        now == mid.push(pair),
        pair.0@ == name,
    ensures
        find_key(now, name) == k,
        now[find_key(now, name) as int].1 == pair.1,
        forall|n: Seq<char>|
            n != name ==> ((find_key(now, n) < now.len()) == (find_key(old_entries, n)
                < old_entries.len())),
        forall|n: Seq<char>|
            n != name && find_key(old_entries, n) < old_entries.len() ==> now[find_key(
                now,
                n,
            ) as int].1 == old_entries[find_key(old_entries, n) as int].1,
        forall|i: int, j: int| 0 <= i < j < now.len() ==> now[i].0@ != now[j].0@,
{
    lemma_find_key_props(old_entries, name);
    if p < old_entries.len() {
        old_entries.remove_ensures(p);
    }
    // Entries of `mid` are the old entries with index p skipped.
    assert forall|i: int|
        0 <= i < mid.len() implies mid[i] == (if i < p {
            old_entries[i]
        } else {
            old_entries[i + 1]
        }) by {}
    // No key of `mid` reads `name`: before p by the scan, after p because a
    // second occurrence would contradict key distinctness.
    assert forall|j: int| 0 <= j < k implies now[j].0@ != name by {
        if j < p {
            assert(now[j] == old_entries[j]);
        } else {
            assert(now[j] == old_entries[j + 1]);
            if old_entries[j + 1].0@ == name {
                assert(p < old_entries.len());
                assert(old_entries[p].0@ == name);
                assert(false);
            }
        }
    }
    lemma_find_key(now, name, k);
    // Lookup of any other name is unaffected.
    assert forall|n: Seq<char>| n != name implies ((find_key(now, n) < now.len()) == (find_key(
        old_entries,
        n,
    ) < old_entries.len())) && (find_key(old_entries, n) < old_entries.len() ==> now[find_key(
        now,
        n,
    ) as int].1 == old_entries[find_key(old_entries, n) as int].1) by {
        lemma_find_key_props(old_entries, n);
        let q = find_key(old_entries, n) as int;
        if q < old_entries.len() {
            let qn = if q < p {
                q
            } else {
                q - 1
            };
            assert(q != p);
            assert(now[qn] == old_entries[q]);
            assert forall|j: int| 0 <= j < qn implies now[j].0@ != n by {
                let orig = if j < p {
                    j
                } else {
                    j + 1
                };
                assert(now[j] == old_entries[orig]);
                assert(orig < q);
            }
            lemma_find_key(now, n, qn);
        } else {
            assert forall|j: int| 0 <= j < now.len() implies now[j].0@ != n by {
                if j < k {
                    let orig = if j < p {
                        j
                    } else {
                        j + 1
                    };
                    assert(now[j] == old_entries[orig]);
                }
            }
            lemma_find_key(now, n, now.len() as int);
        }
    }
    // Keys of `now` stay pairwise distinct.
    assert forall|i: int, j: int| 0 <= i < j < now.len() implies now[i].0@ != now[j].0@ by {
        let oi = if i < p {
            i
        } else {
            i + 1
        };
        if j < k {
            let oj = if j < p {
                j
            } else {
                j + 1
            };
            assert(now[i] == old_entries[oi]);
            assert(now[j] == old_entries[oj]);
        } else {
            assert(now[i] == old_entries[oi]);
            if now[i].0@ == name {
                if p < old_entries.len() {
                    assert(old_entries[p].0@ == name);
                    assert(oi != p);
                    assert(false);
                } else {
                    assert(false);
                }
            }
        }
    }
}

} // verus!
