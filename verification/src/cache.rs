//! The query-result cache: a map from raw query strings to the last
//! computed result list. The in-memory map is the verified part; the
//! surrounding application mirrors it to a snapshot file through
//! `entries` and rebuilds it at start through `from_entries`.

use vstd::prelude::*;
use crate::disk_parser::{ResultView, SearchResult};

verus! {

/// The query string stored at position `i`.
pub open spec fn key_at(items: Seq<(String, Vec<SearchResult>)>, i: int) -> Seq<char> {
    items[i].0@
}

/// The result list stored at position `i`.
pub open spec fn val_at(items: Seq<(String, Vec<SearchResult>)>, i: int) -> Seq<ResultView> {
    items[i].1.deep_view()
}

/// No query string appears twice.
pub open spec fn keys_distinct(items: Seq<(String, Vec<SearchResult>)>) -> bool {
    forall|i: int, j: int| 0 <= i < j < items.len() ==> key_at(items, i) != key_at(items, j)
}

pub open spec fn has_key(items: Seq<(String, Vec<SearchResult>)>, k: Seq<char>) -> bool {
    exists|i: int| 0 <= i < items.len() && key_at(items, i) == k
}

pub open spec fn index_of_key(items: Seq<(String, Vec<SearchResult>)>, k: Seq<char>) -> int {
    choose|i: int| 0 <= i < items.len() && key_at(items, i) == k
}

/// The mapping a list of (query, results) pairs represents.
pub open spec fn entries_map(items: Seq<(String, Vec<SearchResult>)>) -> Map<
    Seq<char>,
    Seq<ResultView>,
> {
    Map::new(
        |k: Seq<char>| has_key(items, k),
        |k: Seq<char>| val_at(items, index_of_key(items, k)),
    )
}

/// With distinct keys, the pair at any position is what the map holds.
pub proof fn lemma_map_val(items: Seq<(String, Vec<SearchResult>)>, i: int)
    requires
        keys_distinct(items),
        0 <= i < items.len(),
    ensures
        entries_map(items).contains_key(key_at(items, i)),
        entries_map(items)[key_at(items, i)] == val_at(items, i),
{
    let k = key_at(items, i);
    assert(has_key(items, k));
    let j = index_of_key(items, k);
    assert(0 <= j < items.len() && key_at(items, j) == k);
    if j != i {
        assert(false);
    }
}

/// Cache round-trip: after an insert for `k`, the cache maps `k` to
/// exactly the inserted list, and every other entry is untouched — so a
/// `get` right after a `set`, or after a rebuild from the snapshot,
/// returns exactly what was set.
pub proof fn lemma_cache_round_trip(
    m: Map<Seq<char>, Seq<ResultView>>,
    k: Seq<char>,
    v: Seq<ResultView>,
)
    ensures
        m.insert(k, v).contains_key(k),
        m.insert(k, v)[k] == v,
        forall|x: Seq<char>|
            x != k && m.contains_key(x) ==> m.insert(k, v).contains_key(x) && m.insert(k, v)[x]
                == m[x],
{
}

/// The process-local query cache.
pub struct ResultCache {
    items: Vec<(String, Vec<SearchResult>)>,
}

impl View for ResultCache {
    type V = Map<Seq<char>, Seq<ResultView>>;

    closed spec fn view(&self) -> Map<Seq<char>, Seq<ResultView>> {
        entries_map(self.items@)
    }
}

impl ResultCache {
    /// The representation invariant: one entry per query string.
    pub closed spec fn wf(&self) -> bool {
        keys_distinct(self.items@)
    }

    /// An empty cache. Reloading a persisted snapshot is `from_entries`.
    pub fn new() -> (c: ResultCache)
        ensures
            c.wf(),
            c@ == Map::<Seq<char>, Seq<ResultView>>::empty(),
    {
        let c = ResultCache { items: Vec::new() };
        proof {
            assert(c@ =~= Map::<Seq<char>, Seq<ResultView>>::empty());
        }
        c
    }

    /// Rebuild a cache from the pairs of a persisted snapshot.
    pub fn from_entries(entries: Vec<(String, Vec<SearchResult>)>) -> (c: ResultCache)
        requires
            keys_distinct(entries@),
        ensures
            c.wf(),
            c@ == entries_map(entries@),
    {
        ResultCache { items: entries }
    }

    /// The pairs to persist as the snapshot of the whole cache.
    pub fn entries(&self) -> (r: &Vec<(String, Vec<SearchResult>)>)
        requires
            self.wf(),
        ensures
            keys_distinct(r@),
            entries_map(r@) == self@,
    {
        &self.items
    }

    /// The cached result list for this query, if one is known.
    pub fn get(&self, key: String) -> (r: Option<&Vec<SearchResult>>)
        requires
            self.wf(),
        ensures
            match r {
                Some(v) => self@.contains_key(key@) && v.deep_view() == self@[key@],
                None => !self@.contains_key(key@),
            },
    {
        let mut i: usize = 0;
        while i < self.items.len()
            invariant
                self.wf(),
                i <= self.items@.len(),
                forall|t: int| 0 <= t < i ==> key_at(self.items@, t) != key@,
            decreases self.items@.len() - i,
        {
            if self.items[i].0 == key {
                proof {
                    lemma_map_val(self.items@, i as int);
                }
                return Some(&self.items[i].1);
            }
            i = i + 1;
        }
        assert(!has_key(self.items@, key@));
        None
    }

    /// Insert or replace the entry for this query. The surrounding
    /// application rewrites the on-disk snapshot after every call.
    pub fn set(&mut self, key: String, results: Vec<SearchResult>)
        requires
            old(self).wf(),
        ensures
            final(self).wf(),
            final(self)@ == old(self)@.insert(key@, results.deep_view()),
    {
        let ghost old_items = self.items@;
        let ghost k = key@;
        let ghost v = results.deep_view();
        let mut found: usize = self.items.len();
        let mut i: usize = 0;
        while i < self.items.len()
            invariant
                i <= self.items@.len(),
                found == self.items@.len() || (found < i && key_at(self.items@, found as int)
                    == key@),
                found == self.items@.len() ==> forall|t: int|
                    0 <= t < i ==> key_at(self.items@, t) != key@,
            decreases self.items@.len() - i,
        {
            if found == self.items.len() && self.items[i].0 == key {
                found = i;
            }
            i = i + 1;
        }
        let ghost mid: Seq<(String, Vec<SearchResult>)>;
        if found < self.items.len() {
            self.items.remove(found);
            proof {
                mid = old_items.remove(found as int);
            }
        } else {
            proof {
                mid = old_items;
                assert(!has_key(old_items, k));
            }
        }
        proof {
            assert(self.items@ == mid);
            assert(keys_distinct(mid) && !has_key(mid, k)) by {
                if found < old_items.len() {
                    assert forall|a: int, b: int| 0 <= a < b < mid.len() implies key_at(mid, a)
                        != key_at(mid, b) by {
                        assert(key_at(mid, a) == (if a < found { key_at(old_items, a) } else {
                            key_at(old_items, a + 1)
                        }));
                        assert(key_at(mid, b) == (if b < found { key_at(old_items, b) } else {
                            key_at(old_items, b + 1)
                        }));
                    }
                    assert forall|t: int| 0 <= t < mid.len() implies key_at(mid, t) != k by {
                        assert(key_at(mid, t) == (if t < found { key_at(old_items, t) } else {
                            key_at(old_items, t + 1)
                        }));
                    }
                }
            }
        }
        self.items.push((key, results));
        proof {
            let now = self.items@;
            assert(now == mid.push((key, results)));
            assert(key_at(now, now.len() - 1) == k);
            assert forall|a: int, b: int| 0 <= a < b < now.len() implies key_at(now, a) != key_at(
                now,
                b,
            ) by {
                if b < now.len() - 1 {
                    assert(key_at(now, a) == key_at(mid, a));
                    assert(key_at(now, b) == key_at(mid, b));
                } else {
                    assert(key_at(now, a) == key_at(mid, a));
                    assert(!has_key(mid, k));
                }
            }
            assert(entries_map(now) =~= entries_map(old_items).insert(k, v)) by {
                assert forall|x: Seq<char>| #[trigger] entries_map(now).contains_key(x)
                    == entries_map(old_items).insert(k, v).contains_key(x) by {
                    if x == k {
                        assert(has_key(now, x));
                    } else {
                        if has_key(now, x) {
                            let t = choose|t: int|
                                0 <= t < now.len() && key_at(now, t) == x;
                            assert(t < mid.len());
                            assert(now[t] == mid[t]);
                            if found < old_items.len() {
                                assert(key_at(mid, t) == (if t < found {
                                    key_at(old_items, t)
                                } else {
                                    key_at(old_items, t + 1)
                                }));
                            } else {
                                assert(key_at(old_items, t) == x);
                            }
                            assert(has_key(old_items, x));
                        }
                        if has_key(old_items, x) {
                            let t = choose|t: int|
                                0 <= t < old_items.len() && key_at(old_items, t) == x;
                            if found < old_items.len() {
                                assert(t != found);
                                if t < found {
                                    assert(key_at(now, t) == x);
                                } else {
                                    assert(key_at(now, t - 1) == key_at(mid, t - 1));
                                    assert(key_at(mid, t - 1) == key_at(old_items, t));
                                }
                            } else {
                                assert(key_at(now, t) == x);
                            }
                            assert(has_key(now, x));
                        }
                    }
                }
                assert forall|x: Seq<char>|
                    entries_map(now).contains_key(x) implies #[trigger] entries_map(now)[x]
                    == entries_map(old_items).insert(k, v)[x] by {
                    let t = choose|t: int| 0 <= t < now.len() && key_at(now, t) == x;
                    lemma_map_val(now, t);
                    if x == k {
                        assert(t == now.len() - 1);
                        assert(val_at(now, t) == v);
                    } else {
                        assert(t < mid.len());
                        if found < old_items.len() {
                            let s = if t < found { t } else { t + 1 };
                            assert(now[t] == mid[t]);
                            assert(mid[t] == old_items[s]);
                            lemma_map_val(old_items, s);
                        } else {
                            assert(now[t] == old_items[t]);
                            lemma_map_val(old_items, t);
                        }
                    }
                }
            }
        }
    }
}

} // verus!
