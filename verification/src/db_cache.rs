//! The persistent index: deduplicated, buffered storage of filesystem
//! entries with paginated, ordered substring search.
//!
//! The index is modelled as a sequence of rows plus a write buffer. `store`
//! ignores an entry whose `(path, name)` pair is already present, buffers it
//! otherwise, and flushes the buffer into the rows once it reaches
//! `BUFFER_SIZE` entries. `search` answers a case-insensitive substring
//! query over the rows, ordered `.exe` names first and alphabetically
//! within each group, in pages of `PAGE_SIZE` entries.

use vstd::prelude::*;
use vstd::relations::{sorted_by, total_ordering};
use crate::text::{
    contains_ignore_case, ends_with_exe, has_exe_suffix, lemma_lex_antisym, lemma_lex_refl,
    lemma_lex_total, lemma_lex_trans, lex_cmp, lex_le, name_matches,
};

verus! {

/// Entries buffered before they are flushed into the rows in one batch.
pub const BUFFER_SIZE: usize = 100;

/// Number of entries in one page of search results.
pub const PAGE_SIZE: usize = 15;

/// A single file or directory record discovered by the crawler.
#[derive(Debug)]
pub struct FileSystemEntry {
    pub path: String,
    pub name: String,
    pub is_dir: bool,
}

/// The mathematical value of a `FileSystemEntry`.
#[verifier::ext_equal]
pub struct EntryView {
    pub path: Seq<char>,
    pub name: Seq<char>,
    pub is_dir: bool,
}

impl View for FileSystemEntry {
    type V = EntryView;

    open spec fn view(&self) -> EntryView {
        EntryView { path: self.path@, name: self.name@, is_dir: self.is_dir }
    }
}

impl DeepView for FileSystemEntry {
    type V = EntryView;

    open spec fn deep_view(&self) -> EntryView {
        self.view()
    }
}

impl FileSystemEntry {
    pub fn new(path: String, name: String, is_dir: bool) -> (e: FileSystemEntry)
        ensures
            e@ == (EntryView { path: path@, name: name@, is_dir }),
    {
        FileSystemEntry { path, name, is_dir }
    }
}

impl Clone for FileSystemEntry {
    fn clone(&self) -> (e: FileSystemEntry)
        ensures
            e == *self,
    {
        let e = FileSystemEntry {
            path: self.path.clone(),
            name: self.name.clone(),
            is_dir: self.is_dir,
        };
        assert(e == *self);
        e
    }
}

/// The views of a sequence of entries.
pub open spec fn views_of(s: Seq<FileSystemEntry>) -> Seq<EntryView> {
    Seq::new(s.len(), |i: int| s[i]@)
}

/// Two entries collide when they agree on `(path, name)`.
pub open spec fn same_pair(a: EntryView, b: EntryView) -> bool {
    a.path == b.path && a.name == b.name
}

/// Some entry of `s` collides with `e`.
pub open spec fn has_pair(s: Seq<EntryView>, e: EntryView) -> bool {
    exists|i: int| 0 <= i < s.len() && same_pair(s[i], e)
}

/// No two entries of `s` collide.
pub open spec fn pairs_unique(s: Seq<EntryView>) -> bool {
    forall|i: int, j: int| 0 <= i < j < s.len() ==> !same_pair(s[i], s[j])
}

/// The mathematical state of the index: durable rows and the write buffer.
#[verifier::ext_equal]
pub struct IndexView {
    pub rows: Seq<EntryView>,
    pub buffer: Seq<EntryView>,
}

/// Rows and buffer together never hold two entries with the same pair.
pub open spec fn pairs_ok(v: IndexView) -> bool {
    pairs_unique(v.rows + v.buffer)
}

/// Full index invariant: unique pairs, and the buffer below its threshold.
pub open spec fn index_inv(v: IndexView) -> bool {
    &&& pairs_ok(v)
    &&& v.buffer.len() < BUFFER_SIZE as nat
}

/// What one `store` call does to the index state.
pub open spec fn store_step(v: IndexView, e: EntryView) -> IndexView {
    if has_pair(v.rows, e) || has_pair(v.buffer, e) {
        v
    } else {
        let nb = v.buffer.push(e);
        if nb.len() >= BUFFER_SIZE as nat {
            IndexView { rows: v.rows + nb, buffer: Seq::empty() }
        } else {
            IndexView { rows: v.rows, buffer: nb }
        }
    }
}

/// What a `flush` does: the buffer is appended to the rows in one batch.
pub open spec fn flush_step(v: IndexView) -> IndexView {
    IndexView { rows: v.rows + v.buffer, buffer: Seq::empty() }
}

/// Storing a whole batch of entries, one after the other.
pub open spec fn store_fold(v: IndexView, es: Seq<EntryView>) -> IndexView
    decreases es.len(),
{
    if es.len() == 0 {
        v
    } else {
        store_fold(store_step(v, es[0]), es.subrange(1, es.len() as int))
    }
}

proof fn lemma_views_push(s: Seq<FileSystemEntry>, e: FileSystemEntry)
    ensures
        views_of(s.push(e)) =~= views_of(s).push(e@),
{
}

proof fn lemma_views_concat(s1: Seq<FileSystemEntry>, s2: Seq<FileSystemEntry>)
    ensures
        views_of(s1 + s2) =~= views_of(s1) + views_of(s2),
{
}

proof fn lemma_has_pair_concat(s1: Seq<EntryView>, s2: Seq<EntryView>, e: EntryView)
    ensures
        has_pair(s1 + s2, e) <==> has_pair(s1, e) || has_pair(s2, e),
{
    if has_pair(s1, e) {
        let i = choose|i: int| 0 <= i < s1.len() && same_pair(s1[i], e);
        assert((s1 + s2)[i] == s1[i]);
    }
    if has_pair(s2, e) {
        let i = choose|i: int| 0 <= i < s2.len() && same_pair(s2[i], e);
        assert((s1 + s2)[i + s1.len()] == s2[i]);
    }
}

proof fn lemma_pairs_unique_push(s: Seq<EntryView>, e: EntryView)
    requires
        pairs_unique(s),
        !has_pair(s, e),
    ensures
        pairs_unique(s.push(e)),
{
    assert forall|i: int, j: int| 0 <= i < j < s.push(e).len() implies !same_pair(
        s.push(e)[i],
        s.push(e)[j],
    ) by {
        if j == s.len() {
            assert(!same_pair(s[i], e));
        }
    }
}

/// The index itself. The write buffer fronts the durable rows; queries see
/// only what has been flushed.
pub struct DbCache {
    rows: Vec<FileSystemEntry>,
    buffer: Vec<FileSystemEntry>,
}

impl View for DbCache {
    type V = IndexView;

    closed spec fn view(&self) -> IndexView {
        IndexView { rows: views_of(self.rows@), buffer: views_of(self.buffer@) }
    }
}

/// Is an entry with this `(path, name)` pair in the list?
fn pair_in(list: &Vec<FileSystemEntry>, e: &FileSystemEntry) -> (r: bool)
    ensures
        r == has_pair(views_of(list@), e@),
{
    let mut i: usize = 0;
    while i < list.len()
        invariant
            i <= list@.len(),
            forall|k: int| 0 <= k < i ==> !same_pair(views_of(list@)[k], e@),
        decreases list@.len() - i,
    {
        if list[i].path == e.path && list[i].name == e.name {
            assert(same_pair(views_of(list@)[i as int], e@));
            return true;
        }
        i = i + 1;
    }
    false
}

impl DbCache {
    /// Index invariant, as a predicate on the whole object.
    pub open spec fn wf(&self) -> bool {
        index_inv(self@)
    }

    /// A fresh, empty index.
    pub fn new() -> (c: DbCache)
        ensures
            c.wf(),
            c@ == (IndexView { rows: Seq::<EntryView>::empty(), buffer: Seq::<EntryView>::empty() }),
    {
        let c = DbCache { rows: Vec::new(), buffer: Vec::new() };
        proof {
            assert(c@.rows =~= Seq::<EntryView>::empty());
            assert(c@.buffer =~= Seq::<EntryView>::empty());
            assert(c@.rows + c@.buffer =~= Seq::<EntryView>::empty());
            assert(c@ =~= (IndexView {
                rows: Seq::<EntryView>::empty(),
                buffer: Seq::<EntryView>::empty(),
            }));
        }
        c
    }

    /// True once at least one row has been flushed into the index.
    pub fn db_exists(&self) -> (r: bool)
        ensures
            r == (self@.rows.len() > 0),
    {
        self.rows.len() > 0
    }

    /// How many rows have been flushed into the index.
    pub fn row_count(&self) -> (r: usize)
        ensures
            r == self@.rows.len(),
    {
        self.rows.len()
    }

    /// The flushed rows themselves, for a caller that mirrors the index
    /// to durable storage.
    pub fn rows(&self) -> (r: &Vec<FileSystemEntry>)
        ensures
            views_of(r@) == self@.rows,
    {
        &self.rows
    }

    /// Buffer an entry unless its `(path, name)` pair is already known;
    /// flush automatically when the buffer reaches `BUFFER_SIZE`.
    pub fn store(&mut self, entry: FileSystemEntry)
        requires
            old(self).wf(),
        ensures
            final(self).wf(),
            final(self)@ == store_step(old(self)@, entry@),
    {
        let ghost v0 = self@;
        if !pair_in(&self.rows, &entry) && !pair_in(&self.buffer, &entry) {
            let ghost e = entry@;
            self.buffer.push(entry);
            proof {
                lemma_views_push(old(self).buffer@, entry);
                lemma_has_pair_concat(v0.rows, v0.buffer, e);
                assert(v0.rows + v0.buffer.push(e) =~= (v0.rows + v0.buffer).push(e));
                lemma_pairs_unique_push(v0.rows + v0.buffer, e);
                assert(pairs_unique(self@.rows + self@.buffer));
            }
            if self.buffer.len() >= BUFFER_SIZE {
                self.flush();
                proof {
                    assert(final(self)@ =~= store_step(v0, e));
                }
            } else {
                proof {
                    assert(self@ =~= store_step(v0, e));
                }
            }
        } else {
            proof {
                assert(self@ =~= store_step(v0, entry@));
            }
        }
    }

    /// Append every buffered entry to the rows, in order, and clear the
    /// buffer. On the durable mirror this is one transaction.
    pub fn flush(&mut self)
        requires
            pairs_ok(old(self)@),
        ensures
            final(self).wf(),
            final(self)@ == flush_step(old(self)@),
    {
        let ghost v0 = self@;
        self.rows.append(&mut self.buffer);
        proof {
            lemma_views_concat(old(self).rows@, old(self).buffer@);
            assert(self@.buffer =~= Seq::<EntryView>::empty());
            assert(self@.rows + self@.buffer =~= v0.rows + v0.buffer);
            assert(self@ =~= flush_step(v0));
        }
    }

    /// Flush any entries still buffered before the index handle is
    /// released: the flush-on-teardown contract, made explicit.
    pub fn close(&mut self)
        requires
            pairs_ok(old(self)@),
        ensures
            final(self).wf(),
            final(self)@ == flush_step(old(self)@),
    {
        self.flush();
    }

    /// Store a whole batch of entries, one after the other.
    pub fn store_all(&mut self, entries: Vec<FileSystemEntry>)
        requires
            old(self).wf(),
        ensures
            final(self).wf(),
            final(self)@ == store_fold(old(self)@, views_of(entries@)),
    {
        let ghost es = views_of(entries@);
        let ghost v0 = self@;
        proof {
            assert(es.subrange(0, es.len() as int) =~= es);
        }
        let mut i: usize = 0;
        while i < entries.len()
            invariant
                self.wf(),
                i <= entries@.len(),
                es == views_of(entries@),
                store_fold(v0, es) == store_fold(self@, es.subrange(i as int, es.len() as int)),
            decreases entries@.len() - i,
        {
            let ghost before = self@;
            self.store(entries[i].clone());
            proof {
                let tail = es.subrange(i as int, es.len() as int);
                assert(tail[0] == es[i as int]);
                assert(tail.subrange(1, tail.len() as int) =~= es.subrange(
                    i + 1,
                    es.len() as int,
                ));
                assert(store_fold(before, tail) == store_fold(
                    store_step(before, es[i as int]),
                    es.subrange(i + 1, es.len() as int),
                ));
            }
            i = i + 1;
        }
        proof {
            assert(es.subrange(es.len() as int, es.len() as int) =~= Seq::<EntryView>::empty());
        }
    }
}

/// The predicate a query puts on an entry: its name matches.
pub open spec fn query_pred(q: Seq<char>) -> spec_fn(EntryView) -> bool {
    |e: EntryView| name_matches(e.name, q)
}

/// Result order: `.exe` names first, then name, then path, then files
/// before directories. The last two keys only break ties, so that the
/// order is total and a fixed index yields one fixed result sequence.
pub open spec fn entry_le(a: EntryView, b: EntryView) -> bool {
    if has_exe_suffix(a.name) != has_exe_suffix(b.name) {
        has_exe_suffix(a.name)
    } else if a.name != b.name {
        lex_le(a.name, b.name)
    } else if a.path != b.path {
        lex_le(a.path, b.path)
    } else {
        !a.is_dir || b.is_dir
    }
}

/// `entry_le` as a first-class relation, for the sorting lemmas.
pub open spec fn entry_order() -> spec_fn(EntryView, EntryView) -> bool {
    |a: EntryView, b: EntryView| entry_le(a, b)
}

pub proof fn lemma_entry_refl(a: EntryView)
    ensures
        entry_le(a, a),
{
}

pub proof fn lemma_entry_total(a: EntryView, b: EntryView)
    ensures
        entry_le(a, b) || entry_le(b, a),
{
    if has_exe_suffix(a.name) == has_exe_suffix(b.name) {
        if a.name != b.name {
            lemma_lex_total(a.name, b.name);
        } else if a.path != b.path {
            lemma_lex_total(a.path, b.path);
        }
    }
}

pub proof fn lemma_entry_antisym(a: EntryView, b: EntryView)
    requires
        entry_le(a, b),
        entry_le(b, a),
    ensures
        a == b,
{
    if has_exe_suffix(a.name) != has_exe_suffix(b.name) {
        assert(false);
    } else if a.name != b.name {
        lemma_lex_antisym(a.name, b.name);
        assert(false);
    } else if a.path != b.path {
        lemma_lex_antisym(a.path, b.path);
        assert(false);
    } else {
        assert(a.is_dir == b.is_dir);
        assert(a =~= b);
    }
}

pub proof fn lemma_entry_trans(a: EntryView, b: EntryView, c: EntryView)
    requires
        entry_le(a, b),
        entry_le(b, c),
    ensures
        entry_le(a, c),
{
    let ea = has_exe_suffix(a.name);
    let eb = has_exe_suffix(b.name);
    let ec = has_exe_suffix(c.name);
    if ea != ec {
        assert(ea);
    } else {
        assert(eb == ea);
        lemma_lex_refl(a.name);
        lemma_lex_refl(b.name);
        assert(lex_le(a.name, b.name));
        assert(lex_le(b.name, c.name));
        lemma_lex_trans(a.name, b.name, c.name);
        if a.name == c.name {
            lemma_lex_antisym(a.name, b.name);
            assert(b.name == a.name);
            lemma_lex_refl(a.path);
            lemma_lex_refl(b.path);
            assert(lex_le(a.path, b.path));
            assert(lex_le(b.path, c.path));
            lemma_lex_trans(a.path, b.path, c.path);
            if a.path == c.path {
                lemma_lex_antisym(a.path, b.path);
                assert(b.path == a.path);
            }
        }
    }
}

pub proof fn lemma_entry_order_total()
    ensures
        total_ordering(entry_order()),
{
    let r = entry_order();
    assert forall|x: EntryView| #[trigger] r(x, x) by {
        lemma_entry_refl(x);
    }
    assert forall|x: EntryView, y: EntryView| #[trigger] r(x, y) && #[trigger] r(y, x) implies x
        == y by {
        lemma_entry_antisym(x, y);
    }
    assert forall|x: EntryView, y: EntryView, z: EntryView|
        #[trigger] r(x, y) && #[trigger] r(y, z) implies r(x, z) by {
        lemma_entry_trans(x, y, z);
    }
    assert forall|x: EntryView, y: EntryView| #[trigger] r(x, y) || #[trigger] r(y, x) by {
        lemma_entry_total(x, y);
    }
}

/// Two sorted sequences with the same multiset of entries are the same
/// sequence: the sorted order of a fixed set of rows is unique.
pub proof fn lemma_sorted_unique(
    x: Seq<EntryView>,
    y: Seq<EntryView>,
    leq: spec_fn(EntryView, EntryView) -> bool,
)
    requires
        total_ordering(leq),
        sorted_by(x, leq),
        sorted_by(y, leq),
        x.to_multiset() == y.to_multiset(),
    ensures
        x == y,
    decreases x.len(),
{
    broadcast use vstd::seq_lib::group_to_multiset_ensures;

    if x.len() == 0 {
        assert(x.len() == x.to_multiset().len());
        assert(y.len() == y.to_multiset().len());
        assert(y.len() == 0);
        assert(x =~= y);
    } else {
        assert(x.len() == x.to_multiset().len());
        assert(y.len() == y.to_multiset().len());
        assert(y.len() == x.len());
        assert(x.contains(x[0]));
        assert(y.to_multiset().count(x[0]) > 0);
        assert(y.contains(x[0]));
        let j = choose|j: int| 0 <= j < y.len() && y[j] == x[0];
        assert(y.contains(y[0]));
        assert(x.to_multiset().count(y[0]) > 0);
        assert(x.contains(y[0]));
        let i = choose|i: int| 0 <= i < x.len() && x[i] == y[0];
        assert(leq(y[0], x[0])) by {
            if j > 0 {
                assert(leq(y[0], y[j]));
            } else {
                assert(leq(y[0], y[0]));
            }
        }
        assert(leq(x[0], y[0])) by {
            if i > 0 {
                assert(leq(x[0], x[i]));
            } else {
                assert(leq(x[0], x[0]));
            }
        }
        assert(x[0] == y[0]);
        let xt = x.remove(0);
        let yt = y.remove(0);
        assert(xt =~= x.subrange(1, x.len() as int));
        assert(yt =~= y.subrange(1, y.len() as int));
        assert(xt.to_multiset() =~= x.to_multiset().remove(x[0]));
        assert(yt.to_multiset() =~= y.to_multiset().remove(y[0]));
        assert(sorted_by(xt, leq)) by {
            assert forall|p: int, q: int| 0 <= p < q < xt.len() implies #[trigger] leq(
                xt[p],
                xt[q],
            ) by {
                assert(xt[p] == x[p + 1]);
                assert(xt[q] == x[q + 1]);
            }
        }
        assert(sorted_by(yt, leq)) by {
            assert forall|p: int, q: int| 0 <= p < q < yt.len() implies #[trigger] leq(
                yt[p],
                yt[q],
            ) by {
                assert(yt[p] == y[p + 1]);
                assert(yt[q] == y[q + 1]);
            }
        }
        lemma_sorted_unique(xt, yt, leq);
        assert forall|k: int| 0 <= k < x.len() implies x[k] == y[k] by {
            if k > 0 {
                assert(xt[k - 1] == yt[k - 1]);
            }
        }
        assert(x =~= y);
    }
}

/// `filter` over a sequence extended by one element.
pub proof fn lemma_filter_push<A>(s: Seq<A>, p: spec_fn(A) -> bool, x: A)
    ensures
        s.push(x).filter(p) == (if p(x) {
            s.filter(p).push(x)
        } else {
            s.filter(p)
        }),
{
    reveal(Seq::filter);
    assert(s.push(x).drop_last() =~= s);
    assert(s.push(x).last() == x);
}

/// The full, ordered result set of a query over the index rows.
pub open spec fn search_spec(rows: Seq<EntryView>, q: Seq<char>) -> Seq<EntryView> {
    rows.filter(query_pred(q)).sort_by(entry_order())
}

/// One zero-based page of `PAGE_SIZE` entries out of an ordered result set.
pub open spec fn page_slice(s: Seq<EntryView>, page: nat) -> Seq<EntryView> {
    let lo = if (PAGE_SIZE as nat) * page <= s.len() {
        (PAGE_SIZE as nat) * page
    } else {
        s.len()
    };
    let hi = if (PAGE_SIZE as nat) * page + (PAGE_SIZE as nat) <= s.len() {
        (PAGE_SIZE as nat) * page + (PAGE_SIZE as nat)
    } else {
        s.len()
    };
    s.subrange(lo as int, hi as int)
}

/// Executable form of `entry_le`.
fn entry_le_exec(a: &FileSystemEntry, b: &FileSystemEntry) -> (r: bool)
    ensures
        r == entry_le(a@, b@),
{
    let ea = ends_with_exe(a.name.as_str());
    let eb = ends_with_exe(b.name.as_str());
    if ea != eb {
        return ea;
    }
    let nc = lex_cmp(a.name.as_str(), b.name.as_str());
    if nc != 0 {
        proof {
            if nc == 1 && lex_le(a.name@, b.name@) {
                lemma_lex_antisym(a.name@, b.name@);
            }
        }
        return nc == -1;
    }
    let pc = lex_cmp(a.path.as_str(), b.path.as_str());
    if pc != 0 {
        proof {
            if pc == 1 && lex_le(a.path@, b.path@) {
                lemma_lex_antisym(a.path@, b.path@);
            }
        }
        return pc == -1;
    }
    !a.is_dir || b.is_dir
}

/// Selection sort of entries under `entry_le`.
fn sort_entries(input: Vec<FileSystemEntry>) -> (r: Vec<FileSystemEntry>)
    ensures
        sorted_by(views_of(r@), entry_order()),
        views_of(r@).to_multiset() == views_of(input@).to_multiset(),
{
    broadcast use vstd::seq_lib::group_to_multiset_ensures;

    let ghost all = views_of(input@);
    let mut v = input;
    let mut out: Vec<FileSystemEntry> = Vec::new();
    proof {
        assert(views_of(out@) =~= Seq::<EntryView>::empty());
        assert(views_of(out@).to_multiset().add(views_of(v@).to_multiset()) =~= all.to_multiset());
    }
    while v.len() > 0
        invariant
            forall|p: int, q: int|
                0 <= p < q < views_of(out@).len() ==> entry_le(
                    views_of(out@)[p],
                    views_of(out@)[q],
                ),
            forall|p: int, q: int|
                0 <= p < views_of(out@).len() && 0 <= q < views_of(v@).len() ==> entry_le(
                    views_of(out@)[p],
                    views_of(v@)[q],
                ),
            views_of(out@).to_multiset().add(views_of(v@).to_multiset()) == all.to_multiset(),
        decreases v@.len(),
    {
        let mut m: usize = 0;
        let mut k: usize = 1;
        while k < v.len()
            invariant
                v@.len() > 0,
                m < k,
                k <= v@.len(),
                forall|t: int| 0 <= t < k ==> entry_le(views_of(v@)[m as int], views_of(v@)[t]),
            decreases v@.len() - k,
        {
            if entry_le_exec(&v[k], &v[m]) {
                proof {
                    assert forall|t: int| 0 <= t < k + 1 implies entry_le(
                        views_of(v@)[k as int],
                        views_of(v@)[t],
                    ) by {
                        if t < k {
                            lemma_entry_trans(
                                views_of(v@)[k as int],
                                views_of(v@)[m as int],
                                views_of(v@)[t],
                            );
                        } else {
                            lemma_entry_refl(views_of(v@)[k as int]);
                        }
                    }
                }
                m = k;
            } else {
                proof {
                    lemma_entry_total(views_of(v@)[m as int], views_of(v@)[k as int]);
                }
            }
            k = k + 1;
        }
        let ghost vbefore = views_of(v@);
        let ghost obefore = views_of(out@);
        let e = v.remove(m);
        out.push(e);
        proof {
            broadcast use vstd::seq_lib::group_to_multiset_ensures;
            broadcast use vstd::multiset::group_multiset_axioms;

            assert(views_of(v@) =~= vbefore.remove(m as int));
            assert(views_of(out@) =~= obefore.push(e@));
            assert(e@ == vbefore[m as int]);
            assert(vbefore.remove(m as int).to_multiset() =~= vbefore.to_multiset().remove(
                vbefore[m as int],
            ));
            assert(obefore.push(e@).to_multiset() =~= obefore.to_multiset().insert(e@));
            assert(views_of(v@).to_multiset() =~= vbefore.to_multiset().remove(e@));
            assert(views_of(out@).to_multiset() =~= obefore.to_multiset().insert(e@));
            assert(vbefore.to_multiset().count(e@) > 0) by {
                assert(vbefore.contains(vbefore[m as int]));
            }
            assert(views_of(out@).to_multiset().add(views_of(v@).to_multiset())
                =~= obefore.to_multiset().add(vbefore.to_multiset()));
            assert forall|p: int, q: int|
                0 <= p < views_of(out@).len() && 0 <= q < views_of(v@).len() implies entry_le(
                views_of(out@)[p],
                views_of(v@)[q],
            ) by {
                let nv = views_of(v@);
                let no = views_of(out@);
                assert(nv[q] == (if q < m { vbefore[q] } else { vbefore[q + 1] }));
                if p < obefore.len() {
                    assert(no[p] == obefore[p]);
                } else {
                    assert(no[p] == e@);
                }
            }
            assert forall|p: int, q: int|
                0 <= p < q < views_of(out@).len() implies entry_le(
                views_of(out@)[p],
                views_of(out@)[q],
            ) by {
                let no = views_of(out@);
                if q == obefore.len() {
                    assert(no[q] == e@);
                    assert(obefore[p] == no[p]);
                    assert(vbefore.contains(e@));
                }
            }
        }
    }
    proof {
        broadcast use vstd::seq_lib::group_to_multiset_ensures;
        broadcast use vstd::multiset::group_multiset_axioms;

        assert(views_of(v@) =~= Seq::<EntryView>::empty());
        assert(views_of(v@).to_multiset() =~= Seq::<EntryView>::empty().to_multiset());
        assert(views_of(out@).to_multiset() =~= all.to_multiset());
        let r = entry_order();
        assert forall|p: int, q: int| 0 <= p < q < views_of(out@).len() implies #[trigger] r(
            views_of(out@)[p],
            views_of(out@)[q],
        ) by {
            assert(entry_le(views_of(out@)[p], views_of(out@)[q]));
        }
    }
    out
}

impl DbCache {
    /// Case-insensitive substring search over the flushed rows, ordered
    /// `.exe` first then alphabetically, returning the given zero-based
    /// page of at most `PAGE_SIZE` entries.
    pub fn search(&self, name: &str, page: &u32) -> (r: Vec<FileSystemEntry>)
        ensures
            views_of(r@) == page_slice(search_spec(self@.rows, name@), *page as nat),
    {
        let ghost rows = self@.rows;
        let ghost p = query_pred(name@);
        let mut matched: Vec<FileSystemEntry> = Vec::new();
        proof {
            reveal(Seq::filter);
            assert(rows.subrange(0, 0) =~= Seq::<EntryView>::empty());
            assert(views_of(matched@) =~= rows.subrange(0, 0).filter(p));
        }
        let mut i: usize = 0;
        while i < self.rows.len()
            invariant
                i <= self.rows@.len(),
                rows == views_of(self.rows@),
                p == query_pred(name@),
                views_of(matched@) == rows.subrange(0, i as int).filter(p),
            decreases self.rows@.len() - i,
        {
            let ghost mbefore = views_of(matched@);
            let row_matches = contains_ignore_case(self.rows[i].name.as_str(), name);
            proof {
                lemma_filter_push(rows.subrange(0, i as int), p, rows[i as int]);
                assert(rows.subrange(0, i + 1) =~= rows.subrange(0, i as int).push(
                    rows[i as int],
                ));
                assert(p(rows[i as int]) == name_matches(self.rows@[i as int].name@, name@));
            }
            if row_matches {
                let row = self.rows[i].clone();
                matched.push(row);
                proof {
                    assert(views_of(matched@) =~= mbefore.push(rows[i as int]));
                }
            }
            i = i + 1;
        }
        proof {
            assert(rows.subrange(0, rows.len() as int) =~= rows);
        }
        let sorted = sort_entries(matched);
        proof {
            lemma_entry_order_total();
            rows.filter(p).lemma_sort_by_ensures(entry_order());
            lemma_sorted_unique(
                views_of(sorted@),
                rows.filter(p).sort_by(entry_order()),
                entry_order(),
            );
            assert(views_of(sorted@) == search_spec(rows, name@));
        }
        let ghost full = search_spec(rows, name@);
        let total = sorted.len();
        let start = (*page as u64) * 15u64;
        proof {
            assert(start == (*page as nat) * (PAGE_SIZE as nat));
        }
        let lo = if start > total as u64 {
            total
        } else {
            start as usize
        };
        let hi = if total - lo >= PAGE_SIZE {
            lo + PAGE_SIZE
        } else {
            total
        };
        let mut out: Vec<FileSystemEntry> = Vec::new();
        proof {
            assert(views_of(out@) =~= full.subrange(lo as int, lo as int));
        }
        let mut k: usize = lo;
        while k < hi
            invariant
                lo <= k <= hi,
                hi <= total,
                total == sorted@.len(),
                full == views_of(sorted@),
                views_of(out@) == full.subrange(lo as int, k as int),
            decreases hi - k,
        {
            let ghost obefore = views_of(out@);
            let item = sorted[k].clone();
            out.push(item);
            proof {
                assert(views_of(out@) =~= obefore.push(full[k as int]));
                assert(full.subrange(lo as int, k + 1) =~= full.subrange(lo as int, k as int).push(
                    full[k as int],
                ));
            }
            k = k + 1;
        }
        proof {
            assert(views_of(out@) =~= page_slice(full, *page as nat));
        }
        out
    }

    /// How many rows match the query, across all pages.
    pub fn count(&self, name: &str) -> (r: u32)
        requires
            self@.rows.len() <= u32::MAX as nat,
        ensures
            r as nat == search_spec(self@.rows, name@).len(),
    {
        broadcast use vstd::seq_lib::group_to_multiset_ensures;

        let ghost rows = self@.rows;
        let ghost p = query_pred(name@);
        let mut cnt: u32 = 0;
        proof {
            reveal(Seq::filter);
            assert(rows.subrange(0, 0) =~= Seq::<EntryView>::empty());
        }
        let mut i: usize = 0;
        while i < self.rows.len()
            invariant
                i <= self.rows@.len(),
                rows == views_of(self.rows@),
                rows.len() <= u32::MAX as nat,
                p == query_pred(name@),
                cnt as nat == rows.subrange(0, i as int).filter(p).len(),
                cnt as nat <= i,
            decreases self.rows@.len() - i,
        {
            let row_matches = contains_ignore_case(self.rows[i].name.as_str(), name);
            proof {
                lemma_filter_push(rows.subrange(0, i as int), p, rows[i as int]);
                assert(rows.subrange(0, i + 1) =~= rows.subrange(0, i as int).push(
                    rows[i as int],
                ));
                assert(p(rows[i as int]) == name_matches(self.rows@[i as int].name@, name@));
            }
            if row_matches {
                cnt = cnt + 1;
            }
            i = i + 1;
        }
        proof {
            broadcast use vstd::seq_lib::group_to_multiset_ensures;

            assert(rows.subrange(0, rows.len() as int) =~= rows);
            lemma_entry_order_total();
            rows.filter(p).lemma_sort_by_ensures(entry_order());
            assert(search_spec(rows, name@).to_multiset().len() == rows.filter(
                p,
            ).to_multiset().len());
        }
        cnt
    }
}

/// An element of a filtered sequence: if `s[i]` satisfies the predicate,
/// the filtered sequence contains it.
pub proof fn lemma_filter_contains<A>(s: Seq<A>, p: spec_fn(A) -> bool, i: int)
    requires
        0 <= i < s.len(),
        p(s[i]),
    ensures
        s.filter(p).contains(s[i]),
    decreases s.len(),
{
    reveal(Seq::filter);
    if i == s.len() - 1 {
        assert(s.filter(p).last() == s[i]);
    } else {
        lemma_filter_contains(s.drop_last(), p, i);
        let sub = s.drop_last().filter(p);
        let j = choose|j: int| 0 <= j < sub.len() && sub[j] == s[i];
        if p(s.last()) {
            assert(s.filter(p)[j] == s[i]);
        } else {
            assert(s.filter(p)[j] == s[i]);
        }
    }
}

/// Uniqueness: in a well-formed index no `(path, name)` pair appears
/// twice — neither among the rows nor in the write buffer.
pub proof fn lemma_index_unique(v: IndexView)
    requires
        pairs_ok(v),
    ensures
        pairs_unique(v.rows),
        pairs_unique(v.buffer),
{
    let all = v.rows + v.buffer;
    assert forall|i: int, j: int| 0 <= i < j < v.rows.len() implies !same_pair(
        v.rows[i],
        v.rows[j],
    ) by {
        assert(all[i] == v.rows[i]);
        assert(all[j] == v.rows[j]);
    }
    assert forall|i: int, j: int| 0 <= i < j < v.buffer.len() implies !same_pair(
        v.buffer[i],
        v.buffer[j],
    ) by {
        assert(all[v.rows.len() + i] == v.buffer[i]);
        assert(all[v.rows.len() + j] == v.buffer[j]);
    }
}

/// Uniqueness: a sequence with unique pairs holds at most one entry with
/// any given `(path, name)` pair.
pub proof fn lemma_at_most_one_row(s: Seq<EntryView>, e: EntryView)
    requires
        pairs_unique(s),
    ensures
        forall|i: int, j: int|
            0 <= i < s.len() && 0 <= j < s.len() && same_pair(s[i], e) && same_pair(s[j], e)
                ==> i == j,
{
    assert forall|i: int, j: int|
        0 <= i < s.len() && 0 <= j < s.len() && same_pair(s[i], e) && same_pair(
            s[j],
            e,
        ) implies i == j by {
        if i < j {
            assert(same_pair(s[i], s[j]));
        }
        if j < i {
            assert(same_pair(s[j], s[i]));
        }
    }
}

/// A store never loses anything: the stored pair is in the index
/// afterwards, and every pair already present stays present.
pub proof fn lemma_store_step_keeps(v: IndexView, e: EntryView)
    ensures
        has_pair(store_step(v, e).rows, e) || has_pair(store_step(v, e).buffer, e),
        forall|x: EntryView|
            has_pair(v.rows, x) || has_pair(v.buffer, x) ==> has_pair(store_step(v, e).rows, x)
                || has_pair(store_step(v, e).buffer, x),
{
    let sp = store_step(v, e);
    if !(has_pair(v.rows, e) || has_pair(v.buffer, e)) {
        let nb = v.buffer.push(e);
        assert(same_pair(nb[nb.len() - 1], e));
        assert(has_pair(nb, e));
        if nb.len() >= BUFFER_SIZE as nat {
            lemma_has_pair_concat(v.rows, nb, e);
        }
        assert forall|x: EntryView|
            has_pair(v.rows, x) || has_pair(v.buffer, x) implies has_pair(sp.rows, x)
            || has_pair(sp.buffer, x) by {
            if has_pair(v.buffer, x) {
                let i = choose|i: int| 0 <= i < v.buffer.len() && same_pair(v.buffer[i], x);
                assert(same_pair(nb[i], x));
            }
            if nb.len() >= BUFFER_SIZE as nat {
                lemma_has_pair_concat(v.rows, nb, x);
            }
        }
    }
}

/// Flush durability: everything stored — rows or still buffered — is
/// among the rows once the buffer is flushed.
pub proof fn lemma_flush_durable(v: IndexView, e: EntryView)
    requires
        has_pair(v.rows, e) || has_pair(v.buffer, e),
    ensures
        has_pair(flush_step(v).rows, e),
{
    lemma_has_pair_concat(v.rows, v.buffer, e);
}

proof fn lemma_store_fold_monotone(v: IndexView, es: Seq<EntryView>, x: EntryView)
    requires
        has_pair(v.rows, x) || has_pair(v.buffer, x),
    ensures
        has_pair(store_fold(v, es).rows, x) || has_pair(store_fold(v, es).buffer, x),
    decreases es.len(),
{
    if es.len() > 0 {
        lemma_store_step_keeps(v, es[0]);
        lemma_store_fold_monotone(store_step(v, es[0]), es.subrange(1, es.len() as int), x);
    }
}

proof fn lemma_store_fold_has(v: IndexView, es: Seq<EntryView>, k: int)
    requires
        0 <= k < es.len(),
    ensures
        has_pair(store_fold(v, es).rows, es[k]) || has_pair(store_fold(v, es).buffer, es[k]),
    decreases es.len(),
{
    let tail = es.subrange(1, es.len() as int);
    if k == 0 {
        lemma_store_step_keeps(v, es[0]);
        lemma_store_fold_monotone(store_step(v, es[0]), tail, es[0]);
    } else {
        assert(tail[k - 1] == es[k]);
        lemma_store_fold_has(store_step(v, es[0]), tail, k - 1);
    }
}

proof fn lemma_store_fold_noop(v: IndexView, es: Seq<EntryView>)
    requires
        forall|k: int| 0 <= k < es.len() ==> has_pair(v.rows, es[k]),
    ensures
        store_fold(v, es) == v,
    decreases es.len(),
{
    if es.len() > 0 {
        assert(has_pair(v.rows, es[0]));
        assert(store_step(v, es[0]) == v);
        let tail = es.subrange(1, es.len() as int);
        assert(forall|k: int| 0 <= k < tail.len() ==> tail[k] == es[k + 1]);
        lemma_store_fold_noop(v, tail);
    }
}

/// Idempotent mapping: storing the same batch of discovered entries a
/// second time, after the first pass was flushed, leaves the rows as the
/// first pass left them.
pub proof fn lemma_mapping_idempotent(v0: IndexView, es: Seq<EntryView>)
    ensures
        ({
            let once = flush_step(store_fold(v0, es));
            flush_step(store_fold(once, es)).rows == once.rows
        }),
{
    let m = store_fold(v0, es);
    let once = flush_step(m);
    assert forall|k: int| 0 <= k < es.len() implies has_pair(once.rows, es[k]) by {
        lemma_store_fold_has(v0, es, k);
        lemma_flush_durable(m, es[k]);
    }
    lemma_store_fold_noop(once, es);
    assert(flush_step(once).rows =~= once.rows);
}

/// The concatenation of the first `n` pages of an ordered result set.
pub open spec fn pages_concat(s: Seq<EntryView>, n: nat) -> Seq<EntryView>
    decreases n,
{
    if n == 0 {
        Seq::empty()
    } else {
        pages_concat(s, (n - 1) as nat) + page_slice(s, (n - 1) as nat)
    }
}

/// Pagination stability: the pages are disjoint, contiguous slices —
/// laid end to end they are exactly the prefix of the ordered result set
/// that they span.
pub proof fn lemma_pages_partition(s: Seq<EntryView>, n: nat)
    ensures
        pages_concat(s, n) == s.subrange(
            0,
            if 15 * n <= s.len() {
                15 * n as int
            } else {
                s.len() as int
            },
        ),
    decreases n,
{
    if n == 0 {
        assert(pages_concat(s, 0) =~= s.subrange(0, 0));
    } else {
        let m = (n - 1) as nat;
        lemma_pages_partition(s, m);
        let lo: int = if 15 * m <= s.len() {
            15 * m as int
        } else {
            s.len() as int
        };
        let hi: int = if 15 * n <= s.len() {
            15 * n as int
        } else {
            s.len() as int
        };
        assert(page_slice(s, m) == s.subrange(lo, hi));
        assert(pages_concat(s, n) =~= s.subrange(0, lo) + s.subrange(lo, hi));
        assert(s.subrange(0, lo) + s.subrange(lo, hi) =~= s.subrange(0, hi));
    }
}

/// Once `15 * n` reaches the result count, the first `n` pages together
/// are the whole ordered result set; with `count`'s contract, the page
/// sizes therefore sum to the count.
pub proof fn lemma_pages_cover_all(s: Seq<EntryView>, n: nat)
    requires
        15 * n >= s.len(),
    ensures
        pages_concat(s, n) == s,
{
    lemma_pages_partition(s, n);
    assert(s.subrange(0, s.len() as int) =~= s);
}

/// The page sizes of the first `n` pages, added up.
pub open spec fn pages_len_sum(s: Seq<EntryView>, n: nat) -> nat
    decreases n,
{
    if n == 0 {
        0
    } else {
        pages_len_sum(s, (n - 1) as nat) + page_slice(s, (n - 1) as nat).len()
    }
}

proof fn lemma_pages_len_sum_is_concat_len(s: Seq<EntryView>, n: nat)
    ensures
        pages_len_sum(s, n) == pages_concat(s, n).len(),
    decreases n,
{
    if n > 0 {
        lemma_pages_len_sum_is_concat_len(s, (n - 1) as nat);
    }
}

/// `count` counts exactly the matching rows: the ordered result set a
/// query produces has one entry per row whose name matches, no more.
pub proof fn lemma_count_is_match_count(rows: Seq<EntryView>, q: Seq<char>)
    ensures
        search_spec(rows, q).len() == rows.filter(query_pred(q)).len(),
{
    broadcast use vstd::seq_lib::group_to_multiset_ensures;

    lemma_entry_order_total();
    let f = rows.filter(query_pred(q));
    f.lemma_sort_by_ensures(entry_order());
    assert(search_spec(rows, q).len() == search_spec(rows, q).to_multiset().len());
    assert(f.len() == f.to_multiset().len());
}

/// The sum of all page sizes equals the count: once `15 * n` reaches the
/// match count, the first `n` pages' lengths add up to exactly the
/// number of matching rows.
pub proof fn lemma_count_is_page_sum(rows: Seq<EntryView>, q: Seq<char>, n: nat)
    requires
        15 * n >= search_spec(rows, q).len(),
    ensures
        pages_len_sum(search_spec(rows, q), n) == rows.filter(query_pred(q)).len(),
{
    let s = search_spec(rows, q);
    lemma_pages_len_sum_is_concat_len(s, n);
    lemma_pages_cover_all(s, n);
    lemma_count_is_match_count(rows, q);
}

/// Every stored, flushed entry that matches a query is on some page of
/// that query's results: search never loses a matching row.
pub proof fn lemma_row_searchable(rows: Seq<EntryView>, q: Seq<char>, i: int)
    requires
        0 <= i < rows.len(),
        name_matches(rows[i].name, q),
    ensures
        exists|p: nat| page_slice(search_spec(rows, q), p).contains(rows[i]),
{
    broadcast use vstd::seq_lib::group_to_multiset_ensures;

    let e = rows[i];
    let p = query_pred(q);
    lemma_filter_contains(rows, p, i);
    let f = rows.filter(p);
    lemma_entry_order_total();
    f.lemma_sort_by_ensures(entry_order());
    let s = search_spec(rows, q);
    assert(f.to_multiset().count(e) > 0);
    assert(s.to_multiset().count(e) > 0);
    assert(s.contains(e));
    let j = choose|j: int| 0 <= j < s.len() && s[j] == e;
    let pg = (j / 15) as nat;
    vstd::arithmetic::div_mod::lemma_fundamental_div_mod(j, 15);
    vstd::arithmetic::div_mod::lemma_mod_division_less_than_divisor(j, 15);
    assert(15 * pg <= j < 15 * pg + 15);
    let slice = page_slice(s, pg);
    assert(slice[j - 15 * pg] == s[j]);
    assert(slice.contains(e));
}

} // verus!

