//! The filesystem crawler: walks directory trees with an explicit stack,
//! applying the exclusion filter, and feeds every discovered entry to the
//! persistent index.
//!
//! As with the direct search, the filesystem itself is read by the
//! surrounding application: it pops the next directory from the crawler,
//! lists it, and feeds the children back. The crawler decides — verified —
//! what is emitted and which subtrees are entered; the application only
//! moves bytes. The writer side is `DiskMapper`: one owner of the index,
//! absorbing batches of discovered entries.

use vstd::prelude::*;
use crate::configuration::{excluded_by, SearchConfig};
use crate::db_cache::{
    flush_step, lemma_filter_push, store_fold, views_of, DbCache, EntryView, FileSystemEntry,
    IndexView,
};
use crate::disk_parser::descend_pred;

verus! {

/// Entries the crawler hands on: everything not excluded.
pub open spec fn emit_pred(ex: Seq<Seq<char>>) -> spec_fn(EntryView) -> bool {
    |e: EntryView| !excluded_by(e.path, ex)
}

/// The mathematical state of a crawl.
#[verifier::ext_equal]
pub struct CrawlView {
    pub excludes: Seq<Seq<char>>,
    pub stack: Seq<EntryView>,
}

/// No excluded directory ever sits on the crawl stack.
pub open spec fn crawl_wf(c: CrawlView) -> bool {
    forall|i: int| 0 <= i < c.stack.len() ==> !excluded_by(c.stack[i].path, c.excludes)
}

/// One subtree walk in progress: directories still to list.
pub struct Crawler {
    config: SearchConfig,
    stack: Vec<FileSystemEntry>,
}

impl View for Crawler {
    type V = CrawlView;

    closed spec fn view(&self) -> CrawlView {
        CrawlView { excludes: self.config.excludes(), stack: views_of(self.stack@) }
    }
}

impl Crawler {
    /// Begin a walk of the given root directories; excluded roots are
    /// dropped whole, so their subtrees are never entered.
    pub fn new(config: SearchConfig, roots: Vec<FileSystemEntry>) -> (c: Crawler)
        ensures
            crawl_wf(c@),
            c@.excludes == config.excludes(),
            c@.stack == views_of(roots@).filter(emit_pred(config.excludes())),
    {
        let ghost keep = emit_pred(config.excludes());
        let ghost rs = views_of(roots@);
        let mut stack: Vec<FileSystemEntry> = Vec::new();
        proof {
            reveal(Seq::filter);
            assert(rs.subrange(0, 0) =~= Seq::<EntryView>::empty());
            assert(views_of(stack@) =~= rs.subrange(0, 0).filter(keep));
        }
        let mut i: usize = 0;
        while i < roots.len()
            invariant
                i <= roots@.len(),
                rs == views_of(roots@),
                keep == emit_pred(config.excludes()),
                views_of(stack@) == rs.subrange(0, i as int).filter(keep),
            decreases roots@.len() - i,
        {
            let ghost sbefore = views_of(stack@);
            proof {
                lemma_filter_push(rs.subrange(0, i as int), keep, rs[i as int]);
                assert(rs.subrange(0, i + 1) =~= rs.subrange(0, i as int).push(rs[i as int]));
            }
            if !config.is_excluded(roots[i].path.as_str()) {
                stack.push(roots[i].clone());
                proof {
                    assert(views_of(stack@) =~= sbefore.push(rs[i as int]));
                }
            }
            i = i + 1;
        }
        proof {
            assert(rs.subrange(0, rs.len() as int) =~= rs);
        }
        let c = Crawler { config, stack };
        proof {
            assert forall|t: int| 0 <= t < c@.stack.len() implies !excluded_by(
                c@.stack[t].path,
                c@.excludes,
            ) by {
                assert(keep(c@.stack[t]));
            }
        }
        c
    }

    /// Pop the next directory to list, newest first; `None` ends the walk.
    pub fn next_dir(&mut self) -> (r: Option<FileSystemEntry>)
        requires
            crawl_wf(old(self)@),
        ensures
            crawl_wf(final(self)@),
            final(self)@.excludes == old(self)@.excludes,
            old(self)@.stack.len() == 0 ==> r is None && final(self)@.stack == old(self)@.stack,
            old(self)@.stack.len() > 0 ==> {
                &&& r is Some
                &&& r->0@ == old(self)@.stack.last()
                &&& !excluded_by(r->0@.path, old(self)@.excludes)
                &&& final(self)@.stack == old(self)@.stack.drop_last()
            },
    {
        let r = self.stack.pop();
        proof {
            if old(self)@.stack.len() > 0 {
                assert(self@.stack =~= old(self)@.stack.drop_last());
                assert forall|i: int| 0 <= i < self@.stack.len() implies !excluded_by(
                    self@.stack[i].path,
                    self@.excludes,
                ) by {
                    assert(self@.stack[i] == old(self)@.stack[i]);
                }
            } else {
                assert(self@.stack =~= old(self)@.stack);
            }
        }
        r
    }

    /// Consume the listing of a directory: hand back every non-excluded
    /// child for storage, and keep every non-excluded child directory on
    /// the stack for its own listing later.
    pub fn feed_listing(&mut self, children: Vec<FileSystemEntry>) -> (emit: Vec<FileSystemEntry>)
        requires
            crawl_wf(old(self)@),
        ensures
            crawl_wf(final(self)@),
            final(self)@.excludes == old(self)@.excludes,
            views_of(emit@) == views_of(children@).filter(emit_pred(old(self)@.excludes)),
            final(self)@.stack == old(self)@.stack + views_of(children@).filter(
                descend_pred(old(self)@.excludes),
            ),
    {
        let ghost ex = self@.excludes;
        let ghost kids = views_of(children@);
        let ghost s0 = self@.stack;
        let mut emit: Vec<FileSystemEntry> = Vec::new();
        proof {
            reveal(Seq::filter);
            assert(kids.subrange(0, 0) =~= Seq::<EntryView>::empty());
            assert(views_of(emit@) =~= kids.subrange(0, 0).filter(emit_pred(ex)));
            assert(self@.stack =~= s0 + kids.subrange(0, 0).filter(descend_pred(ex)));
        }
        let mut i: usize = 0;
        while i < children.len()
            invariant
                i <= children@.len(),
                kids == views_of(children@),
                ex == self@.excludes,
                crawl_wf(self@),
                views_of(emit@) == kids.subrange(0, i as int).filter(emit_pred(ex)),
                self@.stack == s0 + kids.subrange(0, i as int).filter(descend_pred(ex)),
            decreases children@.len() - i,
        {
            let ghost child = kids[i as int];
            let ghost ebefore = views_of(emit@);
            let ghost sbefore = self@.stack;
            proof {
                lemma_filter_push(kids.subrange(0, i as int), emit_pred(ex), child);
                lemma_filter_push(kids.subrange(0, i as int), descend_pred(ex), child);
                assert(kids.subrange(0, i + 1) =~= kids.subrange(0, i as int).push(child));
            }
            if !self.config.is_excluded(children[i].path.as_str()) {
                emit.push(children[i].clone());
                proof {
                    assert(views_of(emit@) =~= ebefore.push(child));
                }
                if children[i].is_dir {
                    self.stack.push(children[i].clone());
                    proof {
                        assert(self@.stack =~= sbefore.push(child));
                    }
                }
            }
            proof {
                assert(views_of(emit@) =~= kids.subrange(0, i + 1).filter(emit_pred(ex)));
                assert(self@.stack =~= s0 + kids.subrange(0, i + 1).filter(descend_pred(ex)));
            }
            i = i + 1;
        }
        proof {
            assert(kids.subrange(0, kids.len() as int) =~= kids);
        }
        emit
    }
}

/// Exclusion correctness for the crawl: nothing the crawler ever emits
/// has an excluded path.
pub proof fn lemma_crawl_exclusion(
    children: Seq<EntryView>,
    ex: Seq<Seq<char>>,
    i: int,
)
    requires
        0 <= i < children.filter(emit_pred(ex)).len(),
    ensures
        !excluded_by(children.filter(emit_pred(ex))[i].path, ex),
{
    children.lemma_filter_pred(emit_pred(ex), i);
}

/// The writer side of the crawl: the one owner of the persistent index,
/// absorbing batches of discovered entries and flushing at the end.
pub struct DiskMapper {
    config: SearchConfig,
    db_cache: DbCache,
}

impl DiskMapper {
    /// The state of the owned index.
    pub closed spec fn index(&self) -> IndexView {
        self.db_cache@
    }

    /// The configured exclusion substrings.
    pub closed spec fn excludes(&self) -> Seq<Seq<char>> {
        self.config.excludes()
    }

    pub closed spec fn wf(&self) -> bool {
        self.db_cache.wf()
    }

    pub fn new(config: SearchConfig, db_cache: DbCache) -> (m: DiskMapper)
        requires
            db_cache.wf(),
        ensures
            m.wf(),
            m.index() == db_cache@,
            m.excludes() == config.excludes(),
    {
        DiskMapper { config, db_cache }
    }

    /// The index counts as built once at least one row has been flushed.
    pub fn is_mapped(&self) -> (r: bool)
        ensures
            r == (self.index().rows.len() > 0),
    {
        self.db_cache.db_exists()
    }

    /// Begin the walk of one batch of root directories.
    pub fn begin_crawl(&self, roots: Vec<FileSystemEntry>) -> (c: Crawler)
        ensures
            crawl_wf(c@),
            c@.excludes == self.excludes(),
            c@.stack == views_of(roots@).filter(emit_pred(self.excludes())),
    {
        Crawler::new(self.config.clone(), roots)
    }

    /// Absorb one batch of discovered entries into the index.
    pub fn absorb(&mut self, entries: Vec<FileSystemEntry>)
        requires
            old(self).wf(),
        ensures
            final(self).wf(),
            final(self).excludes() == old(self).excludes(),
            final(self).index() == store_fold(old(self).index(), views_of(entries@)),
    {
        self.db_cache.store_all(entries);
    }

    /// End the crawl: flush whatever is still buffered.
    pub fn finish_crawl(&mut self)
        requires
            old(self).wf(),
        ensures
            final(self).wf(),
            final(self).excludes() == old(self).excludes(),
            final(self).index() == flush_step(old(self).index()),
    {
        self.db_cache.flush();
    }

    /// Give the index back to the caller, flushed.
    pub fn into_index(self) -> (c: DbCache)
        requires
            self.wf(),
        ensures
            c.wf(),
            c@ == flush_step(self.index()),
    {
        let DiskMapper { config: _, db_cache: mut c } = self;
        c.flush();
        c
    }
}

} // verus!
