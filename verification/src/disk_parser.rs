//! The direct search engine: walks directory listings live, without a
//! durable index, collecting every entry whose name matches the query
//! case-insensitively and whose path is not excluded.
//!
//! The walk itself is a state machine driven from outside: the caller
//! pops the next directory to list, reads it, and feeds the children
//! back. Everything the walk decides — exclusion, matching, which
//! subtrees to descend into — is verified here.

use vstd::prelude::*;
use vstd::string::*;
use crate::cache::ResultCache;
use crate::configuration::{clone_strings, excluded_by, SearchConfig};
use crate::db_cache::{lemma_filter_push, views_of, EntryView, FileSystemEntry};
use crate::text::{contains_ignore_case, name_matches};

verus! {

/// One match found by a direct search.
#[derive(Debug)]
pub struct SearchResult {
    pub filename: String,
    pub filepath: String,
    pub filetype: String,
}

/// The mathematical value of a `SearchResult`.
#[verifier::ext_equal]
pub struct ResultView {
    pub filename: Seq<char>,
    pub filepath: Seq<char>,
    pub filetype: Seq<char>,
}

impl View for SearchResult {
    type V = ResultView;

    open spec fn view(&self) -> ResultView {
        ResultView {
            filename: self.filename@,
            filepath: self.filepath@,
            filetype: self.filetype@,
        }
    }
}

impl DeepView for SearchResult {
    type V = ResultView;

    open spec fn deep_view(&self) -> ResultView {
        self.view()
    }
}

impl SearchResult {
    pub fn new(filename: String, filepath: String, filetype: String) -> (r: SearchResult)
        ensures
            r@ == (ResultView { filename: filename@, filepath: filepath@, filetype: filetype@ }),
    {
        SearchResult { filename, filepath, filetype }
    }
}

impl Clone for SearchResult {
    fn clone(&self) -> (r: SearchResult)
        ensures
            r == *self,
    {
        let r = SearchResult {
            filename: self.filename.clone(),
            filepath: self.filepath.clone(),
            filetype: self.filetype.clone(),
        };
        assert(r == *self);
        r
    }
}

/// Clone a list of results, value for value.
pub fn clone_results(v: &Vec<SearchResult>) -> (r: Vec<SearchResult>)
    ensures
        r@ == v@,
{
    let mut r: Vec<SearchResult> = Vec::new();
    let mut i: usize = 0;
    while i < v.len()
        invariant
            i <= v@.len(),
            r@ == v@.subrange(0, i as int),
        decreases v@.len() - i,
    {
        r.push(v[i].clone());
        proof {
            assert(r@ =~= v@.subrange(0, i + 1));
        }
        i = i + 1;
    }
    proof {
        assert(v@.subrange(0, v@.len() as int) =~= v@);
    }
    r
}

/// The result a discovered entry turns into: directories are folders,
/// everything else is a file.
pub open spec fn result_of(e: EntryView) -> ResultView {
    ResultView {
        filename: e.name,
        filepath: e.path,
        filetype: if e.is_dir {
            "folder"@
        } else {
            "file"@
        },
    }
}

/// Which discovered entries a query keeps: not excluded, and matching.
pub open spec fn keep_pred(q: Seq<char>, ex: Seq<Seq<char>>) -> spec_fn(EntryView) -> bool {
    |e: EntryView| !excluded_by(e.path, ex) && name_matches(e.name, q)
}

/// Which children continue the walk: non-excluded directories.
pub open spec fn descend_pred(ex: Seq<Seq<char>>) -> spec_fn(EntryView) -> bool {
    |e: EntryView| e.is_dir && !excluded_by(e.path, ex)
}

/// The mathematical state of a walk.
#[verifier::ext_equal]
pub struct WalkView {
    pub query: Seq<char>,
    pub excludes: Seq<Seq<char>>,
    pub stack: Seq<Seq<char>>,
    pub results: Seq<ResultView>,
}

/// No excluded path ever sits on the stack or appears in the results.
pub open spec fn walk_wf(w: WalkView) -> bool {
    &&& forall|i: int| 0 <= i < w.stack.len() ==> !excluded_by(w.stack[i], w.excludes)
    &&& forall|i: int|
        0 <= i < w.results.len() ==> !excluded_by(w.results[i].filepath, w.excludes)
}

/// One direct search in progress: directories still to list, and the
/// matches found so far.
pub struct SearchWalk {
    query: String,
    config: SearchConfig,
    stack: Vec<String>,
    results: Vec<SearchResult>,
}

impl View for SearchWalk {
    type V = WalkView;

    closed spec fn view(&self) -> WalkView {
        WalkView {
            query: self.query@,
            excludes: self.config.excludes(),
            stack: self.stack.deep_view(),
            results: self.results.deep_view(),
        }
    }
}

impl SearchWalk {
    /// Begin a walk of the given roots; excluded roots are dropped whole.
    pub fn new(query: String, config: SearchConfig, roots: Vec<String>) -> (w: SearchWalk)
        ensures
            walk_wf(w@),
            w@.query == query@,
            w@.excludes == config.excludes(),
            w@.stack == roots.deep_view().filter(
                |p: Seq<char>| !excluded_by(p, config.excludes()),
            ),
            w@.results == Seq::<ResultView>::empty(),
    {
        let ghost keep = |p: Seq<char>| !excluded_by(p, config.excludes());
        let mut stack: Vec<String> = Vec::new();
        proof {
            reveal(Seq::filter);
            assert(roots.deep_view().subrange(0, 0) =~= Seq::<Seq<char>>::empty());
            assert(stack.deep_view() =~= roots.deep_view().subrange(0, 0).filter(keep));
        }
        let mut i: usize = 0;
        while i < roots.len()
            invariant
                i <= roots@.len(),
                keep == (|p: Seq<char>| !excluded_by(p, config.excludes())),
                stack.deep_view() == roots.deep_view().subrange(0, i as int).filter(keep),
                forall|t: int|
                    0 <= t < stack.deep_view().len() ==> !excluded_by(
                        stack.deep_view()[t],
                        config.excludes(),
                    ),
            decreases roots@.len() - i,
        {
            let ghost prefix = roots.deep_view().subrange(0, i as int);
            let ghost sbefore = stack.deep_view();
            let excluded = config.is_excluded(roots[i].as_str());
            proof {
                lemma_filter_push(prefix, keep, roots.deep_view()[i as int]);
                assert(roots.deep_view().subrange(0, i + 1) =~= prefix.push(
                    roots.deep_view()[i as int],
                ));
            }
            if !excluded {
                stack.push(roots[i].clone());
                proof {
                    assert(stack.deep_view() =~= sbefore.push(roots.deep_view()[i as int]));
                }
            }
            i = i + 1;
        }
        proof {
            assert(roots.deep_view().subrange(0, roots.deep_view().len() as int)
                =~= roots.deep_view());
        }
        let w = SearchWalk { query, config, stack, results: Vec::new() };
        proof {
            assert(w@.results =~= Seq::<ResultView>::empty());
        }
        w
    }

    /// Pop the next directory to list, newest first; `None` ends the walk.
    pub fn next_dir(&mut self) -> (r: Option<String>)
        requires
            walk_wf(old(self)@),
        ensures
            walk_wf(final(self)@),
            final(self)@.query == old(self)@.query,
            final(self)@.excludes == old(self)@.excludes,
            final(self)@.results == old(self)@.results,
            old(self)@.stack.len() == 0 ==> r is None && final(self)@.stack == old(self)@.stack,
            old(self)@.stack.len() > 0 ==> {
                &&& r is Some
                &&& r->0@ == old(self)@.stack.last()
                &&& !excluded_by(r->0@, old(self)@.excludes)
                &&& final(self)@.stack == old(self)@.stack.drop_last()
            },
    {
        let r = self.stack.pop();
        proof {
            if old(self)@.stack.len() > 0 {
                assert(self@.stack =~= old(self)@.stack.drop_last());
                assert forall|i: int| 0 <= i < self@.stack.len() implies !excluded_by(
                    self@.stack[i],
                    self@.excludes,
                ) by {
                    assert(self@.stack[i] == old(self)@.stack[i]);
                }
            } else {
                assert(self@.stack =~= old(self)@.stack);
            }
            assert forall|i: int| 0 <= i < self@.results.len() implies !excluded_by(
                self@.results[i].filepath,
                self@.excludes,
            ) by {
                assert(self@.results[i] == old(self)@.results[i]);
                assert(!excluded_by(old(self)@.results[i].filepath, old(self)@.excludes));
            }
        }
        r
    }

    /// Consume the listing of a directory: emit a result for every child
    /// that is kept, and push every non-excluded child directory.
    pub fn feed_listing(&mut self, children: Vec<FileSystemEntry>)
        requires
            walk_wf(old(self)@),
        ensures
            walk_wf(final(self)@),
            final(self)@.query == old(self)@.query,
            final(self)@.excludes == old(self)@.excludes,
            final(self)@.results == old(self)@.results + views_of(children@).filter(
                keep_pred(old(self)@.query, old(self)@.excludes),
            ).map_values(|e: EntryView| result_of(e)),
            final(self)@.stack == old(self)@.stack + views_of(children@).filter(
                descend_pred(old(self)@.excludes),
            ).map_values(|e: EntryView| e.path),
    {
        let ghost q = self@.query;
        let ghost ex = self@.excludes;
        let ghost kids = views_of(children@);
        let ghost r0 = self@.results;
        let ghost s0 = self@.stack;
        let ghost to_result = |e: EntryView| result_of(e);
        let ghost to_path = |e: EntryView| e.path;
        proof {
            reveal(Seq::filter);
            assert(kids.subrange(0, 0) =~= Seq::<EntryView>::empty());
            assert(self@.results =~= r0 + kids.subrange(0, 0).filter(keep_pred(q, ex)).map_values(
                to_result,
            ));
            assert(self@.stack =~= s0 + kids.subrange(0, 0).filter(descend_pred(ex)).map_values(
                to_path,
            ));
        }
        let mut i: usize = 0;
        while i < children.len()
            invariant
                i <= children@.len(),
                kids == views_of(children@),
                q == self@.query,
                ex == self@.excludes,
                walk_wf(self@),
                self@.results == r0 + kids.subrange(0, i as int).filter(
                    keep_pred(q, ex),
                ).map_values(to_result),
                self@.stack == s0 + kids.subrange(0, i as int).filter(
                    descend_pred(ex),
                ).map_values(to_path),
                to_result == (|e: EntryView| result_of(e)),
                to_path == (|e: EntryView| e.path),
            decreases children@.len() - i,
        {
            let ghost child = kids[i as int];
            let ghost rbefore = self@.results;
            let ghost sbefore = self@.stack;
            proof {
                lemma_filter_push(kids.subrange(0, i as int), keep_pred(q, ex), child);
                lemma_filter_push(kids.subrange(0, i as int), descend_pred(ex), child);
                assert(kids.subrange(0, i + 1) =~= kids.subrange(0, i as int).push(child));
            }
            let excluded = self.config.is_excluded(children[i].path.as_str());
            if !excluded {
                let matches = contains_ignore_case(
                    children[i].name.as_str(),
                    self.query.as_str(),
                );
                if matches {
                    let filetype = if children[i].is_dir {
                        String::from_str("folder")
                    } else {
                        String::from_str("file")
                    };
                    let item = SearchResult::new(
                        children[i].name.clone(),
                        children[i].path.clone(),
                        filetype,
                    );
                    proof {
                        assert(item@ == result_of(child));
                    }
                    self.results.push(item);
                    proof {
                        assert(self@.results =~= rbefore.push(result_of(child)));
                    }
                }
                if children[i].is_dir {
                    self.stack.push(children[i].path.clone());
                    proof {
                        assert(self@.stack =~= sbefore.push(child.path));
                    }
                }
            }
            proof {
                let kp = kids.subrange(0, i + 1).filter(keep_pred(q, ex)).map_values(to_result);
                let dp = kids.subrange(0, i + 1).filter(descend_pred(ex)).map_values(to_path);
                if keep_pred(q, ex)(child) {
                    assert(kp =~= kids.subrange(0, i as int).filter(keep_pred(q, ex)).map_values(
                        to_result,
                    ).push(result_of(child)));
                } else {
                    assert(kp =~= kids.subrange(0, i as int).filter(keep_pred(q, ex)).map_values(
                        to_result,
                    ));
                }
                if descend_pred(ex)(child) {
                    assert(dp =~= kids.subrange(0, i as int).filter(descend_pred(ex)).map_values(
                        to_path,
                    ).push(child.path));
                } else {
                    assert(dp =~= kids.subrange(0, i as int).filter(descend_pred(ex)).map_values(
                        to_path,
                    ));
                }
                assert(self@.results =~= r0 + kp);
                assert(self@.stack =~= s0 + dp);
            }
            i = i + 1;
        }
        proof {
            assert(kids.subrange(0, kids.len() as int) =~= kids);
        }
    }

    /// The matches collected so far; consumes the walk.
    pub fn into_results(self) -> (r: Vec<SearchResult>)
        ensures
            r.deep_view() == self@.results,
    {
        let SearchWalk { query: _, config: _, stack: _, results } = self;
        results
    }
}

/// Exclusion correctness for a whole walk: nothing that a walk ever
/// emits has an excluded path.
pub proof fn lemma_walk_exclusion(w: WalkView, i: int)
    requires
        walk_wf(w),
        0 <= i < w.results.len(),
    ensures
        !excluded_by(w.results[i].filepath, w.excludes),
{
}

/// The direct search engine: chooses the roots, runs walks, and hands
/// finished results to the query cache.
pub struct DiskParser {
    config: SearchConfig,
    results: Vec<SearchResult>,
    cache: ResultCache,
}

impl DiskParser {
    /// The engine's configured exclusion substrings.
    pub closed spec fn excludes(&self) -> Seq<Seq<char>> {
        self.config.excludes()
    }

    /// The configured include roots, if any.
    pub closed spec fn includes_view(&self) -> Option<Seq<String>> {
        self.config.includes_view()
    }

    /// The configured include roots as character sequences; meaningful
    /// only when include roots are configured.
    pub closed spec fn include_roots(&self) -> Seq<Seq<char>> {
        self.config.include_roots()
    }

    /// The results of the last finished search.
    pub closed spec fn results_view(&self) -> Seq<ResultView> {
        self.results.deep_view()
    }

    /// The query cache this engine fills.
    pub closed spec fn cache_view(&self) -> Map<Seq<char>, Seq<ResultView>> {
        self.cache@
    }

    pub closed spec fn wf(&self) -> bool {
        self.cache.wf()
    }

    pub fn new(config: SearchConfig, cache: ResultCache) -> (p: DiskParser)
        requires
            cache.wf(),
        ensures
            p.wf(),
            p.excludes() == config.excludes(),
            p.includes_view() == config.includes_view(),
            p.results_view() == Seq::<ResultView>::empty(),
            p.cache_view() == cache@,
    {
        let p = DiskParser { config, results: Vec::new(), cache };
        proof {
            assert(p.results.deep_view() =~= Seq::<ResultView>::empty());
        }
        p
    }

    /// The cache itself, for a caller that persists its snapshot.
    pub fn cache(&self) -> (r: &ResultCache)
        requires
            self.wf(),
        ensures
            r.wf(),
            r@ == self.cache_view(),
    {
        &self.cache
    }

    /// A cached result list for this query, if the cache knows one.
    pub fn cached(&self, filename: String) -> (r: Option<&Vec<SearchResult>>)
        requires
            self.wf(),
        ensures
            match r {
                Some(v) => self.cache_view().contains_key(filename@) && v.deep_view()
                    == self.cache_view()[filename@],
                None => !self.cache_view().contains_key(filename@),
            },
    {
        self.cache.get(filename)
    }

    /// Begin a search over the configured include roots; `None` when no
    /// roots are configured and every volume must be walked instead,
    /// through `begin_search_with_roots`.
    pub fn begin_search(&self, filename: String) -> (w: Option<SearchWalk>)
        ensures
            self.includes_view() is Some <==> w is Some,
            w is Some ==> {
                &&& walk_wf(w->0@)
                &&& w->0@.query == filename@
                &&& w->0@.excludes == self.excludes()
                &&& w->0@.stack == self.include_roots().filter(
                    |p: Seq<char>| !excluded_by(p, self.excludes()),
                )
                &&& w->0@.results == Seq::<ResultView>::empty()
            },
    {
        match &self.config.include_dirs {
            Some(dirs) => {
                let roots = clone_strings(dirs);
                proof {
                    assert(roots.deep_view() =~= self.config.include_roots());
                }
                Some(SearchWalk::new(filename, self.config.clone(), roots))
            },
            None => None,
        }
    }

    /// Begin a search over caller-supplied roots (one per volume).
    pub fn begin_search_with_roots(&self, filename: String, roots: Vec<String>) -> (w: SearchWalk)
        ensures
            walk_wf(w@),
            w@.query == filename@,
            w@.excludes == self.excludes(),
            w@.stack == roots.deep_view().filter(|p: Seq<char>| !excluded_by(p, self.excludes())),
            w@.results == Seq::<ResultView>::empty(),
    {
        SearchWalk::new(filename, self.config.clone(), roots)
    }

    /// Take the finished results of a search: remember them, and hand a
    /// copy to the query cache before the caller serializes them.
    pub fn finish_search(&mut self, filename: String, results: Vec<SearchResult>)
        requires
            old(self).wf(),
        ensures
            final(self).wf(),
            final(self).excludes() == old(self).excludes(),
            final(self).includes_view() == old(self).includes_view(),
            final(self).results_view() == results.deep_view(),
            final(self).cache_view() == old(self).cache_view().insert(
                filename@,
                results.deep_view(),
            ),
    {
        let copy = clone_results(&results);
        self.results = results;
        proof {
            assert(copy.deep_view() =~= self.results.deep_view());
        }
        self.cache.set(filename, copy);
    }
}

} // verus!
