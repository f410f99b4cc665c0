//! A compact search result, carrying only the full path and the type of
//! the entry; the bare file name is recovered from the path on demand.

use vstd::prelude::*;
use vstd::string::*;

verus! {

/// What stands after the last backslash of a path: the bare file name.
pub open spec fn file_name_of(s: Seq<char>) -> Seq<char>
    decreases s.len(),
{
    if s.len() == 0 {
        s
    } else if s.last() == '\\' {
        Seq::empty()
    } else {
        file_name_of(s.drop_last()).push(s.last())
    }
}

/// One match, as the surrounding application ships it around.
#[derive(Debug)]
pub struct SearchResult {
    pub filepath: String,
    pub filetype: String,
}

impl SearchResult {
    pub fn new(filepath: String, filetype: String) -> (r: SearchResult)
        ensures
            r.filepath@ == filepath@,
            r.filetype@ == filetype@,
    {
        SearchResult { filepath, filetype }
    }

    /// The part of the path after its last backslash; the whole path
    /// when it holds no backslash.
    pub fn get_file_name(&self) -> (r: String)
        ensures
            r@ == file_name_of(self.filepath@),
    {
        let s = self.filepath.as_str();
        let n = s.unicode_len();
        let ghost v = self.filepath@;
        let mut cut: usize = 0;
        proof {
            assert(v.subrange(0, 0) =~= Seq::<char>::empty());
            assert(file_name_of(v.subrange(0, 0)) =~= v.subrange(0, 0));
        }
        let mut k: usize = 0;
        while k < n
            invariant
                k <= n,
                cut <= k,
                n == v.len(),
                v == self.filepath@,
                s@ == v,
                file_name_of(v.subrange(0, k as int)) == v.subrange(cut as int, k as int),
            decreases n - k,
        {
            let c = s.get_char(k);
            proof {
                let pre = v.subrange(0, k + 1);
                assert(pre.drop_last() =~= v.subrange(0, k as int));
                assert(pre.last() == v[k as int]);
            }
            if c == '\\' {
                cut = k + 1;
                proof {
                    assert(file_name_of(v.subrange(0, k + 1)) =~= v.subrange(
                        cut as int,
                        k + 1,
                    ));
                }
            } else {
                proof {
                    assert(file_name_of(v.subrange(0, k + 1)) =~= v.subrange(
                        cut as int,
                        k as int,
                    ).push(v[k as int]));
                    assert(v.subrange(cut as int, k as int).push(v[k as int]) =~= v.subrange(
                        cut as int,
                        k + 1,
                    ));
                }
            }
            k = k + 1;
        }
        proof {
            assert(v.subrange(0, n as int) =~= v);
        }
        let tail = s.substring_char(cut, n);
        tail.to_owned()
    }
}

impl Clone for SearchResult {
    fn clone(&self) -> (r: SearchResult)
        ensures
            r.filepath@ == self.filepath@,
            r.filetype@ == self.filetype@,
    {
        SearchResult { filepath: self.filepath.clone(), filetype: self.filetype.clone() }
    }
}

} // verus!
