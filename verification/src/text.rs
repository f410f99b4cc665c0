//! Character-level text primitives: ASCII case folding, case-insensitive
//! substring matching, and lexicographic comparison by code point.
//!
//! All executable functions here are verified against spec functions over
//! `Seq<char>`, the view of `&str` and `String`.

use vstd::prelude::*;
use vstd::string::*;

verus! {

/// ASCII lowercase of one character; everything else is unchanged.
pub open spec fn lower_char(c: char) -> char {
    if 'A' <= c && c <= 'Z' {
        ((c as u8) + 32) as char
    } else {
        c
    }
}

/// ASCII lowercase of a whole character sequence.
pub open spec fn lower_of(s: Seq<char>) -> Seq<char> {
    Seq::new(s.len(), |i: int| lower_char(s[i]))
}

/// `needle` occurs in `hay` starting at position `i`.
pub open spec fn occurs_at(hay: Seq<char>, needle: Seq<char>, i: int) -> bool {
    &&& 0 <= i
    &&& i + needle.len() <= hay.len()
    &&& forall|j: int| 0 <= j < needle.len() ==> hay[i + j] == needle[j]
}

/// `needle` occurs somewhere in `hay`.
pub open spec fn contains_seq(hay: Seq<char>, needle: Seq<char>) -> bool {
    exists|i: int| occurs_at(hay, needle, i)
}

/// A query matches a name when the lowercased query occurs in the
/// lowercased name (ASCII-case-insensitive substring match).
pub open spec fn name_matches(name: Seq<char>, query: Seq<char>) -> bool {
    contains_seq(lower_of(name), lower_of(query))
}

/// The empty query matches every name: a broad enough query to retrieve
/// any stored entry always exists.
pub proof fn lemma_empty_query_matches(name: Seq<char>)
    ensures
        name_matches(name, Seq::<char>::empty()),
{
    assert(lower_of(Seq::<char>::empty()) =~= Seq::<char>::empty());
    assert(occurs_at(lower_of(name), lower_of(Seq::<char>::empty()), 0));
}

/// The name ends in `.exe`, ignoring ASCII case.
pub open spec fn has_exe_suffix(name: Seq<char>) -> bool {
    &&& name.len() >= 4
    &&& lower_char(name[name.len() - 4]) == '.'
    &&& lower_char(name[name.len() - 3]) == 'e'
    &&& lower_char(name[name.len() - 2]) == 'x'
    &&& lower_char(name[name.len() - 1]) == 'e'
}

/// Lexicographic order on character sequences, by code point.
pub open spec fn lex_le(a: Seq<char>, b: Seq<char>) -> bool
    decreases a.len(),
{
    if a.len() == 0 {
        true
    } else if b.len() == 0 {
        false
    } else if a[0] != b[0] {
        a[0] < b[0]
    } else {
        lex_le(a.subrange(1, a.len() as int), b.subrange(1, b.len() as int))
    }
}

pub proof fn lemma_lex_refl(a: Seq<char>)
    ensures
        lex_le(a, a),
    decreases a.len(),
{
    if a.len() > 0 {
        lemma_lex_refl(a.subrange(1, a.len() as int));
    }
}

pub proof fn lemma_lex_total(a: Seq<char>, b: Seq<char>)
    ensures
        lex_le(a, b) || lex_le(b, a),
    decreases a.len(),
{
    if a.len() == 0 {
    } else if b.len() == 0 {
    } else if a[0] != b[0] {
    } else {
        lemma_lex_total(a.subrange(1, a.len() as int), b.subrange(1, b.len() as int));
    }
}

pub proof fn lemma_lex_antisym(a: Seq<char>, b: Seq<char>)
    requires
        lex_le(a, b),
        lex_le(b, a),
    ensures
        a == b,
    decreases a.len(),
{
    if a.len() == 0 {
        assert(b.len() == 0);
        assert(a =~= b);
    } else {
        assert(b.len() != 0);
        assert(a[0] == b[0]);
        let ta = a.subrange(1, a.len() as int);
        let tb = b.subrange(1, b.len() as int);
        lemma_lex_antisym(ta, tb);
        assert forall|i: int| 0 <= i < a.len() implies a[i] == b[i] by {
            if i > 0 {
                assert(ta[i - 1] == tb[i - 1]);
            }
        }
        assert(a =~= b);
    }
}

pub proof fn lemma_lex_trans(a: Seq<char>, b: Seq<char>, c: Seq<char>)
    requires
        lex_le(a, b),
        lex_le(b, c),
    ensures
        lex_le(a, c),
    decreases a.len(),
{
    if a.len() == 0 {
    } else {
        assert(b.len() != 0);
        assert(c.len() != 0);
        if a[0] == b[0] && b[0] == c[0] {
            lemma_lex_trans(
                a.subrange(1, a.len() as int),
                b.subrange(1, b.len() as int),
                c.subrange(1, c.len() as int),
            );
        }
    }
}

/// When the first `i` characters agree, the order is decided by the suffixes.
pub proof fn lemma_lex_suffix(a: Seq<char>, b: Seq<char>, i: int)
    requires
        0 <= i <= a.len(),
        i <= b.len(),
        forall|k: int| 0 <= k < i ==> a[k] == b[k],
    ensures
        lex_le(a, b) == lex_le(
            a.subrange(i, a.len() as int),
            b.subrange(i, b.len() as int),
        ),
    decreases i,
{
    if i == 0 {
        assert(a.subrange(0, a.len() as int) =~= a);
        assert(b.subrange(0, b.len() as int) =~= b);
    } else {
        let ta = a.subrange(1, a.len() as int);
        let tb = b.subrange(1, b.len() as int);
        lemma_lex_suffix(ta, tb, i - 1);
        assert(ta.subrange(i - 1, ta.len() as int) =~= a.subrange(i, a.len() as int));
        assert(tb.subrange(i - 1, tb.len() as int) =~= b.subrange(i, b.len() as int));
    }
}

/// Executable ASCII lowercase of one character.
pub fn to_lower(c: char) -> (r: char)
    ensures
        r == lower_char(c),
{
    if 'A' <= c && c <= 'Z' {
        ((c as u8) + 32) as char
    } else {
        c
    }
}

/// Case-insensitive substring test: does `name` contain `query`?
pub fn contains_ignore_case(name: &str, query: &str) -> (r: bool)
    ensures
        r == name_matches(name@, query@),
{
    let n = name.unicode_len();
    let q = query.unicode_len();
    if q > n {
        assert(forall|i: int| !occurs_at(lower_of(name@), lower_of(query@), i));
        return false;
    }
    let mut i: usize = 0;
    loop
        invariant
            q <= n,
            n == name@.len(),
            q == query@.len(),
            i <= n - q + 1,
            forall|ii: int| 0 <= ii < i ==> !occurs_at(lower_of(name@), lower_of(query@), ii),
        decreases n - q + 1 - i,
    {
        if i > n - q {
            assert forall|ii: int| !occurs_at(lower_of(name@), lower_of(query@), ii) by {
                if 0 <= ii < i {
                } else if ii >= i {
                    assert(ii + lower_of(query@).len() > lower_of(name@).len());
                }
            }
            return false;
        }
        let mut j: usize = 0;
        let mut ok = true;
        while j < q && ok
            invariant
                q <= n,
                n == name@.len(),
                q == query@.len(),
                i <= n - q,
                j <= q,
                ok ==> forall|jj: int|
                    0 <= jj < j ==> lower_of(name@)[i + jj] == lower_of(query@)[jj],
                !ok ==> !occurs_at(lower_of(name@), lower_of(query@), i as int),
            decreases q - j + (if ok { 1int } else { 0int }),
        {
            let cn = to_lower(name.get_char(i + j));
            let cq = to_lower(query.get_char(j));
            if cn != cq {
                assert(lower_of(name@)[i + j] != lower_of(query@)[j as int]);
                ok = false;
            } else {
                assert(lower_of(name@)[i + j] == lower_of(query@)[j as int]);
                j = j + 1;
            }
        }
        if ok {
            assert(occurs_at(lower_of(name@), lower_of(query@), i as int));
            return true;
        }
        i = i + 1;
    }
}

/// Case-sensitive substring test: does `hay` contain `needle`?
pub fn contains_str(hay: &str, needle: &str) -> (r: bool)
    ensures
        r == contains_seq(hay@, needle@),
{
    let n = hay.unicode_len();
    let q = needle.unicode_len();
    if q > n {
        assert(forall|i: int| !occurs_at(hay@, needle@, i));
        return false;
    }
    let mut i: usize = 0;
    loop
        invariant
            q <= n,
            n == hay@.len(),
            q == needle@.len(),
            i <= n - q + 1,
            forall|ii: int| 0 <= ii < i ==> !occurs_at(hay@, needle@, ii),
        decreases n - q + 1 - i,
    {
        if i > n - q {
            assert forall|ii: int| !occurs_at(hay@, needle@, ii) by {
                if 0 <= ii < i {
                } else if ii >= i {
                    assert(ii + needle@.len() > hay@.len());
                }
            }
            return false;
        }
        let mut j: usize = 0;
        let mut ok = true;
        while j < q && ok
            invariant
                q <= n,
                n == hay@.len(),
                q == needle@.len(),
                i <= n - q,
                j <= q,
                ok ==> forall|jj: int| 0 <= jj < j ==> hay@[i + jj] == needle@[jj],
                !ok ==> !occurs_at(hay@, needle@, i as int),
            decreases q - j + (if ok { 1int } else { 0int }),
        {
            let cn = hay.get_char(i + j);
            let cq = needle.get_char(j);
            if cn != cq {
                assert(hay@[i + j] != needle@[j as int]);
                ok = false;
            } else {
                j = j + 1;
            }
        }
        if ok {
            assert(occurs_at(hay@, needle@, i as int));
            return true;
        }
        i = i + 1;
    }
}

/// Does `name` end in `.exe`, ignoring ASCII case?
pub fn ends_with_exe(name: &str) -> (r: bool)
    ensures
        r == has_exe_suffix(name@),
{
    let n = name.unicode_len();
    if n < 4 {
        return false;
    }
    let c0 = to_lower(name.get_char(n - 4));
    let c1 = to_lower(name.get_char(n - 3));
    let c2 = to_lower(name.get_char(n - 2));
    let c3 = to_lower(name.get_char(n - 1));
    c0 == '.' && c1 == 'e' && c2 == 'x' && c3 == 'e'
}

/// Three-way lexicographic comparison by code point: -1, 0 or 1.
pub fn lex_cmp(a: &str, b: &str) -> (r: i8)
    ensures
        r == -1 || r == 0 || r == 1,
        r == -1 ==> lex_le(a@, b@) && a@ != b@,
        r == 0 ==> a@ == b@,
        r == 1 ==> lex_le(b@, a@) && a@ != b@,
{
    let la = a.unicode_len();
    let lb = b.unicode_len();
    let mut i: usize = 0;
    loop
        invariant
            la == a@.len(),
            lb == b@.len(),
            i <= la,
            i <= lb,
            forall|k: int| 0 <= k < i ==> a@[k] == b@[k],
        decreases la - i,
    {
        if i == la && i == lb {
            assert(a@ =~= b@);
            return 0;
        }
        if i == la {
            proof {
                lemma_lex_suffix(a@, b@, i as int);
                assert(a@.subrange(i as int, a@.len() as int).len() == 0);
                assert(a@.len() != b@.len());
            }
            return -1;
        }
        if i == lb {
            proof {
                lemma_lex_suffix(b@, a@, i as int);
                assert(b@.subrange(i as int, b@.len() as int).len() == 0);
                assert(a@.len() != b@.len());
            }
            return 1;
        }
        let ca = a.get_char(i);
        let cb = b.get_char(i);
        if (ca as u32) < (cb as u32) {
            proof {
                lemma_lex_suffix(a@, b@, i as int);
                let sa = a@.subrange(i as int, a@.len() as int);
                let sb = b@.subrange(i as int, b@.len() as int);
                assert(sa[0] == a@[i as int]);
                assert(sb[0] == b@[i as int]);
                assert(a@[i as int] != b@[i as int]);
            }
            return -1;
        }
        if (cb as u32) < (ca as u32) {
            proof {
                lemma_lex_suffix(b@, a@, i as int);
                let sa = a@.subrange(i as int, a@.len() as int);
                let sb = b@.subrange(i as int, b@.len() as int);
                assert(sa[0] == a@[i as int]);
                assert(sb[0] == b@[i as int]);
                assert(a@[i as int] != b@[i as int]);
            }
            return 1;
        }
        assert(a@[i as int] == b@[i as int]);
        i = i + 1;
    }
}

} // verus!
