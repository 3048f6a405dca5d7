//! Canonical order on configuration paths.
//!
//! Paths are compared character by character, with the path separator `/`
//! ranked below every other character. Under this order a node's
//! descendants sort directly after the node itself and before any sibling
//! whose name extends the node's name, so the sorted flat path list of a
//! tree coincides with a depth-first pre-order walk over children sorted
//! by name.

use vstd::prelude::*;

verus! {

/// Rank of a character in the canonical path order: `/` below everything else.
pub open spec fn char_rank(c: char) -> int {
    if c == '/' {
        -1
    } else {
        (c as u32) as int
    }
}

/// Distinct characters have distinct ranks.
pub proof fn lemma_char_rank_injective(c1: char, c2: char)
    requires
        c1 != c2,
    ensures
        char_rank(c1) != char_rank(c2),
{
    vstd::utf8::char_u32_cast(c1, c1 as u32);
    vstd::utf8::char_u32_cast(c2, c2 as u32);
}

/// Strict lexicographic order on character sequences under `char_rank`.
pub open spec fn path_lt(a: Seq<char>, b: Seq<char>) -> bool
    decreases a.len(),
{
    if b.len() == 0 {
        false
    } else if a.len() == 0 {
        true
    } else if a[0] == b[0] {
        path_lt(a.drop_first(), b.drop_first())
    } else {
        char_rank(a[0]) < char_rank(b[0])
    }
}

pub proof fn lemma_path_lt_irrefl(a: Seq<char>)
    ensures
        !path_lt(a, a),
    decreases a.len(),
{
    if a.len() > 0 {
        lemma_path_lt_irrefl(a.drop_first());
    }
}

pub proof fn lemma_path_lt_total(a: Seq<char>, b: Seq<char>)
    ensures
        path_lt(a, b) || path_lt(b, a) || a == b,
    decreases a.len(),
{
    if a.len() == 0 && b.len() == 0 {
        assert(a =~= b);
    } else if a.len() > 0 && b.len() > 0 {
        if a[0] == b[0] {
            lemma_path_lt_total(a.drop_first(), b.drop_first());
            if a.drop_first() == b.drop_first() {
                assert(a =~= seq![a[0]] + a.drop_first());
                assert(b =~= seq![b[0]] + b.drop_first());
            }
        } else {
            lemma_char_rank_injective(a[0], b[0]);
        }
    }
}

pub proof fn lemma_path_lt_trans(a: Seq<char>, b: Seq<char>, c: Seq<char>)
    requires
        path_lt(a, b),
        path_lt(b, c),
    ensures
        path_lt(a, c),
    decreases a.len(),
{
    if a.len() > 0 && b.len() > 0 && c.len() > 0 {
        if a[0] == b[0] && b[0] == c[0] {
            lemma_path_lt_trans(a.drop_first(), b.drop_first(), c.drop_first());
        }
    }
}

pub proof fn lemma_path_lt_asymm(a: Seq<char>, b: Seq<char>)
    requires
        path_lt(a, b),
    ensures
        !path_lt(b, a),
        a != b,
{
    lemma_path_lt_irrefl(a);
    if path_lt(b, a) {
        lemma_path_lt_trans(a, b, a);
    }
}

/// Exec comparison of two strings in the canonical path order.
/// Returns -1, 0 or 1 as `a` sorts before, equal to, or after `b`.
pub fn path_cmp(a: &str, b: &str) -> (r: i8)
    ensures
        r == -1 <==> path_lt(a@, b@),
        r == 0 <==> a@ == b@,
        r == 1 <==> path_lt(b@, a@),
{
    proof {
        lemma_path_lt_total(a@, b@);
        lemma_path_lt_irrefl(a@);
        if path_lt(a@, b@) {
            lemma_path_lt_asymm(a@, b@);
        }
        if path_lt(b@, a@) {
            lemma_path_lt_asymm(b@, a@);
        }
    }
    let alen = a.unicode_len();
    let blen = b.unicode_len();
    let mut i: usize = 0;
    proof {
        assert(a@.skip(0) =~= a@);
        assert(b@.skip(0) =~= b@);
        assert(a@.subrange(0, 0) =~= b@.subrange(0, 0));
    }
    while i < alen && i < blen
        invariant
            i <= alen,
            i <= blen,
            alen == a@.len(),
            blen == b@.len(),
            a@.subrange(0, i as int) == b@.subrange(0, i as int),
            path_lt(a@, b@) == path_lt(a@.skip(i as int), b@.skip(i as int)),
            path_lt(b@, a@) == path_lt(b@.skip(i as int), a@.skip(i as int)),
            (a@ == b@) == (a@.skip(i as int) == b@.skip(i as int)),
        decreases alen - i,
    {
        let ca = a.get_char(i);
        let cb = b.get_char(i);
        if ca == cb {
            proof {
                lemma_skip_one_more(a@, b@, i as int);
            }
            i = i + 1;
        } else {
            let ra: i64 = if ca == '/' {
                -1
            } else {
                ca as u32 as i64
            };
            let rb: i64 = if cb == '/' {
                -1
            } else {
                cb as u32 as i64
            };
            proof {
                let sa = a@.skip(i as int);
                let sb = b@.skip(i as int);
                assert(sa[0] == ca);
                assert(sb[0] == cb);
                assert(sa != sb);
                assert(char_rank(ca) != char_rank(cb));
                assert(path_lt(sa, sb) == (char_rank(ca) < char_rank(cb)));
                assert(path_lt(sb, sa) == (char_rank(cb) < char_rank(ca)));
                assert(ra == char_rank(ca));
                assert(rb == char_rank(cb));
            }
            if ra < rb {
                return -1;
            } else {
                return 1;
            }
        }
    }
    if i == alen && i == blen {
        proof {
            assert(a@.skip(i as int) =~= b@.skip(i as int));
        }
        return 0;
    } else if i == alen {
        proof {
            assert(path_lt(a@.skip(i as int), b@.skip(i as int)));
        }
        return -1;
    } else {
        proof {
            assert(path_lt(b@.skip(i as int), a@.skip(i as int)));
        }
        return 1;
    }
}

proof fn lemma_skip_one_more(a: Seq<char>, b: Seq<char>, i: int)
    requires
        0 <= i < a.len(),
        0 <= i < b.len(),
        a.subrange(0, i) == b.subrange(0, i),
        a[i] == b[i],
    ensures
        a.subrange(0, i + 1) == b.subrange(0, i + 1),
        a.skip(i).drop_first() == a.skip(i + 1),
        b.skip(i).drop_first() == b.skip(i + 1),
        (a.skip(i) == b.skip(i)) == (a.skip(i + 1) == b.skip(i + 1)),
{
    assert(a.subrange(0, i + 1) =~= b.subrange(0, i + 1));
    assert(a.skip(i).drop_first() =~= a.skip(i + 1));
    assert(b.skip(i).drop_first() =~= b.skip(i + 1));
    assert(a.skip(i) =~= seq![a[i]] + a.skip(i + 1));
    assert(b.skip(i) =~= seq![b[i]] + b.skip(i + 1));
}

/// Exec equality of two string views.
pub fn str_eq(a: &str, b: &str) -> (r: bool)
    ensures
        r == (a@ == b@),
{
    path_cmp(a, b) == 0
}

} // verus!
