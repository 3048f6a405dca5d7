//! Substring search over a tree's paths and values.
//!
//! Matching is case-insensitive: both sides are folded to lower case
//! and the folded needle must occur in the folded haystack. Results
//! come back in canonical order — the order of the flat tree, which
//! coincides with a depth-first pre-order walk — so equal trees always
//! search identically.

use vstd::prelude::*;

use crate::model::{opt_view, SearchType};
use crate::tree::{descends_from, entry_like, lemma_filter_step, ConfigEntry, ConfigTree};
use crate::validate::contains_seq;

verus! {

/// The lower-case form of a string, as the case folding computes it:
/// a function of the characters alone.
pub uninterp spec fn lower_of(s: Seq<char>) -> Seq<char>;

/// Relies on str::to_lowercase: the result depends on the characters
/// alone, and an empty string stays empty.
#[verifier::external_body]
pub(crate) fn fold_case(s: &str) -> (r: String)
    ensures
        r@ == lower_of(s@),
        s@.len() == 0 ==> r@.len() == 0,
{
    s.to_lowercase()
}

/// `needle` occurs in `hay` up to letter case: the folded needle runs
/// somewhere inside the folded haystack.
pub open spec fn contains_folded(hay: Seq<char>, needle: Seq<char>) -> bool {
    contains_seq(lower_of(hay), lower_of(needle))
}

/// Whether a node matches a search term in the requested way.
pub open spec fn matches_entry(e: ConfigEntry, term: Seq<char>, st: SearchType) -> bool {
    match st {
        SearchType::Path => contains_folded(e.path@, term),
        SearchType::Value => match opt_view(e.value) {
            Some(v) => contains_folded(v, term),
            None => false,
        },
        SearchType::Both => contains_folded(e.path@, term) || match opt_view(e.value) {
            Some(v) => contains_folded(v, term),
            None => false,
        },
    }
}

/// Whether a node lies within the searched subtree. A non-canonical
/// filter names no node, so its subtree is empty.
pub open spec fn in_scope(e: ConfigEntry, filter: Option<Seq<char>>) -> bool {
    match filter {
        Some(f) => crate::tree::valid_path(f) && (e.path@ == f || descends_from(e.path@, f)),
        None => true,
    }
}

/// The nodes a search returns, in canonical order.
pub open spec fn search_spec(
    s: Seq<ConfigEntry>,
    term: Seq<char>,
    st: SearchType,
    filter: Option<Seq<char>>,
) -> Seq<ConfigEntry> {
    s.filter(|e: ConfigEntry| in_scope(e, filter) && matches_entry(e, term, st))
}

/// Search a tree: case-insensitive substring match on paths, values or
/// both, optionally restricted to the subtree at `path_filter`. Hands
/// back copies of the matching nodes in canonical order.
pub fn search_tree(tree: &ConfigTree, term: &str, st: SearchType, path_filter: Option<&str>) -> (r:
    Vec<ConfigEntry>)
    ensures
        ({
            let filter_view = match path_filter {
                Some(f) => Some(f@),
                None => None::<Seq<char>>,
            };
            &&& r@.len() == search_spec(tree@, term@, st, filter_view).len()
            &&& forall|i: int|
                0 <= i < r@.len() ==> entry_like(
                    search_spec(tree@, term@, st, filter_view)[i],
                    #[trigger] r@[i],
                )
        }),
{
    let ghost filter_view = match path_filter {
        Some(f) => Some(f@),
        None => None::<Seq<char>>,
    };
    let ghost pred = |e: ConfigEntry| in_scope(e, filter_view) && matches_entry(e, term@, st);
    let folded_term = fold_case(term);
    let mut r: Vec<ConfigEntry> = Vec::new();
    let n = tree.len();
    let mut i: usize = 0;
    proof {
        assert(tree@.take(0) =~= Seq::<ConfigEntry>::empty());
        reveal(Seq::filter);
    }
    while i < n
        invariant
            i <= n,
            n == tree@.len(),
            pred == (|e: ConfigEntry| in_scope(e, filter_view) && matches_entry(e, term@, st)),
            folded_term@ == lower_of(term@),
            filter_view == (match path_filter {
                Some(f) => Some(f@),
                None => None::<Seq<char>>,
            }),
            r@.len() == tree@.take(i as int).filter(pred).len(),
            forall|k: int|
                0 <= k < r@.len() ==> entry_like(
                    tree@.take(i as int).filter(pred)[k],
                    #[trigger] r@[k],
                ),
        decreases n - i,
    {
        let e = tree.entry_at(i);
        let scope_ok = match path_filter {
            Some(f) => crate::tree::check_valid_path(f) && (crate::order::str_eq(
                e.path.as_str(),
                f,
            ) || crate::tree::check_descends(e.path.as_str(), f)),
            None => true,
        };
        let matched = if !scope_ok {
            false
        } else {
            match st {
                SearchType::Path => {
                    let folded = fold_case(e.path.as_str());
                    crate::validate::check_contains(folded.as_str(), folded_term.as_str())
                },
                SearchType::Value => match &e.value {
                    Some(v) => {
                        let folded = fold_case(v.as_str());
                        crate::validate::check_contains(folded.as_str(), folded_term.as_str())
                    },
                    None => false,
                },
                SearchType::Both => {
                    let folded_path = fold_case(e.path.as_str());
                    let in_path = crate::validate::check_contains(
                        folded_path.as_str(),
                        folded_term.as_str(),
                    );
                    if in_path {
                        true
                    } else {
                        match &e.value {
                            Some(v) => {
                                let folded = fold_case(v.as_str());
                                crate::validate::check_contains(
                                    folded.as_str(),
                                    folded_term.as_str(),
                                )
                            },
                            None => false,
                        }
                    }
                },
            }
        };
        proof {
            assert(scope_ok == in_scope(tree@[i as int], filter_view));
            assert(matched == pred(tree@[i as int]));
            assert(tree@.take(i + 1) =~= tree@.take(i as int).push(tree@[i as int]));
            lemma_filter_step(tree@.take(i as int), tree@[i as int], pred);
        }
        if matched {
            let ghost pre = r@;
            r.push(e.clone());
            proof {
                assert(tree@.take(i + 1).filter(pred) =~= tree@.take(i as int).filter(pred).push(
                    tree@[i as int],
                ));
            }
        }
        i = i + 1;
    }
    proof {
        assert(tree@.take(n as int) =~= tree@);
    }
    r
}

} // verus!
