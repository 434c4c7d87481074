use vstd::prelude::*;

use rayon::iter::IntoParallelRefIterator;
use rayon::iter::ParallelIterator;

use crate::index::{pairs_view, MftIndex};
use crate::paths::{names_of, reconstruct};
use crate::store::EntryView;

verus! {

/// A query returns at most this many paths.
pub const MAX_RESULTS: usize = 500;

/// What `str::to_lowercase` makes of a text.
pub uninterp spec fn lower_of(s: Seq<char>) -> Seq<char>;

/// Relies on `str::to_lowercase`: the result depends on the characters alone.
#[verifier::external_body]
fn lowercase(s: &str) -> (r: String)
    ensures
        r@ == lower_of(s@),
{
    s.to_lowercase()
}

/// `q` occurs in `t` as a contiguous run of characters.
pub open spec fn contains_seq(t: Seq<char>, q: Seq<char>) -> bool {
    exists|i: int| 0 <= i && i + q.len() <= t.len() && #[trigger] t.subrange(i, i + q.len()) == q
}

/// Relies on `str::contains` with a `&str` pattern: whether the pattern
/// occurs in the text.
#[verifier::external_body]
fn str_contains(t: &str, q: &str) -> (r: bool)
    ensures
        r == contains_seq(t@, q@),
{
    t.contains(q)
}

/// A stored name matches an already lowercased query where the query occurs
/// in the lowercased name.
pub open spec fn name_matches(name: Seq<char>, lowered_query: Seq<char>) -> bool {
    contains_seq(lower_of(name), lowered_query)
}

/// Tests one name against an already lowercased query.
pub fn matches_lowered(name: &String, lowered_query: &String) -> (r: bool)
    ensures
        r == name_matches(name@, lowered_query@),
{
    let l = lowercase(name.as_str());
    str_contains(l.as_str(), lowered_query.as_str())
}

/// The FRNs of the pairs whose name matches, in index order.
pub open spec fn matching_frns(idx: Seq<(u64, Seq<char>)>, lowered_query: Seq<char>) -> Seq<u64>
    decreases idx.len(),
{
    if idx.len() == 0 {
        Seq::empty()
    } else {
        let rest = matching_frns(idx.drop_last(), lowered_query);
        if name_matches(idx.last().1, lowered_query) {
            rest.push(idx.last().0)
        } else {
            rest
        }
    }
}

/// Relies on rayon's parallel iterator over a slice: `filter` keeps the items
/// the closure accepts, and collecting into a `Vec` keeps their order.
#[verifier::external_body]
fn par_matching(idx: &Vec<(u64, String)>, lowered_query: &String) -> (r: Vec<u64>)
    ensures
        r@ == matching_frns(pairs_view(idx@), lowered_query@),
{
    idx.par_iter().filter(|p| matches_lowered(&p.1, lowered_query)).map(|p| p.0).collect()
}

/// The paths of `frns` in order, leaving out those whose chain is broken.
pub open spec fn resolve_paths(m: Map<u64, EntryView>, drive: Seq<char>, frns: Seq<u64>) -> Seq<
    Seq<char>,
>
    decreases frns.len(),
{
    if frns.len() == 0 {
        Seq::empty()
    } else {
        let rest = resolve_paths(m, drive, frns.drop_last());
        match reconstruct(m, drive, frns.last()) {
            Some(p) => rest.push(p),
            None => rest,
        }
    }
}

/// The answer to a query: the paths of the matching pairs, in index order,
/// cut at [`MAX_RESULTS`].
pub open spec fn search_results(
    m: Map<u64, EntryView>,
    drive: Seq<char>,
    idx: Seq<(u64, Seq<char>)>,
    lowered_query: Seq<char>,
) -> Seq<Seq<char>> {
    let all = resolve_paths(m, drive, matching_frns(idx, lowered_query));
    if all.len() <= MAX_RESULTS {
        all
    } else {
        all.take(MAX_RESULTS as int)
    }
}

proof fn lemma_resolve_prefix(m: Map<u64, EntryView>, drive: Seq<char>, frns: Seq<u64>, k: int)
    requires
        0 <= k <= frns.len(),
    ensures
        resolve_paths(m, drive, frns.take(k)).len() <= resolve_paths(m, drive, frns).len(),
        resolve_paths(m, drive, frns.take(k)) == resolve_paths(m, drive, frns).take(
            resolve_paths(m, drive, frns.take(k)).len() as int,
        ),
    decreases frns.len(),
{
    let all = resolve_paths(m, drive, frns);
    if k == frns.len() {
        assert(frns.take(k) =~= frns);
        assert(all.take(all.len() as int) =~= all);
    } else {
        assert(frns.take(k) =~= frns.drop_last().take(k));
        lemma_resolve_prefix(m, drive, frns.drop_last(), k);
        let part = resolve_paths(m, drive, frns.take(k));
        let rest = resolve_paths(m, drive, frns.drop_last());
        assert(rest.take(part.len() as int) == part);
        match reconstruct(m, drive, frns.last()) {
            Some(p) => {
                assert(rest.push(p).take(part.len() as int) =~= rest.take(part.len() as int));
            },
            None => {},
        }
    }
}

proof fn lemma_contains_trans(t: Seq<char>, q2: Seq<char>, q1: Seq<char>)
    requires
        contains_seq(t, q2),
        contains_seq(q2, q1),
    ensures
        contains_seq(t, q1),
{
    let i = choose|i: int| 0 <= i && i + q2.len() <= t.len() && #[trigger] t.subrange(i, i + q2.len()) == q2;
    let j = choose|j: int| 0 <= j && j + q1.len() <= q2.len() && #[trigger] q2.subrange(j, j + q1.len()) == q1;
    assert(t.subrange(i + j, i + j + q1.len()) =~= q1);
}

/// Narrowing a query never adds hits: where the lowercased `q1` occurs in the
/// lowercased `q2`, every FRN that matches `q2` also matches `q1`.
pub proof fn lemma_search_narrowing(idx: Seq<(u64, Seq<char>)>, q1: Seq<char>, q2: Seq<char>)
    requires
        contains_seq(lower_of(q2), lower_of(q1)),
    ensures
        forall|i: int|
            0 <= i < matching_frns(idx, lower_of(q2)).len() ==> matching_frns(
                idx,
                lower_of(q1),
            ).contains(#[trigger] matching_frns(idx, lower_of(q2))[i]),
    decreases idx.len(),
{
    if idx.len() > 0 {
        lemma_search_narrowing(idx.drop_last(), q1, q2);
        let a = matching_frns(idx.drop_last(), lower_of(q1));
        let b = matching_frns(idx.drop_last(), lower_of(q2));
        let n = idx.last().1;
        if name_matches(n, lower_of(q2)) {
            lemma_contains_trans(lower_of(n), lower_of(q2), lower_of(q1));
            assert(a.push(idx.last().0).contains(idx.last().0)) by {
                assert(a.push(idx.last().0)[a.len() as int] == idx.last().0);
            }
            assert forall|x: u64| a.contains(x) implies a.push(idx.last().0).contains(x) by {
                let j = choose|j: int| 0 <= j < a.len() && a[j] == x;
                assert(a.push(idx.last().0)[j] == x);
            }
        } else if name_matches(n, lower_of(q1)) {
            assert forall|x: u64| a.contains(x) implies a.push(idx.last().0).contains(x) by {
                let j = choose|j: int| 0 <= j < a.len() && a[j] == x;
                assert(a.push(idx.last().0)[j] == x);
            }
        }
    }
}

impl MftIndex {
    /// The paths of the entries whose name contains `query`, compared
    /// case-insensitively: at most [`MAX_RESULTS`] of them, in index order;
    /// names whose chain is broken are left out.
    pub fn search(&self, query: &str) -> (r: Vec<String>)
        ensures
            names_of(r@) == search_results(
                self.store(),
                self.drive_letter@,
                self.index(),
                lower_of(query@),
            ),
    {
        let ghost m = self.store();
        let ghost d = self.drive_letter@;
        let q = lowercase(query);
        let frns = par_matching(&self.search_index, &q);
        let mut out: Vec<String> = Vec::new();
        let mut i: usize = 0;
        while i < frns.len() && out.len() < MAX_RESULTS
            invariant
                m == self.store(),
                d == self.drive_letter@,
                i <= frns@.len(),
                out@.len() <= MAX_RESULTS,
                names_of(out@) == resolve_paths(m, d, frns@.take(i as int)),
            decreases frns@.len() - i,
        {
            let ghost prev = out@;
            assert(frns@.take(i + 1).drop_last() =~= frns@.take(i as int));
            match self.reconstruct_path(frns[i]) {
                Some(p) => {
                    out.push(p);
                    assert(names_of(out@) =~= names_of(prev).push(out@.last()@));
                },
                None => {},
            }
            i = i + 1;
        }
        proof {
            let all = resolve_paths(m, d, frns@);
            lemma_resolve_prefix(m, d, frns@, i as int);
            if out@.len() < MAX_RESULTS {
                assert(frns@.take(i as int) =~= frns@);
            } else {
                assert(all.take(MAX_RESULTS as int).len() == MAX_RESULTS);
            }
        }
        out
    }
}

} // verus!
