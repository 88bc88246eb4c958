use vstd::prelude::*;
use itertools::Itertools;
use crate::align::{max2, needleman_wunsch, nw_score, smith_waterman, sw_score, lemma_scores_in_range};
use crate::config::{Config, MAX_LEN, UNIT};
use crate::entry::Entry;

verus! {

broadcast use vstd::seq_lib::group_to_multiset_ensures;

/// Which entries a search may return.
#[derive(Clone, Copy, Debug, PartialEq, Eq, Structural)]
pub enum IndexOptions {
    All,
    Indexed,
    Unindexed,
}

/// A surviving entry: its position in the catalog and its blended score,
/// over `UNIT * UNIT`.
#[derive(Clone, Copy, Debug, PartialEq, Eq, Structural)]
pub struct Candidate {
    pub index: usize,
    pub score: i64,
}

/// Whether `filter` lets `e` through.
pub open spec fn eligible(filter: IndexOptions, e: Entry) -> bool {
    match filter {
        IndexOptions::All => true,
        IndexOptions::Indexed => e.indexed,
        IndexOptions::Unindexed => !e.indexed,
    }
}

/// The blended score of `candidate` against `query`, over `UNIT * UNIT`:
/// the local score weighted by the ratio, the global one by the rest.
pub open spec fn blend(c: Config, candidate: Seq<char>, query: Seq<char>) -> int {
    c.sw_nw_ratio * sw_score(candidate, query, c) + (UNIT - c.sw_nw_ratio) * nw_score(candidate, query, c)
}

/// The best blended score among `strs`, starting from minus one.
pub open spec fn best_blend(strs: Seq<Seq<char>>, query: Seq<char>, c: Config) -> int
    decreases strs.len(),
{
    if strs.len() == 0 {
        -(UNIT * UNIT)
    } else {
        max2(best_blend(strs.drop_last(), query, c), blend(c, strs.last(), query))
    }
}

/// The score of an entry: the best blended score of its name and aliases.
pub open spec fn entry_score(e: Entry, query: Seq<char>, c: Config) -> int {
    best_blend(e.strings(), query, c)
}

/// Entry `i` passes the filter and reaches the threshold.
pub open spec fn qualifies(cat: Seq<Entry>, query: Seq<char>, filter: IndexOptions, c: Config, i: int) -> bool {
    &&& 0 <= i < cat.len()
    &&& eligible(filter, cat[i])
    &&& entry_score(cat[i], query, c) >= c.search_threshold * UNIT
}

/// Entry `i` ranks before entry `j`: a higher score, or the same score and
/// an earlier place in the catalog.
pub open spec fn ranks_before(cat: Seq<Entry>, query: Seq<char>, c: Config, i: int, j: int) -> bool {
    let si = entry_score(cat[i], query, c);
    let sj = entry_score(cat[j], query, c);
    si > sj || (si == sj && i < j)
}

/// `r` is the ranking of the catalog for `query`: at most three qualifying
/// entries with their scores, in ranking order, ahead of every qualifying
/// entry left out, and leaving one out only when three were kept.
pub open spec fn is_ranking(r: Seq<Candidate>, cat: Seq<Entry>, query: Seq<char>, filter: IndexOptions, c: Config) -> bool {
    &&& r.len() <= 3
    &&& forall|k: int| 0 <= k < r.len() ==> {
        &&& qualifies(cat, query, filter, c, #[trigger] r[k].index as int)
        &&& r[k].score == entry_score(cat[r[k].index as int], query, c)
    }
    &&& forall|k: int, l: int| 0 <= k < l < r.len() ==> ranks_before(cat, query, c, #[trigger] r[k].index as int, #[trigger] r[l].index as int)
    &&& forall|i: int| #![trigger qualifies(cat, query, filter, c, i)]
        qualifies(cat, query, filter, c, i) && (forall|k: int| 0 <= k < r.len() ==> r[k].index != i) ==> {
            &&& r.len() == 3
            &&& forall|k: int| 0 <= k < r.len() ==> ranks_before(cat, query, c, #[trigger] r[k].index as int, i)
        }
}

/// The ranking of the catalog for `query`: the one sequence that
/// `is_ranking` describes.
pub open spec fn ranking_of(cat: Seq<Entry>, query: Seq<char>, filter: IndexOptions, c: Config) -> Seq<Candidate> {
    choose|r: Seq<Candidate>| is_ranking(r, cat, query, filter, c)
}

/// `x` is ordered before `y`: a higher score, or the same score and a smaller index.
pub open spec fn candidate_before(x: Candidate, y: Candidate) -> bool {
    x.score > y.score || (x.score == y.score && x.index < y.index)
}

/// Compares two candidates in ranking order.
pub fn compare_candidates(x: &Candidate, y: &Candidate) -> (o: std::cmp::Ordering)
    ensures
        (o == std::cmp::Ordering::Less) == candidate_before(*x, *y),
        (o == std::cmp::Ordering::Greater) == candidate_before(*y, *x),
        (o == std::cmp::Ordering::Equal) == (x.score == y.score && x.index == y.index),
{
    if x.score > y.score {
        std::cmp::Ordering::Less
    } else if x.score < y.score {
        std::cmp::Ordering::Greater
    } else if x.index < y.index {
        std::cmp::Ordering::Less
    } else if x.index > y.index {
        std::cmp::Ordering::Greater
    } else {
        std::cmp::Ordering::Equal
    }
}

/// Relies on itertools' `sorted_by`, which collects the items and sorts them
/// with `slice::sort_by`: the result holds the same items, and no item comes
/// after one that the comparator puts behind it.
#[verifier::external_body]
fn sort_candidates(v: Vec<Candidate>) -> (r: Vec<Candidate>)
    ensures
        r@.to_multiset() == v@.to_multiset(),
        forall|i: int, j: int| 0 <= i < j < r@.len() ==> !candidate_before(#[trigger] r@[j], #[trigger] r@[i]),
{
    v.into_iter().sorted_by(|x, y| compare_candidates(x, y)).collect()
}


/// The blended score of `candidate` against `query`, over `UNIT * UNIT`.
pub fn blended_score(candidate: &str, query: &str, config: &Config) -> (r: i64)
    requires
        config.valid(),
        candidate@.len() <= MAX_LEN,
        query@.len() <= MAX_LEN,
    ensures
        r == blend(*config, candidate@, query@),
        -(UNIT * UNIT) <= r <= UNIT * UNIT,
{
    let sw = smith_waterman(candidate, query, config);
    let nw = needleman_wunsch(candidate, query, config);
    let w = config.sw_nw_ratio;
    assert(0 <= w * sw <= UNIT * UNIT) by (nonlinear_arith)
        requires 0 <= w <= UNIT, 0 <= sw <= UNIT;
    assert(-(UNIT - w) * UNIT <= (UNIT - w) * nw <= (UNIT - w) * UNIT) by (nonlinear_arith)
        requires 0 <= w <= UNIT, -UNIT <= nw <= UNIT;
    assert(w * UNIT + (UNIT - w) * UNIT == UNIT * UNIT) by (nonlinear_arith);
    assert(-(UNIT * UNIT) <= w * sw + (UNIT - w) * nw) by (nonlinear_arith)
        requires 0 <= w <= UNIT, 0 <= sw <= UNIT, -UNIT <= nw <= UNIT;
    assert(w * sw + (UNIT - w) * nw <= UNIT * UNIT) by (nonlinear_arith)
        requires 0 <= w <= UNIT, 0 <= sw <= UNIT, -UNIT <= nw <= UNIT;
    w * sw + (UNIT - w) * nw
}

proof fn lemma_best_blend_bounds(strs: Seq<Seq<char>>, query: Seq<char>, c: Config)
    requires
        c.valid(),
    ensures
        -(UNIT * UNIT) <= best_blend(strs, query, c) <= UNIT * UNIT,
    decreases strs.len(),
{
    if strs.len() > 0 {
        lemma_best_blend_bounds(strs.drop_last(), query, c);
        let x = strs.last();
        lemma_scores_in_range(x, query, c);
        let w = c.sw_nw_ratio;
        let sw = sw_score(x, query, c);
        let nw = nw_score(x, query, c);
        assert(-(UNIT * UNIT) <= w * sw + (UNIT - w) * nw <= UNIT * UNIT) by (nonlinear_arith)
            requires 0 <= w <= UNIT, 0 <= sw <= UNIT, -UNIT <= nw <= UNIT;
    }
}

/// The score of `entry` against `query`: the best blended score of its
/// aliases and name.
pub fn score_entry(entry: &Entry, query: &str, config: &Config) -> (r: i64)
    requires
        config.valid(),
        entry.fits(),
        query@.len() <= MAX_LEN,
    ensures
        r == entry_score(*entry, query@, *config),
{
    let ghost strs = entry.strings();
    let n = entry.aliases.len();
    let mut best: i64 = -(UNIT * UNIT);
    let mut k: usize = 0;
    while k < n
        invariant
            n == entry.aliases@.len(),
            k <= n,
            strs == entry.strings(),
            config.valid(),
            entry.fits(),
            query@.len() <= MAX_LEN,
            best == best_blend(strs.subrange(0, k as int), query@, *config),
        decreases n - k,
    {
        let b = blended_score(entry.aliases[k].as_str(), query, config);
        proof {
            assert(strs.subrange(0, k + 1).drop_last() =~= strs.subrange(0, k as int));
            assert(strs.subrange(0, k + 1).last() == entry.aliases@[k as int]@);
        }
        if b > best {
            best = b;
        }
        k += 1;
    }
    let b = blended_score(entry.name.as_str(), query, config);
    proof {
        assert(strs.drop_last() =~= strs.subrange(0, n as int));
        assert(strs.subrange(0, n as int + 1) =~= strs);
    }
    if b > best {
        best = b;
    }
    best
}

/// Whether `filter` lets `entry` through.
pub fn is_eligible(filter: IndexOptions, entry: &Entry) -> (r: bool)
    ensures
        r == eligible(filter, *entry),
{
    match filter {
        IndexOptions::All => true,
        IndexOptions::Indexed => entry.indexed,
        IndexOptions::Unindexed => !entry.indexed,
    }
}

/// Every entry of the catalog is short enough to score.
pub open spec fn catalog_fits(cat: Seq<Entry>) -> bool {
    forall|i: int| 0 <= i < cat.len() ==> (#[trigger] cat[i]).fits()
}

/// Ranks the catalog for `query`: the entries that `filter` lets through and
/// whose score reaches the threshold, best first, ties in catalog order, at
/// most three.
pub fn rank(catalog: &Vec<Entry>, query: &str, filter: IndexOptions, config: &Config) -> (r: Vec<Candidate>)
    requires
        config.valid(),
        catalog_fits(catalog@),
        query@.len() <= MAX_LEN,
    ensures
        is_ranking(r@, catalog@, query@, filter, *config),
        r@ == ranking_of(catalog@, query@, filter, *config),
        r@.len() <= 3,
        forall|k: int| 0 <= k < r@.len() ==> {
            &&& (#[trigger] r@[k]).score == entry_score(catalog@[r@[k].index as int], query@, *config)
            &&& r@[k].score >= config.search_threshold * UNIT
            &&& eligible(filter, catalog@[r@[k].index as int])
        },
        filter == IndexOptions::Indexed ==> forall|k: int| 0 <= k < r@.len() ==> catalog@[(#[trigger] r@[k]).index as int].indexed,
        filter == IndexOptions::Unindexed ==> forall|k: int| 0 <= k < r@.len() ==> !catalog@[(#[trigger] r@[k]).index as int].indexed,
{
    let ghost cat = catalog@;
    let ghost q = query@;
    let ghost c = *config;
    let mut found: Vec<Candidate> = Vec::new();
    let mut idx: usize = 0;
    while idx < catalog.len()
        invariant
            cat == catalog@,
            q == query@,
            c == *config,
            idx <= cat.len(),
            config.valid(),
            catalog_fits(cat),
            query@.len() <= MAX_LEN,
            forall|k: int| 0 <= k < found@.len() ==> {
                &&& qualifies(cat, q, filter, c, #[trigger] found@[k].index as int)
                &&& found@[k].index < idx
                &&& found@[k].score == entry_score(cat[found@[k].index as int], q, c)
            },
            forall|k: int, l: int| 0 <= k < l < found@.len() ==> #[trigger] found@[k].index < #[trigger] found@[l].index,
            forall|i: int| 0 <= i < idx && qualifies(cat, q, filter, c, i) ==> exists|k: int| 0 <= k < found@.len() && #[trigger] found@[k].index == i,
        decreases cat.len() - idx,
    {
        let entry = &catalog[idx];
        if is_eligible(filter, entry) {
            let s = score_entry(entry, query, config);
            if (s as i128) >= (config.search_threshold as i128) * (UNIT as i128) {
                let ghost before = found@;
                found.push(Candidate { index: idx, score: s });
                proof {
                    assert forall|i: int| 0 <= i < idx + 1 && qualifies(cat, q, filter, c, i) implies exists|k: int| 0 <= k < found@.len() && #[trigger] found@[k].index == i by {
                        if i < idx {
                            let k = choose|k: int| 0 <= k < before.len() && #[trigger] before[k].index == i;
                            assert(found@[k] == before[k]);
                        } else {
                            assert(found@[found@.len() - 1].index == i);
                        }
                    }
                }
            }
        }
        idx += 1;
    }
    proof {
        assert(found@.no_duplicates()) by {
            assert forall|k: int, l: int| 0 <= k < found@.len() && 0 <= l < found@.len() && k != l implies found@[k] != found@[l] by {
                if k < l {
                    assert(found@[k].index < found@[l].index);
                } else {
                    assert(found@[l].index < found@[k].index);
                }
            }
        }
        found@.lemma_multiset_has_no_duplicates();
    }
    let ghost all = found@;
    let mut sorted = sort_candidates(found);
    proof {
        sorted@.lemma_multiset_has_no_duplicates_conv();
        assert forall|k: int| 0 <= k < sorted@.len() implies all.contains(#[trigger] sorted@[k]) by {
            assert(sorted@.contains(sorted@[k]));
            assert(sorted@.to_multiset().count(sorted@[k]) > 0);
            assert(all.to_multiset().count(sorted@[k]) > 0);
        }
        assert forall|k: int| 0 <= k < all.len() implies sorted@.contains(#[trigger] all[k]) by {
            assert(all.contains(all[k]));
            assert(all.to_multiset().count(all[k]) > 0);
            assert(sorted@.to_multiset().count(all[k]) > 0);
        }
        assert forall|k: int, l: int| 0 <= k < l < sorted@.len() implies ranks_before(cat, q, c, #[trigger] sorted@[k].index as int, #[trigger] sorted@[l].index as int) by {
            assert(all.contains(sorted@[k]));
            assert(all.contains(sorted@[l]));
            assert(sorted@[k] != sorted@[l]);
            assert(!candidate_before(sorted@[l], sorted@[k]));
        }
    }
    let ghost full = sorted@;
    if sorted.len() > 3 {
        sorted.truncate(3);
    }
    proof {
        let r = sorted@;
        assert forall|k: int| 0 <= k < r.len() implies {
            &&& qualifies(cat, q, filter, c, #[trigger] r[k].index as int)
            &&& r[k].score == entry_score(cat[r[k].index as int], q, c)
        } by {
            assert(r[k] == full[k]);
            assert(all.contains(full[k]));
        }
        assert forall|k: int, l: int| 0 <= k < l < r.len() implies ranks_before(cat, q, c, #[trigger] r[k].index as int, #[trigger] r[l].index as int) by {
            assert(r[k] == full[k] && r[l] == full[l]);
        }
        assert forall|i: int| #![trigger qualifies(cat, q, filter, c, i)]
            qualifies(cat, q, filter, c, i) && (forall|k: int| 0 <= k < r.len() ==> r[k].index != i) implies {
                &&& r.len() == 3
                &&& forall|k: int| 0 <= k < r.len() ==> ranks_before(cat, q, c, #[trigger] r[k].index as int, i)
            } by {
            let k0 = choose|k: int| 0 <= k < all.len() && #[trigger] all[k].index == i;
            assert(full.contains(all[k0]));
            let p = choose|p: int| 0 <= p < full.len() && full[p] == all[k0];
            if p < r.len() {
                assert(r[p] == full[p]);
            }
            assert(p >= r.len());
            assert(r.len() == 3);
            assert forall|k: int| 0 <= k < r.len() implies ranks_before(cat, q, c, #[trigger] r[k].index as int, i) by {
                assert(r[k] == full[k]);
            }
        }
        assert(is_ranking(r, cat, q, filter, c));
        let other = ranking_of(cat, q, filter, c);
        lemma_ranking_unique(other, r, cat, q, filter, c);
        lemma_ranking_bounded(r, cat, q, filter, c);
        lemma_ranking_respects_filter(r, cat, q, filter, c);
        assert forall|k: int| 0 <= k < r.len() implies eligible(filter, cat[(#[trigger] r[k]).index as int]) by {
            assert(qualifies(cat, q, filter, c, r[k].index as int));
        }
    }
    sorted
}


proof fn lemma_prefix_agrees(
    r1: Seq<Candidate>,
    r2: Seq<Candidate>,
    cat: Seq<Entry>,
    q: Seq<char>,
    f: IndexOptions,
    c: Config,
    n: int,
)
    requires
        is_ranking(r1, cat, q, f, c),
        is_ranking(r2, cat, q, f, c),
        0 <= n <= r1.len(),
        n <= r2.len(),
    ensures
        forall|k: int| 0 <= k < n ==> (#[trigger] r1[k]).index == r2[k].index,
    decreases n,
{
    if n > 0 {
        let k = n - 1;
        lemma_prefix_agrees(r1, r2, cat, q, f, c, k);
        let x = r1[k].index as int;
        let y = r2[k].index as int;
        assert(qualifies(cat, q, f, c, x));
        assert(qualifies(cat, q, f, c, y));
        if x != y {
            if ranks_before(cat, q, c, x, y) {
                if exists|m: int| 0 <= m < r2.len() && r2[m].index == x {
                    let m = choose|m: int| 0 <= m < r2.len() && r2[m].index == x;
                    if m < k {
                        assert(r1[m].index == r2[m].index);
                        assert(ranks_before(cat, q, c, r1[m].index as int, r1[k].index as int));
                    } else {
                        assert(ranks_before(cat, q, c, r2[k].index as int, r2[m].index as int));
                    }
                } else {
                    assert(ranks_before(cat, q, c, r2[k].index as int, x));
                }
            } else {
                assert(ranks_before(cat, q, c, y, x));
                if exists|m: int| 0 <= m < r1.len() && r1[m].index == y {
                    let m = choose|m: int| 0 <= m < r1.len() && r1[m].index == y;
                    if m < k {
                        assert(r1[m].index == r2[m].index);
                        assert(ranks_before(cat, q, c, r2[m].index as int, r2[k].index as int));
                    } else {
                        assert(ranks_before(cat, q, c, r1[k].index as int, r1[m].index as int));
                    }
                } else {
                    assert(ranks_before(cat, q, c, r1[k].index as int, y));
                }
            }
        }
    }
}

proof fn lemma_ranking_not_shorter(
    r1: Seq<Candidate>,
    r2: Seq<Candidate>,
    cat: Seq<Entry>,
    q: Seq<char>,
    f: IndexOptions,
    c: Config,
)
    requires
        is_ranking(r1, cat, q, f, c),
        is_ranking(r2, cat, q, f, c),
    ensures
        r1.len() >= r2.len(),
{
    if r1.len() < r2.len() {
        lemma_prefix_agrees(r1, r2, cat, q, f, c, r1.len() as int);
        let n = r1.len() as int;
        let z = r2[n].index as int;
        assert(qualifies(cat, q, f, c, z));
        if exists|m: int| 0 <= m < r1.len() && r1[m].index == z {
            let m = choose|m: int| 0 <= m < r1.len() && r1[m].index == z;
            assert(r1[m].index == r2[m].index);
            assert(ranks_before(cat, q, c, r2[m].index as int, r2[n].index as int));
        }
    }
}

/// Ranking is deterministic: for one catalog, query, filter and
/// configuration there is exactly one ranking, so two calls of `rank` agree.
pub proof fn lemma_ranking_unique(
    r1: Seq<Candidate>,
    r2: Seq<Candidate>,
    cat: Seq<Entry>,
    q: Seq<char>,
    f: IndexOptions,
    c: Config,
)
    requires
        is_ranking(r1, cat, q, f, c),
        is_ranking(r2, cat, q, f, c),
    ensures
        r1 == r2,
{
    lemma_ranking_not_shorter(r1, r2, cat, q, f, c);
    lemma_ranking_not_shorter(r2, r1, cat, q, f, c);
    lemma_prefix_agrees(r1, r2, cat, q, f, c, r1.len() as int);
    assert forall|k: int| 0 <= k < r1.len() implies r1[k] == r2[k] by {
        assert(r1[k].index == r2[k].index);
    }
    assert(r1 =~= r2);
}

/// A ranking holds at most three candidates, none of them scoring below
/// the threshold.
pub proof fn lemma_ranking_bounded(r: Seq<Candidate>, cat: Seq<Entry>, q: Seq<char>, f: IndexOptions, c: Config)
    requires
        is_ranking(r, cat, q, f, c),
    ensures
        r.len() <= 3,
        forall|k: int| 0 <= k < r.len() ==> (#[trigger] r[k]).score >= c.search_threshold * UNIT,
{
    assert forall|k: int| 0 <= k < r.len() implies (#[trigger] r[k]).score >= c.search_threshold * UNIT by {
        assert(qualifies(cat, q, f, c, r[k].index as int));
    }
}

/// A ranking holds only entries that the filter lets through: indexed ones
/// under `Indexed`, unindexed ones under `Unindexed`.
pub proof fn lemma_ranking_respects_filter(r: Seq<Candidate>, cat: Seq<Entry>, q: Seq<char>, f: IndexOptions, c: Config)
    requires
        is_ranking(r, cat, q, f, c),
    ensures
        f == IndexOptions::Indexed ==> forall|k: int| 0 <= k < r.len() ==> cat[(#[trigger] r[k]).index as int].indexed,
        f == IndexOptions::Unindexed ==> forall|k: int| 0 <= k < r.len() ==> !cat[(#[trigger] r[k]).index as int].indexed,
{
    assert forall|k: int| 0 <= k < r.len() implies eligible(f, cat[(#[trigger] r[k]).index as int]) by {
        assert(qualifies(cat, q, f, c, r[k].index as int));
    }
}

} // verus!
