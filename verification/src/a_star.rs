//! Best-first grid search: a budgeted search over the 4-connected grid,
//! the recursive partition sort that keeps its frontier in priority order,
//! and the pass that walks the visited cells back into a waypoint path.

use vstd::prelude::*;
use vstd::multiset::Multiset;
use vstd::seq_lib::lemma_multiset_commutative;
use vstd::seq_lib::group_to_multiset_ensures;
use crate::coord::{Coord, spec_dist_sq, spec_adjacent, manhattan, lemma_dist_sq_symmetric,
    lemma_step_adjacent, lemma_dist_sq_nonneg, lemma_dist_sq_zero, lemma_adjacent_cases};
use crate::grid::{Grid, is_walkable_state, spec_walkable};

verus! {

/// The search gives up after this many expansions.
pub const MAX_SEARCH_DEPTH: usize = 1000;

/// A frontier entry: a priority score and the coordinate it belongs to.
pub type ScoredCoord = (i128, Coord);

/// The sequence is ordered by ascending priority score.
pub open spec fn sorted_by_priority(s: Seq<ScoredCoord>) -> bool {
    forall|i: int, j: int| 0 <= i < j < s.len() ==> (#[trigger] s[i]).0 <= (#[trigger] s[j]).0
}

/// Orders the given scored coordinates by ascending score: the result is a
/// permutation of the input (same multiset of pairs), sorted by priority.
/// A recursive three-way partition around the middle element.
pub fn quicksort(list: Vec<ScoredCoord>) -> (r: Vec<ScoredCoord>)
    ensures
        sorted_by_priority(r@),
        r@.to_multiset() == list@.to_multiset(),
        r@.len() == list@.len(),
        forall|k: int| 0 <= k < r@.len() ==> list@.contains(#[trigger] r@[k]),
        list@.no_duplicates() ==> r@.no_duplicates(),
    decreases list@.len(),
{
    broadcast use group_to_multiset_ensures;
    broadcast use lemma_multiset_commutative;
    broadcast use vstd::multiset::group_multiset_axioms;

    if list.len() <= 1 {
        return list;
    }
    let pivot: i128 = list[list.len() / 2].0;
    let mut less: Vec<ScoredCoord> = Vec::new();
    let mut equal: Vec<ScoredCoord> = Vec::new();
    let mut more: Vec<ScoredCoord> = Vec::new();
    let mut k: usize = 0;
    while k < list.len()
        invariant
            k <= list@.len(),
            list@.len() >= 2,
            pivot == list@[list@.len() as int / 2].0,
            less@.to_multiset().add(equal@.to_multiset()).add(more@.to_multiset())
                == list@.subrange(0, k as int).to_multiset(),
            less@.len() + equal@.len() + more@.len() == k,
            forall|i: int| 0 <= i < less@.len() ==> (#[trigger] less@[i]).0 < pivot,
            forall|i: int| 0 <= i < equal@.len() ==> (#[trigger] equal@[i]).0 == pivot,
            forall|i: int| 0 <= i < more@.len() ==> (#[trigger] more@[i]).0 > pivot,
            k > list@.len() / 2 ==> equal@.len() >= 1,
        decreases list@.len() - k,
    {
        let item = list[k];
        let ghost pl = less@;
        let ghost pe = equal@;
        let ghost pm = more@;
        proof {
            broadcast use group_to_multiset_ensures;
            broadcast use vstd::multiset::group_multiset_axioms;

            assert(list@.subrange(0, k + 1) =~= list@.subrange(0, k as int).push(list@[k as int]));
            assert(list@.subrange(0, k as int).push(item).to_multiset() =~= list@.subrange(
                0,
                k as int,
            ).to_multiset().insert(item));
            assert(list@.subrange(0, k + 1).to_multiset() =~= list@.subrange(
                0,
                k as int,
            ).to_multiset().insert(item));
        }
        if item.0 < pivot {
            less.push(item);
            proof {
                broadcast use group_to_multiset_ensures;
                broadcast use vstd::multiset::group_multiset_axioms;

                assert(less@ == pl.push(item));
                assert(pl.push(item).to_multiset() =~= pl.to_multiset().insert(item));
                assert(less@.to_multiset() =~= pl.to_multiset().insert(item));
                assert(less@.to_multiset().add(pe.to_multiset()).add(pm.to_multiset())
                    =~= pl.to_multiset().add(pe.to_multiset()).add(pm.to_multiset()).insert(item));
            }
        } else if item.0 > pivot {
            more.push(item);
            proof {
                broadcast use group_to_multiset_ensures;
                broadcast use vstd::multiset::group_multiset_axioms;

                assert(more@ == pm.push(item));
                assert(pm.push(item).to_multiset() =~= pm.to_multiset().insert(item));
                assert(more@.to_multiset() =~= pm.to_multiset().insert(item));
                assert(pl.to_multiset().add(pe.to_multiset()).add(more@.to_multiset())
                    =~= pl.to_multiset().add(pe.to_multiset()).add(pm.to_multiset()).insert(item));
            }
        } else {
            equal.push(item);
            proof {
                broadcast use group_to_multiset_ensures;
                broadcast use vstd::multiset::group_multiset_axioms;

                assert(equal@ == pe.push(item));
                assert(pe.push(item).to_multiset() =~= pe.to_multiset().insert(item));
                assert(equal@.to_multiset() =~= pe.to_multiset().insert(item));
                assert(pl.to_multiset().add(equal@.to_multiset()).add(pm.to_multiset())
                    =~= pl.to_multiset().add(pe.to_multiset()).add(pm.to_multiset()).insert(item));
            }
        }
        k = k + 1;
    }
    proof {
        assert(list@.subrange(0, list@.len() as int) =~= list@);
        assert(less@.len() < list@.len());
        assert(more@.len() < list@.len());
    }
    let ghost less_seq = less@;
    let ghost equal_seq = equal@;
    let ghost more_seq = more@;
    let mut sorted = quicksort(less);
    let mut more_sorted = quicksort(more);
    let ghost sorted_less = sorted@;
    let ghost sorted_more = more_sorted@;
    proof {
        assert forall|i: int| 0 <= i < sorted_less.len() implies (#[trigger] sorted_less[i]).0
            < pivot by {
            let j = choose|j: int| 0 <= j < less_seq.len() && sorted_less[i] == less_seq[j];
            assert(less_seq[j].0 < pivot);
        }
        assert forall|i: int| 0 <= i < sorted_more.len() implies (#[trigger] sorted_more[i]).0
            > pivot by {
            let j = choose|j: int| 0 <= j < more_seq.len() && sorted_more[i] == more_seq[j];
            assert(more_seq[j].0 > pivot);
        }
    }
    sorted.append(&mut equal);
    sorted.append(&mut more_sorted);
    proof {
        let r = sorted@;
        assert(r == (sorted_less + equal_seq) + sorted_more);
        assert(r.to_multiset() == list@.to_multiset()) by {
            assert((sorted_less + equal_seq).to_multiset() == sorted_less.to_multiset().add(
                equal_seq.to_multiset(),
            ));
            assert(r.to_multiset() == (sorted_less + equal_seq).to_multiset().add(
                sorted_more.to_multiset(),
            ));
            assert(r.to_multiset() =~= less_seq.to_multiset().add(equal_seq.to_multiset()).add(
                more_seq.to_multiset(),
            ));
        }
        assert(sorted_by_priority(r)) by {
            assert forall|i: int, j: int| 0 <= i < j < r.len() implies (#[trigger] r[i]).0
                <= (#[trigger] r[j]).0 by {
                let l1 = sorted_less.len() as int;
                let l2 = equal_seq.len() as int;
                if i < l1 {
                    if j < l1 {
                    } else if j < l1 + l2 {
                        assert(r[j] == equal_seq[j - l1]);
                    } else {
                        assert(r[j] == sorted_more[j - l1 - l2]);
                    }
                } else if i < l1 + l2 {
                    assert(r[i] == equal_seq[i - l1]);
                    if j < l1 + l2 {
                        assert(r[j] == equal_seq[j - l1]);
                    } else {
                        assert(r[j] == sorted_more[j - l1 - l2]);
                    }
                } else {
                    assert(r[i] == sorted_more[i - l1 - l2]);
                    assert(r[j] == sorted_more[j - l1 - l2]);
                }
            }
        }
        assert forall|k2: int| 0 <= k2 < r.len() implies list@.contains(#[trigger] r[k2]) by {
            assert(r.contains(r[k2]));
            assert(r.to_multiset().count(r[k2]) > 0);
        }
        if list@.no_duplicates() {
            list@.lemma_multiset_has_no_duplicates();
            assert forall|x: ScoredCoord| r.to_multiset().contains(x) implies r.to_multiset().count(
                x,
            ) == 1 by {
                assert(list@.to_multiset().count(x) == r.to_multiset().count(x));
            }
            r.lemma_multiset_has_no_duplicates_conv();
        }
    }
    sorted
}

/// Some element before position `k` is adjacent to the element at `k`.
pub open spec fn has_earlier_neighbor(s: Seq<Coord>, k: int) -> bool {
    exists|j: int| 0 <= j < k && spec_adjacent(s[j], s[k])
}

/// Every element after the first is adjacent to some earlier element: the
/// shape a visited-cell list gets from expanding one cell at a time.
pub open spec fn chain_connected(s: Seq<Coord>) -> bool {
    forall|k: int| 1 <= k < s.len() ==> #[trigger] has_earlier_neighbor(s, k)
}

/// Every consecutive pair is adjacent: the shape of a finished path.
pub open spec fn adjacent_chain(s: Seq<Coord>) -> bool {
    forall|i: int| 0 <= i < s.len() - 1 ==> spec_adjacent(s[i], #[trigger] s[i + 1])
}

fn reversed(v: &Vec<Coord>) -> (r: Vec<Coord>)
    ensures
        r@.len() == v@.len(),
        forall|k: int| 0 <= k < v@.len() ==> #[trigger] r@[k] == v@[v@.len() - 1 - k],
{
    let mut r: Vec<Coord> = Vec::new();
    let mut j: usize = v.len();
    while j > 0
        invariant
            j <= v@.len(),
            r@.len() == v@.len() - j,
            forall|k: int| 0 <= k < r@.len() ==> #[trigger] r@[k] == v@[v@.len() - 1 - k],
        decreases j,
    {
        j = j - 1;
        let c = v[j];
        r.push(c);
    }
    r
}

/// One run of the trimming scan: from scan position `i`, append the first
/// remaining pool cell adjacent to the cell taken last (removing it from the
/// pool and rescanning from the same position), or advance past a
/// non-adjacent cell; the walk ends when the scan runs off the pool.
pub open spec fn greedy_walk(pool: Seq<Coord>, acc: Seq<Coord>, i: int) -> Seq<Coord>
    recommends
        acc.len() >= 1,
        0 <= i,
    decreases pool.len() - i,
{
    if i < 0 || i >= pool.len() || acc.len() == 0 {
        acc
    } else if spec_adjacent(acc[acc.len() - 1], pool[i]) {
        greedy_walk(pool.remove(i), acc.push(pool[i]), i)
    } else {
        greedy_walk(pool, acc, i + 1)
    }
}

/// What trimming returns: raw paths of two or fewer cells unchanged;
/// otherwise the greedy walk seeded with the goal cell over the remaining
/// cells in reverse, the walk itself reversed back into start-to-goal order.
pub open spec fn spec_trim(path: Seq<Coord>) -> Seq<Coord> {
    if path.len() <= 2 {
        path
    } else {
        greedy_walk(
            path.subrange(0, path.len() - 1).reverse(),
            seq![path[path.len() - 1]],
            0,
        ).reverse()
    }
}

/// Cells picked at pairwise distinct positions of `s` form a sub-multiset
/// of `s`: no cell is taken more often than it occurs.
proof fn lemma_picks_submultiset(s: Seq<Coord>, t: Seq<Coord>, ix: Seq<int>, x: Coord)
    requires
        t.len() == ix.len(),
        forall|k: int| 0 <= k < ix.len() ==> 0 <= #[trigger] ix[k] < s.len() && t[k] == s[ix[k]],
        forall|p: int, q: int| 0 <= p < q < ix.len() ==> ix[p] > ix[q],
    ensures
        t.to_multiset().count(x) <= s.to_multiset().count(x),
    decreases ix.len(),
{
    broadcast use group_to_multiset_ensures;
    broadcast use vstd::multiset::group_multiset_axioms;
    broadcast use lemma_multiset_commutative;

    if ix.len() == 0 {
        assert(t =~= Seq::<Coord>::empty());
        assert(!t.contains(x));
        assert(t.to_multiset().count(x) == 0);
    } else {
        let i0 = ix[0];
        let s2 = s.remove(i0);
        let t2 = t.subrange(1, t.len() as int);
        let ix2 = ix.subrange(1, ix.len() as int);
        assert forall|k: int| 0 <= k < ix2.len() implies 0 <= #[trigger] ix2[k] < s2.len()
            && t2[k] == s2[ix2[k]] by {
            assert(ix2[k] == ix[k + 1] && t2[k] == t[k + 1]);
            assert(ix[0] > ix[k + 1]);
            assert(s2[ix[k + 1]] == s[ix[k + 1]]);
        }
        lemma_picks_submultiset(s2, t2, ix2, x);
        assert(t =~= seq![t[0]] + t2);
        assert(seq![t[0]].to_multiset() =~= Multiset::<Coord>::empty().insert(t[0]));
        assert(t.to_multiset() == seq![t[0]].to_multiset().add(t2.to_multiset()));
        assert(s2.to_multiset() == s.to_multiset().remove(s[i0]));
        assert(t[0] == s[i0]);
        assert(s.to_multiset().count(x) == s2.to_multiset().count(x) + (if s[i0] == x {
            1int
        } else {
            0int
        }));
        assert(t.to_multiset().count(x) == t2.to_multiset().count(x) + (if t[0] == x {
            1int
        } else {
            0int
        }));
    }
}

/// Walks the raw visited-cell list back from its goal end, repeatedly taking
/// the earliest remaining cell adjacent to the cell taken last, and returns
/// the walk in start-to-goal order. A raw path of two or fewer cells is
/// returned unchanged; one whose consecutive cells are already adjacent is
/// reproduced whole.
#[verifier::loop_isolation(false)]
pub fn trim_a_star(path: Vec<Coord>) -> (r: Vec<Coord>)
    ensures
        r@ == spec_trim(path@),
        r@.len() <= path@.len(),
        forall|x: Coord|
            #[trigger] r@.to_multiset().count(x) <= path@.to_multiset().count(x),
        path@.no_duplicates() ==> r@.no_duplicates(),
        path@.len() <= 2 ==> r@ == path@,
        path@.len() > 2 ==> r@.len() >= 1 && r@[r@.len() - 1] == path@[path@.len() - 1]
            && adjacent_chain(r@) && (forall|q: int|
            0 <= q < r@.len() ==> path@.contains(#[trigger] r@[q])),
        path@.len() > 2 && chain_connected(path@) ==> r@[0] == path@[0] && (forall|q: int|
            1 <= q < r@.len() ==> path@.subrange(1, path@.len() as int).contains(#[trigger] r@[q])),
        adjacent_chain(path@) ==> r@ == path@,
{
    if path.len() <= 2 {
        return path;
    }
    let ghost orig = path@;
    let ghost m: int = orig.len() - 1;
    let mut pending = path;
    let popped = pending.pop().unwrap();
    let mut trimmed: Vec<Coord> = Vec::new();
    trimmed.push(popped);
    let mut pool = reversed(&pending);
    let ghost pool0 = pool@;
    let ghost target = greedy_walk(pool0, trimmed@, 0);
    let ghost mut idxs: Seq<int> = Seq::new(m as nat, |p: int| m - 1 - p);
    let ghost mut picks: Seq<int> = seq![m];
    proof {
        assert(pending@ =~= orig.subrange(0, m));
        assert(trimmed@ =~= seq![orig[m]]);
        assert forall|n: int| 0 <= n <= m implies #[trigger] picks.contains(n) || idxs.contains(
            n,
        ) by {
            if n == m {
                assert(picks[0] == m);
                assert(picks.contains(m));
            } else {
                assert(idxs[m - 1 - n] == n);
                assert(idxs.contains(n));
            }
        }
    }
    let mut i: usize = 0;
    while i < pool.len()
        invariant
            idxs.len() == pool@.len(),
            picks.len() == trimmed@.len(),
            picks.len() + idxs.len() == m + 1,
            i <= pool@.len(),
            picks.len() >= 1,
            picks[0] == m,
            forall|k: int| 0 <= k < idxs.len() ==> 0 <= #[trigger] idxs[k] <= m - 1,
            forall|k: int| 0 <= k < idxs.len() ==> pool@[k] == orig[#[trigger] idxs[k]],
            forall|p: int, q: int| 0 <= p < q < idxs.len() ==> idxs[p] > idxs[q],
            forall|k: int| 0 <= k < picks.len() ==> 0 <= #[trigger] picks[k] <= m,
            forall|k: int| 0 <= k < picks.len() ==> trimmed@[k] == orig[#[trigger] picks[k]],
            forall|p: int, q: int| 0 <= p < q < picks.len() ==> picks[p] > picks[q],
            forall|k: int|
                0 <= k < picks.len() - 1 ==> spec_adjacent(
                    orig[picks[k]],
                    orig[#[trigger] picks[k + 1]],
                ),
            forall|n: int| 0 <= n <= m ==> #[trigger] picks.contains(n) || idxs.contains(n),
            forall|p: int|
                0 <= p < i ==> #[trigger] idxs[p] > picks.last() || !spec_adjacent(
                    orig[idxs[p]],
                    orig[picks.last()],
                ),
            forall|p: int| i <= p < idxs.len() ==> #[trigger] idxs[p] < picks.last(),
            greedy_walk(pool@, trimmed@, i as int) == target,
            adjacent_chain(orig) ==> i == 0 && (forall|k: int|
                0 <= k < picks.len() ==> #[trigger] picks[k] == m - k) && (forall|k: int|
                0 <= k < idxs.len() ==> #[trigger] idxs[k] == idxs.len() - 1 - k),
        decreases pool@.len() - i,
    {
        let last_c = trimmed[trimmed.len() - 1];
        let cand = pool[i];
        let d = last_c.distance_squared(cand);
        let ghost old_idxs = idxs;
        let ghost old_picks = picks;
        let ghost pool_o = pool@;
        let ghost trim_o = trimmed@;
        let ghost t = picks.last();
        let ghost pi = idxs[i as int];
        if d == 1 {
            let picked = pool.remove(i);
            trimmed.push(picked);
            proof {
                idxs = idxs.remove(i as int);
                picks = picks.push(pi);
                assert(spec_adjacent(orig[t], orig[pi]));
                assert(spec_adjacent(trim_o[trim_o.len() - 1], pool_o[i as int]));
                assert(greedy_walk(pool_o, trim_o, i as int) == greedy_walk(
                    pool_o.remove(i as int),
                    trim_o.push(pool_o[i as int]),
                    i as int,
                ));
                assert(pool@ == pool_o.remove(i as int));
                assert(trimmed@ == trim_o.push(pool_o[i as int]));
                assert(greedy_walk(pool@, trimmed@, i as int) == target);
                assert forall|k: int| 0 <= k < old_picks.len() implies #[trigger] old_picks[k]
                    >= t by {
                    if k < old_picks.len() - 1 {
                        assert(old_picks[k] > old_picks[old_picks.len() - 1]);
                    }
                }
                assert forall|n: int| 0 <= n <= m implies #[trigger] picks.contains(n)
                    || idxs.contains(n) by {
                    if old_picks.contains(n) {
                        let k = choose|k: int| 0 <= k < old_picks.len() && old_picks[k] == n;
                        assert(picks[k] == n);
                        assert(picks.contains(n));
                    } else {
                        assert(old_idxs.contains(n));
                        let w = choose|w: int| 0 <= w < old_idxs.len() && old_idxs[w] == n;
                        if w == i {
                            assert(picks[picks.len() - 1] == n);
                            assert(picks.contains(n));
                        } else if w < i {
                            assert(idxs[w] == n);
                            assert(idxs.contains(n));
                        } else {
                            assert(idxs[w - 1] == n);
                            assert(idxs.contains(n));
                        }
                    }
                }
                if adjacent_chain(orig) {
                    assert(i == 0);
                    assert(pi == old_idxs.len() - 1);
                    assert(pi == m - old_picks.len());
                    assert forall|k: int| 0 <= k < picks.len() implies #[trigger] picks[k] == m
                        - k by {
                        if k < old_picks.len() {
                            assert(picks[k] == old_picks[k]);
                        }
                    }
                    assert forall|k: int| 0 <= k < idxs.len() implies #[trigger] idxs[k]
                        == idxs.len() - 1 - k by {
                        assert(idxs[k] == old_idxs[k + 1]);
                    }
                }
            }
        } else {
            proof {
                lemma_dist_sq_symmetric(orig[pi], orig[t]);
                assert(!spec_adjacent(orig[pi], orig[t]));
                assert(!spec_adjacent(trim_o[trim_o.len() - 1], pool_o[i as int]));
                assert(greedy_walk(pool_o, trim_o, i as int) == greedy_walk(
                    pool_o,
                    trim_o,
                    i as int + 1,
                ));
                if adjacent_chain(orig) {
                    assert(i == 0);
                    assert(idxs[0] == idxs.len() - 1);
                    assert(t == m - (picks.len() - 1));
                    assert(pi == t - 1);
                    assert(0 <= t - 1 < orig.len() - 1);
                    assert(spec_adjacent(orig[t - 1], orig[t - 1 + 1]));
                    assert(false);
                }
            }
            i = i + 1;
        }
    }
    proof {
        if chain_connected(orig) {
            let t = picks.last();
            if t >= 1 {
                assert(has_earlier_neighbor(orig, t));
                let j = choose|j: int| 0 <= j < t && spec_adjacent(orig[j], orig[t]);
                assert forall|k: int| 0 <= k < picks.len() implies #[trigger] picks[k] >= t by {
                    if k < picks.len() - 1 {
                        assert(picks[k] > picks[picks.len() - 1]);
                    }
                }
                if picks.contains(j) {
                    let k = choose|k: int| 0 <= k < picks.len() && picks[k] == j;
                    assert(false);
                }
                assert(idxs.contains(j));
                let w = choose|w: int| 0 <= w < idxs.len() && idxs[w] == j;
                assert(w < i);
                assert(idxs[w] > t || !spec_adjacent(orig[idxs[w]], orig[t]));
                assert(false);
            }
        }
    }
    let r = reversed(&trimmed);
    proof {
        let lr = r@.len() as int;
        assert(r@[lr - 1] == trimmed@[0]);
        assert(trimmed@[0] == orig[picks[0]]);
        assert forall|q: int| 0 <= q < lr - 1 implies spec_adjacent(r@[q], #[trigger] r@[q
            + 1]) by {
            assert(r@[q] == trimmed@[lr - 1 - q]);
            assert(r@[q + 1] == trimmed@[lr - 2 - q]);
            let k = lr - 2 - q;
            assert(trimmed@[k] == orig[picks[k]]);
            assert(trimmed@[k + 1] == orig[picks[k + 1]]);
            assert(spec_adjacent(orig[picks[k]], orig[picks[k + 1]]));
            lemma_dist_sq_symmetric(r@[q + 1], r@[q]);
        }
        assert forall|q: int| 0 <= q < lr implies orig.contains(#[trigger] r@[q]) by {
            assert(r@[q] == trimmed@[lr - 1 - q]);
            assert(trimmed@[lr - 1 - q] == orig[picks[lr - 1 - q]]);
        }
        if chain_connected(orig) {
            assert(picks.last() == 0);
            assert(r@[0] == trimmed@[lr - 1]);
            assert(trimmed@[lr - 1] == orig[picks[lr - 1]]);
            assert(r@[0] == orig[0]);
            assert forall|q: int| 1 <= q < lr implies orig.subrange(1, orig.len() as int).contains(
                #[trigger] r@[q],
            ) by {
                let k = lr - 1 - q;
                assert(0 <= k < lr - 1);
                assert(picks[k] > picks[lr - 1]);
                assert(r@[q] == trimmed@[k]);
                assert(trimmed@[k] == orig[picks[k]]);
                assert(orig.subrange(1, orig.len() as int)[picks[k] - 1] == orig[picks[k]]);
            }
        }
        assert(lr <= orig.len());
        assert(r@ =~= trimmed@.reverse());
        trimmed@.lemma_reverse_to_multiset();
        assert(greedy_walk(pool@, trimmed@, i as int) == trimmed@);
        assert(pool0 =~= orig.subrange(0, m).reverse());
        assert(r@ == spec_trim(orig));
        assert forall|x: Coord| #[trigger] r@.to_multiset().count(x) <= orig.to_multiset().count(
            x,
        ) by {
            lemma_picks_submultiset(orig, trimmed@, picks, x);
            assert(r@.to_multiset() == trimmed@.reverse().to_multiset());
            assert(r@.to_multiset().count(x) == trimmed@.to_multiset().count(x));
        }
        if orig.no_duplicates() {
            assert forall|q1: int, q2: int|
                0 <= q1 < lr && 0 <= q2 < lr && q1 != q2 implies r@[q1] != r@[q2] by {
                let k1 = lr - 1 - q1;
                let k2 = lr - 1 - q2;
                assert(r@[q1] == trimmed@[k1] && trimmed@[k1] == orig[picks[k1]]);
                assert(r@[q2] == trimmed@[k2] && trimmed@[k2] == orig[picks[k2]]);
                if k1 < k2 {
                    assert(picks[k1] > picks[k2]);
                } else {
                    assert(picks[k2] > picks[k1]);
                }
            }
            assert(r@.no_duplicates());
        }
        if adjacent_chain(orig) {
            assert(idxs.len() == 0);
            assert(picks.len() == m + 1);
            assert forall|q: int| 0 <= q < lr implies #[trigger] r@[q] == orig[q] by {
                assert(r@[q] == trimmed@[lr - 1 - q]);
                assert(trimmed@[lr - 1 - q] == orig[picks[lr - 1 - q]]);
                assert(picks[lr - 1 - q] == m - (lr - 1 - q));
            }
            assert(r@ =~= orig);
        }
    }
    r
}

/// Priority score of `current`: its squared distance to the goal. The first
/// argument plays no part in the score; it is kept so the score's signature
/// names the whole search state.
fn heuristic(_start: Coord, end: Coord, current: Coord) -> (h: i128)
    ensures
        h == spec_dist_sq(current, end),
{
    current.distance_squared(end)
}

/// The cell one step east of `c` (spec view; callers keep `c.x` off the i32
/// edge so the step cannot wrap).
pub open spec fn spec_east(c: Coord) -> Coord {
    Coord { x: (c.x + 1) as i32, y: c.y }
}

/// The cell one step west of `c`.
pub open spec fn spec_west(c: Coord) -> Coord {
    Coord { x: (c.x - 1) as i32, y: c.y }
}

/// The cell one step north of `c`.
pub open spec fn spec_north(c: Coord) -> Coord {
    Coord { x: c.x, y: (c.y + 1) as i32 }
}

/// The cell one step south of `c`.
pub open spec fn spec_south(c: Coord) -> Coord {
    Coord { x: c.x, y: (c.y - 1) as i32 }
}

/// The one-step neighbour `n` of `c`, kept if it is walkable on `g`:
/// a one- or zero-element piece of the child list.
pub open spec fn spec_child_part(g: Grid, n: Coord) -> Seq<Coord> {
    if spec_walkable(g, n) {
        seq![n]
    } else {
        Seq::<Coord>::empty()
    }
}

/// The walkable cells among the four orthogonal neighbours of `c`, in the
/// order they are probed: east, west, north, south.
pub open spec fn spec_children(g: Grid, c: Coord) -> Seq<Coord> {
    spec_child_part(g, spec_east(c)) + spec_child_part(g, spec_west(c)) + spec_child_part(
        g,
        spec_north(c),
    ) + spec_child_part(g, spec_south(c))
}

/// The walkable cells among the four orthogonal neighbours of `current`:
/// exactly those of the four one-step cells whose tile state the search may
/// enter, probed east, west, north, south.
fn get_available_children(current: Coord, grid: &Grid) -> (children: Vec<Coord>)
    requires
        i32::MIN < current.x < i32::MAX,
        i32::MIN < current.y < i32::MAX,
    ensures
        children@ == spec_children(*grid, current),
        children@.len() <= 4,
        children@.no_duplicates(),
        forall|k: int|
            0 <= k < children@.len() ==> spec_adjacent(current, #[trigger] children@[k])
                && spec_walkable(*grid, children@[k]) && manhattan(children@[k], current) == 1,
        forall|c: Coord|
            ((c == spec_east(current) || c == spec_west(current) || c == spec_north(current) || c
                == spec_south(current)) && spec_walkable(*grid, c)) ==> children@.contains(c),
{
    let mut result: Vec<Coord> = Vec::new();
    let east = Coord { x: current.x + 1, y: current.y };
    let west = Coord { x: current.x - 1, y: current.y };
    let north = Coord { x: current.x, y: current.y + 1 };
    let south = Coord { x: current.x, y: current.y - 1 };
    proof {
        lemma_step_adjacent(current, east);
        lemma_step_adjacent(current, west);
        lemma_step_adjacent(current, north);
        lemma_step_adjacent(current, south);
        assert(east == spec_east(current) && west == spec_west(current) && north == spec_north(
            current,
        ) && south == spec_south(current));
    }
    if is_walkable_state(grid.tile(east)) {
        result.push(east);
    }
    proof {
        assert(result@ =~= spec_child_part(*grid, east));
    }
    if is_walkable_state(grid.tile(west)) {
        result.push(west);
    }
    proof {
        assert(result@ =~= spec_child_part(*grid, east) + spec_child_part(*grid, west));
    }
    if is_walkable_state(grid.tile(north)) {
        result.push(north);
    }
    proof {
        assert(result@ =~= spec_child_part(*grid, east) + spec_child_part(*grid, west)
            + spec_child_part(*grid, north));
    }
    if is_walkable_state(grid.tile(south)) {
        result.push(south);
    }
    proof {
        broadcast use vstd::seq_lib::group_seq_properties;

        assert(result@ =~= spec_children(*grid, current));
        assert(spec_walkable(*grid, east) ==> result@.contains(east));
        assert(spec_walkable(*grid, west) ==> result@.contains(west));
        assert(spec_walkable(*grid, north) ==> result@.contains(north));
        assert(spec_walkable(*grid, south) ==> result@.contains(south));
        // the four neighbours are pairwise distinct cells
        assert(east != west && east != north && east != south && west != north && west != south
            && north != south);
        assert forall|p: int, q: int|
            0 <= p < result@.len() && 0 <= q < result@.len() && p != q implies result@[p]
            != result@[q] by {}
        assert(result@.no_duplicates());
    }
    result
}

fn closed_contains(list: &Vec<Coord>, c: Coord) -> (r: bool)
    ensures
        r == list@.contains(c),
{
    let mut k: usize = 0;
    while k < list.len()
        invariant
            k <= list@.len(),
            forall|p: int| 0 <= p < k ==> #[trigger] list@[p] != c,
        decreases list@.len() - k,
    {
        if list[k] == c {
            proof {
                assert(list@[k as int] == c);
            }
            return true;
        }
        k = k + 1;
    }
    proof {
        if list@.contains(c) {
            let w = choose|w: int| 0 <= w < list@.len() && list@[w] == c;
            assert(false);
        }
    }
    false
}

fn open_contains(list: &Vec<ScoredCoord>, item: ScoredCoord) -> (r: bool)
    ensures
        r == list@.contains(item),
{
    let mut k: usize = 0;
    while k < list.len()
        invariant
            k <= list@.len(),
            forall|p: int| 0 <= p < k ==> #[trigger] list@[p] != item,
        decreases list@.len() - k,
    {
        let e = list[k];
        if e.0 == item.0 && e.1 == item.1 {
            proof {
                assert(list@[k as int] == item);
            }
            return true;
        }
        k = k + 1;
    }
    proof {
        if list@.contains(item) {
            let w = choose|w: int| 0 <= w < list@.len() && list@[w] == item;
            assert(false);
        }
    }
    false
}

/// `start` sits far enough inside the i32 range that a search capped at
/// `MAX_SEARCH_DEPTH` one-cell steps can never push a coordinate off the
/// representable grid.
pub open spec fn spec_search_margin(c: Coord) -> bool {
    i32::MIN + 1002 <= c.x <= i32::MAX - 1002 && i32::MIN + 1002 <= c.y <= i32::MAX - 1002
}

/// Runtime form of `spec_search_margin`, for callers that must test it.
pub fn in_search_margin(c: Coord) -> (r: bool)
    ensures
        r == spec_search_margin(c),
{
    c.x >= i32::MIN + 1002 && c.x <= i32::MAX - 1002 && c.y >= i32::MIN + 1002 && c.y <= i32::MAX
        - 1002
}

/// Some frontier entry carries coordinate `c`.
pub open spec fn open_has(s: Seq<ScoredCoord>, c: Coord) -> bool {
    exists|k: int| 0 <= k < s.len() && s[k].1 == c
}

/// The goal sits one walkable step from the start (and is not the start):
/// the search is guaranteed to find it at once.
pub open spec fn goal_one_step_away(start: Coord, end: Coord, g: Grid) -> bool {
    start != end && spec_adjacent(start, end) && spec_walkable(g, end)
}

/// `s` is a route from `start` to `goal`: it begins at `start`, ends at
/// `goal`, moves one orthogonal step at a time, and every cell after the
/// first is walkable (the start itself is never checked).
pub open spec fn walkable_path(g: Grid, s: Seq<Coord>, start: Coord, goal: Coord) -> bool {
    s.len() >= 1 && s[0] == start && s[s.len() - 1] == goal && adjacent_chain(s) && (forall|i: int|
        1 <= i < s.len() ==> spec_walkable(g, #[trigger] s[i]))
}

/// `c` can be reached from `start` by walking the grid.
pub open spec fn reachable(g: Grid, start: Coord, c: Coord) -> bool {
    exists|s: Seq<Coord>| walkable_path(g, s, start, c)
}

/// Every cell the walk from `start` can reach.
pub open spec fn reach_set(g: Grid, start: Coord) -> Set<Coord> {
    Set::new(|c: Coord| reachable(g, start, c))
}

/// Every walkable unvisited cell that borders a visited cell has a frontier
/// entry.
pub open spec fn frontier_in_open(g: Grid, closed: Seq<Coord>, open: Seq<ScoredCoord>) -> bool {
    forall|c: Coord|
        #![trigger open_has(open, c)]
        (spec_walkable(g, c) && !closed.contains(c) && (exists|j: int|
            0 <= j < closed.len() && spec_adjacent(closed[j], c))) ==> open_has(open, c)
}

/// Each cell of a connected, walkable visit list is reachable from its head.
proof fn lemma_chain_cells_reachable(g: Grid, s: Seq<Coord>, start: Coord, k: int)
    requires
        s.len() >= 1,
        s[0] == start,
        chain_connected(s),
        forall|i: int| 1 <= i < s.len() ==> spec_walkable(g, #[trigger] s[i]),
        0 <= k < s.len(),
    ensures
        reachable(g, start, s[k]),
    decreases k,
{
    if k == 0 {
        let w = seq![start];
        assert(walkable_path(g, w, start, s[0]));
        assert(reachable(g, start, s[k]));
    } else {
        assert(has_earlier_neighbor(s, k));
        let j = choose|j: int| 0 <= j < k && spec_adjacent(s[j], s[k]);
        lemma_chain_cells_reachable(g, s, start, j);
        let p = choose|p: Seq<Coord>| walkable_path(g, p, start, s[j]);
        let p2 = p.push(s[k]);
        assert(p2[p2.len() - 1] == s[k]);
        assert forall|i: int| 0 <= i < p2.len() - 1 implies spec_adjacent(
            p2[i],
            #[trigger] p2[i + 1],
        ) by {
            if i < p.len() - 1 {
                assert(p2[i] == p[i] && p2[i + 1] == p[i + 1]);
                assert(spec_adjacent(p[i], p[i + 1]));
            } else {
                assert(p2[i] == p[p.len() - 1]);
                assert(p2[i + 1] == s[k]);
            }
        }
        assert(adjacent_chain(p2));
        assert forall|i: int| 1 <= i < p2.len() implies spec_walkable(g, #[trigger] p2[i]) by {
            if i < p.len() {
                assert(spec_walkable(g, p[i]));
            }
        }
        assert(walkable_path(g, p2, start, s[k]));
        assert(reachable(g, start, s[k]));
    }
}

/// Where the visited region's whole frontier sits in the open list, a route
/// that enters the region cannot leave it unseen: its last cell is visited,
/// or one of its cells is in the open list.
proof fn lemma_route_hits_frontier(
    g: Grid,
    closed: Seq<Coord>,
    open: Seq<ScoredCoord>,
    p: Seq<Coord>,
    k: int,
)
    requires
        frontier_in_open(g, closed, open),
        adjacent_chain(p),
        forall|i: int| 1 <= i < p.len() ==> spec_walkable(g, #[trigger] p[i]),
        0 <= k < p.len(),
        closed.contains(p[k]),
    ensures
        closed.contains(p[p.len() - 1]) || exists|i: int|
            0 <= i < p.len() && open_has(open, #[trigger] p[i]),
    decreases p.len() - k,
{
    if k == p.len() - 1 {
    } else {
        if closed.contains(p[k + 1]) {
            lemma_route_hits_frontier(g, closed, open, p, k + 1);
        } else {
            let j = choose|j: int| 0 <= j < closed.len() && closed[j] == p[k];
            assert(spec_adjacent(p[k], p[k + 1]));
            assert(spec_adjacent(closed[j], p[k + 1]));
            assert(spec_walkable(g, p[k + 1]));
            assert(exists|j2: int| 0 <= j2 < closed.len() && spec_adjacent(closed[j2], p[k + 1]));
            assert(open_has(open, p[k + 1]));
        }
    }
}

/// Best-first search over the 4-connected grid, capped at
/// `MAX_SEARCH_DEPTH` expansions.
///
/// On success the returned waypoints run from `start` to `end`, each
/// consecutive pair orthogonally adjacent, and every cell after `start`
/// walkable. `start == end` always succeeds with the single-cell path, and
/// a walkable goal one step from the start with the two-cell path. More
/// generally, a reachable goal is always found when the whole walkable
/// region reachable from `start` fits inside the expansion budget.
/// A goal other than `start` whose four orthogonal sides are all blocked
/// (and which `start` does not touch) is never reached. The `_depth`
/// argument is ignored; the cap is fixed.
#[verifier::loop_isolation(false)]
pub fn a_star(start: Coord, end: Coord, grid: &Grid, _depth: usize) -> (r: Option<Vec<Coord>>)
    requires
        spec_search_margin(start),
    ensures
        r matches Some(p) ==> p@.len() >= 1 && p@[0] == start && p@[p@.len() - 1] == end
            && adjacent_chain(p@) && p@.no_duplicates() && (forall|i: int|
            1 <= i < p@.len() ==> spec_walkable(*grid, #[trigger] p@[i])),
        start == end ==> (r matches Some(p) && p@ == seq![start]),
        goal_one_step_away(start, end, *grid) ==> (r matches Some(p) && p@ == seq![start, end]),
        (reachable(*grid, start, end) && reach_set(*grid, start).finite() && reach_set(
            *grid,
            start,
        ).len() <= MAX_SEARCH_DEPTH) ==> r is Some,
        (start != end && (!spec_adjacent(start, end) || !spec_walkable(*grid, end)) && (forall|
            c: Coord,
        |
            spec_adjacent(c, end) ==> !spec_walkable(*grid, c))) ==> r is None,
{
    let mut open_list: Vec<ScoredCoord> = Vec::new();
    let first_score = start.distance_squared(end);
    open_list.push((first_score, start));
    let mut closed_list: Vec<Coord> = Vec::new();
    let mut it: usize = 0;
    proof {
        assert(open_list@.len() == 1 && open_list@[0] == (first_score, start));
    }
    while it < MAX_SEARCH_DEPTH
        invariant
            it <= MAX_SEARCH_DEPTH,
            closed_list@.len() == it,
            forall|k: int|
                0 <= k < open_list@.len() ==> (#[trigger] open_list@[k]).0 == spec_dist_sq(
                    open_list@[k].1,
                    end,
                ),
            forall|k: int|
                0 <= k < open_list@.len() ==> manhattan((#[trigger] open_list@[k]).1, start) <= it,
            forall|k: int|
                0 <= k < open_list@.len() ==> ((#[trigger] open_list@[k]).1 == start || (
                spec_walkable(*grid, open_list@[k].1) && exists|j: int|
                    0 <= j < closed_list@.len() && spec_adjacent(
                        closed_list@[j],
                        open_list@[k].1,
                    ))),
            forall|k: int|
                0 <= k < open_list@.len() ==> !closed_list@.contains(
                    (#[trigger] open_list@[k]).1,
                ),
            forall|p: int, q: int|
                0 <= p < q < open_list@.len() ==> (#[trigger] open_list@[p]).1 != (
                #[trigger] open_list@[q]).1,
            closed_list@.no_duplicates(),
            !closed_list@.contains(end),
            frontier_in_open(*grid, closed_list@, open_list@),
            closed_list@.len() > 0 ==> closed_list@[0] == start,
            forall|k: int|
                1 <= k < closed_list@.len() ==> spec_walkable(*grid, #[trigger] closed_list@[k]),
            chain_connected(closed_list@),
            forall|k: int|
                0 <= k < closed_list@.len() ==> manhattan(#[trigger] closed_list@[k], start) <= it,
            it == 0 ==> open_list@.len() == 1 && open_list@[0].1 == start && closed_list@
                == Seq::<Coord>::empty(),
            start == end ==> it == 0,
            sorted_by_priority(open_list@),
            goal_one_step_away(start, end, *grid) ==> it <= 1,
            (goal_one_step_away(start, end, *grid) && it == 1) ==> open_has(open_list@, end),
        decreases MAX_SEARCH_DEPTH - it,
    {
        let ghost entry_open = open_list@;
        let ghost entry_closed = closed_list@;
        if open_list.len() == 0 {
            proof {
                if goal_one_step_away(start, end, *grid) && it == 1 {
                    let k = choose|k: int|
                        0 <= k < open_list@.len() && open_list@[k].1 == end;
                    assert(false);
                }
                if reachable(*grid, start, end) {
                    assert(it >= 1);
                    let p = choose|p: Seq<Coord>| walkable_path(*grid, p, start, end);
                    assert(closed_list@[0] == start && p[0] == start);
                    assert(closed_list@.contains(p[0]));
                    lemma_route_hits_frontier(*grid, closed_list@, open_list@, p, 0);
                    assert(p[p.len() - 1] == end);
                    let i = choose|i: int| 0 <= i < p.len() && open_has(open_list@, p[i]);
                    let w = choose|w: int|
                        0 <= w < open_list@.len() && open_list@[w].1 == p[i];
                    assert(false);
                }
            }
            return None;
        }
        let current = open_list.remove(0);
        let current_pos = current.1;
        proof {
            if goal_one_step_away(start, end, *grid) && it == 1 {
                let k = choose|k: int| 0 <= k < entry_open.len() && entry_open[k].1 == end;
                assert(spec_dist_sq(end, end) == 0) by (nonlinear_arith);
                assert(entry_open[k].0 == 0);
                if k > 0 {
                    assert(entry_open[0].0 <= entry_open[k].0);
                    lemma_dist_sq_nonneg(entry_open[0].1, end);
                    lemma_dist_sq_zero(entry_open[0].1, end);
                }
                assert(current_pos == end);
            }
        }
        closed_list.push(current_pos);
        proof {
            assert(closed_list@ == entry_closed.push(current_pos));
            assert forall|k: int| 0 <= k < open_list@.len() implies !closed_list@.contains(
                (#[trigger] open_list@[k]).1,
            ) by {
                assert(open_list@[k] == entry_open[k + 1]);
                if closed_list@.contains(open_list@[k].1) {
                    let w = choose|w: int|
                        0 <= w < closed_list@.len() && closed_list@[w] == open_list@[k].1;
                    if w < entry_closed.len() {
                        assert(entry_closed.contains(open_list@[k].1));
                    } else {
                        assert(open_list@[k].1 == current_pos);
                        assert(entry_open[k + 1].1 != entry_open[0].1);
                    }
                }
            }
            // the new closed cell keeps the chain connected and walkable
            assert(current == entry_open[0]);
            assert(current_pos == entry_open[0].1);
            assert(!entry_closed.contains(current_pos));
            assert forall|i: int, j: int|
                0 <= i < closed_list@.len() && 0 <= j < closed_list@.len() && i
                    != j implies closed_list@[i] != closed_list@[j] by {
                if i < entry_closed.len() && j < entry_closed.len() {
                } else if j == entry_closed.len() {
                    if closed_list@[i] == current_pos {
                        assert(entry_closed[i] == current_pos);
                        assert(entry_closed.contains(current_pos));
                    }
                } else {
                    if closed_list@[j] == current_pos {
                        assert(entry_closed[j] == current_pos);
                        assert(entry_closed.contains(current_pos));
                    }
                }
            }
            assert(closed_list@.no_duplicates());
            if entry_closed.len() > 0 {
                assert(current_pos != start) by {
                    if current_pos == start {
                        assert(entry_closed[0] == start);
                        assert(entry_closed.contains(entry_open[0].1));
                    }
                }
                assert(spec_walkable(*grid, entry_open[0].1) && exists|j: int|
                    0 <= j < entry_closed.len() && spec_adjacent(entry_closed[j], entry_open[0].1));
                assert(spec_walkable(*grid, current_pos));
            }
            assert forall|k: int| 1 <= k < closed_list@.len() implies
                #[trigger] has_earlier_neighbor(closed_list@, k) by {
                if k < closed_list@.len() - 1 {
                    assert(entry_closed[k] == closed_list@[k]);
                    assert(chain_connected(entry_closed));
                    assert(has_earlier_neighbor(entry_closed, k));
                    let j = choose|j: int|
                        0 <= j < k && spec_adjacent(entry_closed[j], entry_closed[k]);
                    assert(closed_list@[j] == entry_closed[j]);
                    assert(spec_adjacent(closed_list@[j], closed_list@[k]));
                } else {
                    assert(k == entry_closed.len());
                    assert(entry_closed.len() > 0);
                    assert(exists|j: int|
                        0 <= j < entry_closed.len() && spec_adjacent(
                            entry_closed[j],
                            entry_open[0].1,
                        ));
                    let j = choose|j: int|
                        0 <= j < entry_closed.len() && spec_adjacent(
                            entry_closed[j],
                            entry_open[0].1,
                        );
                    assert(closed_list@[j] == entry_closed[j]);
                    assert(closed_list@[k] == current_pos);
                    assert(spec_adjacent(closed_list@[j], closed_list@[k]));
                }
                assert(has_earlier_neighbor(closed_list@, k));
            }
            assert(chain_connected(closed_list@));
            assert forall|k: int| 0 <= k < open_list@.len() implies ((
            #[trigger] open_list@[k]).1 == start || (spec_walkable(*grid, open_list@[k].1)
                && exists|j: int|
                0 <= j < closed_list@.len() && spec_adjacent(
                    closed_list@[j],
                    open_list@[k].1,
                ))) by {
                assert(open_list@[k] == entry_open[k + 1]);
                if entry_open[k + 1].1 != start {
                    let j = choose|j: int|
                        0 <= j < entry_closed.len() && spec_adjacent(
                            entry_closed[j],
                            entry_open[k + 1].1,
                        );
                    assert(closed_list@[j] == entry_closed[j]);
                    assert(spec_adjacent(closed_list@[j], open_list@[k].1));
                }
            }
        }
        if current_pos == end {
            proof {
                let raw = closed_list@;
                if start == end {
                    assert(it == 0);
                    assert(raw =~= seq![start]);
                }
                if raw.len() >= 2 {
                    assert(start != end);
                    assert(spec_walkable(*grid, end));
                }
            }
            let waypoints = trim_a_star(closed_list);
            proof {
                let raw = closed_list@;
                let p = waypoints@;
                if goal_one_step_away(start, end, *grid) {
                    assert(it != 0);
                    assert(raw =~= seq![start, end]);
                    assert(p == raw);
                }
                if raw.len() == 1 {
                    assert(p == raw);
                } else if raw.len() == 2 {
                    assert(p == raw);
                    assert(has_earlier_neighbor(raw, 1));
                    let j = choose|j: int| 0 <= j < 1 && spec_adjacent(raw[j], raw[1]);
                    assert(spec_adjacent(p[0], p[1]));
                } else {
                    assert(p[0] == raw[0]);
                    assert forall|i: int| 1 <= i < p.len() implies spec_walkable(
                        *grid,
                        #[trigger] p[i],
                    ) by {
                        assert(raw.subrange(1, raw.len() as int).contains(p[i]));
                        let w = choose|w: int|
                            0 <= w < raw.len() - 1 && raw.subrange(1, raw.len() as int)[w] == p[i];
                        assert(p[i] == raw[w + 1]);
                        if w + 1 < raw.len() - 1 {
                        } else {
                            assert(p[i] == end);
                        }
                    }
                }
            }
            return Some(waypoints);
        }
        let children = get_available_children(current_pos, grid);
        let ghost open_base = open_list@;
        let mut ci: usize = 0;
        while ci < children.len()
            invariant
                ci <= children@.len(),
                forall|k: int|
                    0 <= k < open_list@.len() ==> (#[trigger] open_list@[k]).0 == spec_dist_sq(
                        open_list@[k].1,
                        end,
                    ),
                forall|k: int|
                    0 <= k < open_list@.len() ==> manhattan((#[trigger] open_list@[k]).1, start)
                        <= it + 1,
                forall|k: int|
                    0 <= k < open_list@.len() ==> ((#[trigger] open_list@[k]).1 == start || (
                    spec_walkable(*grid, open_list@[k].1) && exists|j: int|
                        0 <= j < closed_list@.len() && spec_adjacent(
                            closed_list@[j],
                            open_list@[k].1,
                        ))),
                forall|k: int|
                    0 <= k < open_list@.len() ==> !closed_list@.contains(
                        (#[trigger] open_list@[k]).1,
                    ),
                forall|p: int, q: int|
                    0 <= p < q < open_list@.len() ==> (#[trigger] open_list@[p]).1 != (
                    #[trigger] open_list@[q]).1,
                (goal_one_step_away(start, end, *grid) && it == 0 && exists|p: int|
                    0 <= p < ci && children@[p] == end) ==> open_has(open_list@, end),
                open_base.len() <= open_list@.len(),
                forall|k: int| 0 <= k < open_base.len() ==> open_list@[k] == open_base[k],
                forall|p2: int|
                    0 <= p2 < ci ==> (closed_list@.contains(#[trigger] children@[p2]) || open_has(
                        open_list@,
                        children@[p2],
                    )),
            decreases children@.len() - ci,
        {
            let child = children[ci];
            let ghost inner_entry = open_list@;
            if !closed_contains(&closed_list, child) {
                let score = heuristic(start, end, child);
                let child_point = (score, child);
                if !open_contains(&open_list, child_point) {
                    open_list.push(child_point);
                    proof {
                        let before = inner_entry;
                        assert(manhattan(child, current_pos) == 1);
                        assert(manhattan(current_pos, start) <= it);
                        assert(manhattan(child, start) <= it + 1);
                        assert(closed_list@[closed_list@.len() - 1] == current_pos);
                        assert(spec_adjacent(current_pos, child));
                        assert forall|p: int, q: int|
                            0 <= p < q < open_list@.len() implies (#[trigger] open_list@[p]).1 != (
                        #[trigger] open_list@[q]).1 by {
                            if q == open_list@.len() - 1 && open_list@[p].1 == child {
                                assert(before[p].0 == score && before[p].1 == child);
                                assert(before[p] == child_point);
                                assert(before.contains(child_point));
                            }
                        }
                        if child == end {
                            assert(open_list@[open_list@.len() - 1].1 == end);
                            assert(open_has(open_list@, end));
                        } else if open_has(inner_entry, end) {
                            let k = choose|k: int|
                                0 <= k < inner_entry.len() && inner_entry[k].1 == end;
                            assert(open_list@[k] == inner_entry[k]);
                            assert(open_has(open_list@, end));
                        }
                        assert(open_list@[open_list@.len() - 1].1 == child);
                        assert(open_has(open_list@, child));
                        assert forall|p2: int|
                            0 <= p2 < ci implies (closed_list@.contains(#[trigger] children@[p2])
                            || open_has(open_list@, children@[p2])) by {
                            if !closed_list@.contains(children@[p2]) {
                                let w = choose|w: int|
                                    0 <= w < inner_entry.len() && inner_entry[w].1 == children@[p2];
                                assert(open_list@[w] == inner_entry[w]);
                                assert(open_has(open_list@, children@[p2]));
                            }
                        }
                    }
                } else {
                    proof {
                        if child == end {
                            let w = choose|w: int|
                                0 <= w < inner_entry.len() && inner_entry[w] == child_point;
                            assert(open_has(open_list@, end));
                        }
                        let w2 = choose|w2: int|
                            0 <= w2 < inner_entry.len() && inner_entry[w2] == child_point;
                        assert(open_list@[w2].1 == child);
                        assert(open_has(open_list@, child));
                    }
                }
            } else {
                proof {
                    if goal_one_step_away(start, end, *grid) && it == 0 && child == end {
                        assert(closed_list@.contains(end));
                        let w = choose|w: int|
                            0 <= w < closed_list@.len() && closed_list@[w] == end;
                        assert(closed_list@[0] == start);
                        assert(false);
                    }
                }
            }
            proof {
                if goal_one_step_away(start, end, *grid) && it == 0 && (exists|p: int|
                    0 <= p < ci + 1 && children@[p] == end) {
                    let p = choose|p: int| 0 <= p < ci + 1 && children@[p] == end;
                    if p < ci {
                        let k = choose|k: int|
                            0 <= k < inner_entry.len() && inner_entry[k].1 == end;
                        assert(open_list@[k] == inner_entry[k]);
                        assert(open_has(open_list@, end));
                    } else {
                        assert(children@[ci as int] == end);
                        assert(open_has(open_list@, end));
                    }
                }
            }
            ci = ci + 1;
        }
        proof {
            if goal_one_step_away(start, end, *grid) && it == 0 {
                lemma_adjacent_cases(start, end);
                assert(end == spec_east(start) || end == spec_west(start) || end == spec_north(
                    start,
                ) || end == spec_south(start));
                assert(children@.contains(end));
                let p = choose|p: int| 0 <= p < children@.len() && children@[p] == end;
                assert(exists|p2: int| 0 <= p2 < ci && children@[p2] == end);
                assert(open_has(open_list@, end));
            }
        }
        let ghost presort = open_list@;
        let sorted_open = quicksort(open_list);
        open_list = sorted_open;
        proof {
            assert forall|p: int, q: int| 0 <= p < q < presort.len() implies #[trigger] presort[p]
                != #[trigger] presort[q] by {
                assert(presort[p].1 != presort[q].1);
            }
            assert(presort.no_duplicates());
            assert forall|k: int| 0 <= k < open_list@.len() implies ((
            #[trigger] open_list@[k]).0 == spec_dist_sq(open_list@[k].1, end) && manhattan(
                open_list@[k].1,
                start,
            ) <= it + 1 && (open_list@[k].1 == start || (spec_walkable(*grid, open_list@[k].1)
                && exists|j: int|
                0 <= j < closed_list@.len() && spec_adjacent(closed_list@[j], open_list@[k].1)))
                && !closed_list@.contains(open_list@[k].1)) by {
                assert(presort.contains(open_list@[k]));
                let w = choose|w: int| 0 <= w < presort.len() && presort[w] == open_list@[k];
                assert(presort[w].0 == spec_dist_sq(presort[w].1, end));
            }
            assert forall|p: int, q: int|
                0 <= p < q < open_list@.len() implies (#[trigger] open_list@[p]).1 != (
            #[trigger] open_list@[q]).1 by {
                if open_list@[p].1 == open_list@[q].1 {
                    assert(open_list@[p].0 == spec_dist_sq(open_list@[p].1, end));
                    assert(open_list@[q].0 == spec_dist_sq(open_list@[q].1, end));
                    assert(open_list@[p] == open_list@[q]);
                    assert(open_list@.no_duplicates());
                }
            }
            if goal_one_step_away(start, end, *grid) && it == 0 {
                broadcast use group_to_multiset_ensures;

                let k = choose|k: int| 0 <= k < presort.len() && presort[k].1 == end;
                assert(presort.contains(presort[k]));
                assert(presort.to_multiset().count(presort[k]) > 0);
                assert(open_list@.to_multiset().count(presort[k]) > 0);
                assert(open_list@.contains(presort[k]));
                let w = choose|w: int| 0 <= w < open_list@.len() && open_list@[w] == presort[k];
                assert(open_has(open_list@, end));
            }
            assert forall|c: Coord| open_has(presort, c) implies open_has(open_list@, c) by {
                broadcast use group_to_multiset_ensures;

                let k = choose|k: int| 0 <= k < presort.len() && presort[k].1 == c;
                assert(presort.contains(presort[k]));
                assert(presort.to_multiset().count(presort[k]) > 0);
                assert(open_list@.to_multiset().count(presort[k]) > 0);
                assert(open_list@.contains(presort[k]));
                let w = choose|w: int| 0 <= w < open_list@.len() && open_list@[w] == presort[k];
                assert(open_list@[w].1 == c);
            }
            // the new closed list still omits the goal
            if closed_list@.contains(end) {
                let w = choose|w: int| 0 <= w < closed_list@.len() && closed_list@[w] == end;
                if w < entry_closed.len() {
                    assert(entry_closed.contains(end));
                } else {
                    assert(current_pos == end);
                }
                assert(false);
            }
            // the frontier of the grown visited region is back in the open list
            assert(i32::MIN < current_pos.x < i32::MAX && i32::MIN < current_pos.y < i32::MAX);
            assert forall|c: Coord|
                (spec_walkable(*grid, c) && !closed_list@.contains(c) && (exists|j: int|
                    0 <= j < closed_list@.len() && spec_adjacent(
                        closed_list@[j],
                        c,
                    ))) implies open_has(open_list@, c) by {
                let j = choose|j: int|
                    0 <= j < closed_list@.len() && spec_adjacent(closed_list@[j], c);
                assert(closed_list@[closed_list@.len() - 1] == current_pos);
                assert(closed_list@.contains(current_pos));
                assert(c != current_pos);
                assert(!entry_closed.contains(c)) by {
                    if entry_closed.contains(c) {
                        let w = choose|w: int|
                            0 <= w < entry_closed.len() && entry_closed[w] == c;
                        assert(closed_list@[w] == c);
                        assert(closed_list@.contains(c));
                    }
                }
                if j < entry_closed.len() {
                    assert(closed_list@[j] == entry_closed[j]);
                    assert(spec_adjacent(entry_closed[j], c));
                    assert(exists|j2: int|
                        0 <= j2 < entry_closed.len() && spec_adjacent(entry_closed[j2], c));
                    assert(open_has(entry_open, c));
                    let w = choose|w: int| 0 <= w < entry_open.len() && entry_open[w].1 == c;
                    assert(entry_open[0].1 == current_pos);
                    assert(w != 0);
                    assert(open_base[w - 1] == entry_open[w]);
                    assert(presort[w - 1] == open_base[w - 1]);
                    assert(open_has(presort, c));
                    assert(open_has(open_list@, c));
                } else {
                    assert(closed_list@[j] == current_pos);
                    lemma_adjacent_cases(current_pos, c);
                    assert(c == spec_east(current_pos) || c == spec_west(current_pos) || c
                        == spec_north(current_pos) || c == spec_south(current_pos));
                    assert(children@.contains(c));
                    let p2 = choose|p2: int| 0 <= p2 < children@.len() && children@[p2] == c;
                    assert(closed_list@.contains(children@[p2]) || open_has(
                        presort,
                        children@[p2],
                    ));
                    assert(open_has(presort, c));
                    assert(open_has(open_list@, c));
                }
            }
            assert(frontier_in_open(*grid, closed_list@, open_list@));
        }
        it = it + 1;
    }
    proof {
        if reachable(*grid, start, end) && reach_set(*grid, start).finite() && reach_set(
            *grid,
            start,
        ).len() <= MAX_SEARCH_DEPTH {
            broadcast use vstd::set::group_set_axioms;

            let rs = reach_set(*grid, start);
            closed_list@.unique_seq_to_set();
            let cs = closed_list@.to_set();
            assert(cs.len() == MAX_SEARCH_DEPTH);
            assert forall|x: Coord| cs.contains(x) implies rs.remove(end).contains(x) by {
                assert(closed_list@.contains(x));
                let k = choose|k: int| 0 <= k < closed_list@.len() && closed_list@[k] == x;
                lemma_chain_cells_reachable(*grid, closed_list@, start, k);
                assert(reachable(*grid, start, x));
                assert(rs.contains(x));
            }
            assert(cs.subset_of(rs.remove(end)));
            assert(rs.contains(end));
            assert(rs.remove(end).len() == rs.len() - 1);
            vstd::set_lib::lemma_len_subset(cs, rs.remove(end));
            assert(false);
        }
    }
    None
}

} // verus!
