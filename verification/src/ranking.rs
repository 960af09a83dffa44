//! From relevance scores to the order in which entries are shown.
//!
//! Entries are named by their index in the collection. A ranking keeps the
//! indices whose score is positive and lists them by descending score;
//! entries with equal scores stay in collection order.

use vstd::prelude::*;

verus! {

/// Whether the entry at index `a` is shown before the entry at index `b`:
/// the higher score first, and of two equal scores the earlier entry.
pub open spec fn ranks_before(scores: Seq<i64>, a: int, b: int) -> bool {
    scores[a] > scores[b] || (scores[a] == scores[b] && a < b)
}

/// Every index in `order` names an entry of a collection of `count` entries.
pub open spec fn in_collection(order: Seq<usize>, count: nat) -> bool {
    forall|k: int| 0 <= k < order.len() ==> (#[trigger] order[k]) < count
}

/// `order` lists its indices so that each is shown before all that follow.
/// No index can then occur twice.
pub open spec fn is_ordered(order: Seq<usize>, scores: Seq<i64>) -> bool {
    forall|i: int, j: int|
        0 <= i < j < order.len() ==> ranks_before(
            scores,
            (#[trigger] order[i]) as int,
            (#[trigger] order[j]) as int,
        )
}

/// The entry at index `e` is listed in `order`.
pub open spec fn lists(order: Seq<usize>, e: int) -> bool {
    exists|k: int| 0 <= k < order.len() && #[trigger] order[k] == e
}

/// `order` is the ranking of a collection with these scores: exactly the
/// indices with a positive score, by descending score, ties in collection
/// order.
pub open spec fn is_ranking(order: Seq<usize>, scores: Seq<i64>) -> bool {
    &&& in_collection(order, scores.len())
    &&& forall|k: int| 0 <= k < order.len() ==> scores[(#[trigger] order[k]) as int] > 0
    &&& forall|e: int| 0 <= e < scores.len() && (#[trigger] scores[e]) > 0 ==> lists(order, e)
    &&& is_ordered(order, scores)
}

/// The indices `0, 1, .., count - 1`: a whole collection in its own order.
pub open spec fn collection_order(count: nat) -> Seq<usize> {
    Seq::new(count, |i: int| i as usize)
}

/// `x` is one of `items[lo..hi]`.
pub open spec fn occurs(items: Seq<usize>, lo: int, hi: int, x: usize) -> bool {
    exists|k: int| lo <= k < hi && #[trigger] items[k] == x
}

/// Two ordered lists of the same indices are the same list.
pub proof fn lemma_ordered_unique(a: Seq<usize>, b: Seq<usize>, scores: Seq<i64>)
    requires
        is_ordered(a, scores),
        is_ordered(b, scores),
        forall|x: usize| a.contains(x) <==> b.contains(x),
    ensures
        a == b,
    decreases a.len(),
{
    if a.len() == 0 {
        if b.len() > 0 {
            assert(b.contains(b[0]));
            assert(a.contains(b[0]));
        }
        assert(a =~= b);
    } else {
        assert(a.contains(a[0]));
        assert(b.contains(a[0]));
        let j = choose|j: int| 0 <= j < b.len() && b[j] == a[0];
        assert(b.contains(b[0]));
        assert(a.contains(b[0]));
        let i = choose|i: int| 0 <= i < a.len() && a[i] == b[0];
        assert(a[0] == b[0]) by {
            if i > 0 && j > 0 {
                assert(ranks_before(scores, a[0] as int, a[i] as int));
                assert(ranks_before(scores, b[0] as int, b[j] as int));
            }
        }
        let a_rest = a.subrange(1, a.len() as int);
        let b_rest = b.subrange(1, b.len() as int);
        assert forall|x: usize| a_rest.contains(x) <==> b_rest.contains(x) by {
            if a_rest.contains(x) {
                let k = choose|k: int| 0 <= k < a_rest.len() && a_rest[k] == x;
                assert(a[k + 1] == x);
                assert(ranks_before(scores, a[0] as int, a[k + 1] as int));
                assert(a.contains(x));
                assert(b.contains(x));
                let m = choose|m: int| 0 <= m < b.len() && b[m] == x;
                assert(m > 0);
                assert(b_rest[m - 1] == x);
            }
            if b_rest.contains(x) {
                let k = choose|k: int| 0 <= k < b_rest.len() && b_rest[k] == x;
                assert(b[k + 1] == x);
                assert(ranks_before(scores, b[0] as int, b[k + 1] as int));
                assert(b.contains(x));
                assert(a.contains(x));
                let m = choose|m: int| 0 <= m < a.len() && a[m] == x;
                assert(m > 0);
                assert(a_rest[m - 1] == x);
            }
        }
        assert(is_ordered(a_rest, scores)) by {
            assert forall|p: int, q: int| 0 <= p < q < a_rest.len() implies ranks_before(
                scores,
                (#[trigger] a_rest[p]) as int,
                (#[trigger] a_rest[q]) as int,
            ) by {
                assert(ranks_before(scores, a[p + 1] as int, a[q + 1] as int));
            }
        }
        assert(is_ordered(b_rest, scores)) by {
            assert forall|p: int, q: int| 0 <= p < q < b_rest.len() implies ranks_before(
                scores,
                (#[trigger] b_rest[p]) as int,
                (#[trigger] b_rest[q]) as int,
            ) by {
                assert(ranks_before(scores, b[p + 1] as int, b[q + 1] as int));
            }
        }
        lemma_ordered_unique(a_rest, b_rest, scores);
        assert(a =~= seq![a[0]] + a_rest);
        assert(b =~= seq![b[0]] + b_rest);
    }
}

/// A collection has one ranking only.
pub proof fn lemma_ranking_unique(a: Seq<usize>, b: Seq<usize>, scores: Seq<i64>)
    requires
        is_ranking(a, scores),
        is_ranking(b, scores),
    ensures
        a == b,
{
    assert forall|x: usize| a.contains(x) <==> b.contains(x) by {
        if a.contains(x) {
            let k = choose|k: int| 0 <= k < a.len() && a[k] == x;
            assert(scores[a[k] as int] > 0);
            assert(lists(b, x as int));
        }
        if b.contains(x) {
            let k = choose|k: int| 0 <= k < b.len() && b[k] == x;
            assert(scores[b[k] as int] > 0);
            assert(lists(a, x as int));
        }
    }
    lemma_ordered_unique(a, b, scores);
}

/// Decides which of two entries is shown first.
pub fn comes_first(scores: &Vec<i64>, a: usize, b: usize) -> (first: bool)
    requires
        a < scores.len(),
        b < scores.len(),
    ensures
        first == ranks_before(scores@, a as int, b as int),
{
    scores[a] > scores[b] || (scores[a] == scores[b] && a < b)
}

/// Merges two ordered lists that share no index into one ordered list.
fn merge(scores: &Vec<i64>, left: &Vec<usize>, right: &Vec<usize>) -> (merged: Vec<usize>)
    requires
        in_collection(left@, scores@.len()),
        in_collection(right@, scores@.len()),
        is_ordered(left@, scores@),
        is_ordered(right@, scores@),
        forall|i: int, j: int|
            0 <= i < left.len() && 0 <= j < right.len() ==> #[trigger] left[i] != #[trigger] right[j],
    ensures
        in_collection(merged@, scores@.len()),
        is_ordered(merged@, scores@),
        forall|x: usize|
            merged@.contains(x) <==> left@.contains(x) || right@.contains(x),
{
    let mut merged: Vec<usize> = Vec::new();
    let mut i: usize = 0;
    let mut j: usize = 0;
    while i < left.len() || j < right.len()
        invariant
            i <= left.len(),
            j <= right.len(),
            in_collection(left@, scores@.len()),
            in_collection(right@, scores@.len()),
            is_ordered(left@, scores@),
            is_ordered(right@, scores@),
            forall|p: int, q: int|
                0 <= p < left.len() && 0 <= q < right.len() ==> #[trigger] left[p]
                    != #[trigger] right[q],
            in_collection(merged@, scores@.len()),
            is_ordered(merged@, scores@),
            forall|k: int, p: int|
                0 <= k < merged.len() && i <= p < left.len() ==> ranks_before(
                    scores@,
                    (#[trigger] merged[k]) as int,
                    (#[trigger] left[p]) as int,
                ),
            forall|k: int, q: int|
                0 <= k < merged.len() && j <= q < right.len() ==> ranks_before(
                    scores@,
                    (#[trigger] merged[k]) as int,
                    (#[trigger] right[q]) as int,
                ),
            forall|x: usize|
                merged@.contains(x) <==> occurs(left@, 0, i as int, x) || occurs(
                    right@,
                    0,
                    j as int,
                    x,
                ),
        decreases (left.len() - i) + (right.len() - j),
    {
        let ghost before = merged@;
        let take_left: bool = if i == left.len() {
            false
        } else if j == right.len() {
            true
        } else {
            comes_first(scores, left[i], right[j])
        };
        if take_left {
            let item: usize = left[i];
            merged.push(item);
            proof {
                assert forall|x: usize|
                    merged@.contains(x) <==> occurs(left@, 0, i + 1, x) || occurs(
                        right@,
                        0,
                        j as int,
                        x,
                    ) by {
                    lemma_step(before, merged@, left@, i as int, x);
                }
            }
            i = i + 1;
        } else {
            let item: usize = right[j];
            merged.push(item);
            proof {
                assert forall|x: usize|
                    merged@.contains(x) <==> occurs(left@, 0, i as int, x) || occurs(
                        right@,
                        0,
                        j + 1,
                        x,
                    ) by {
                    lemma_step(before, merged@, right@, j as int, x);
                }
            }
            j = j + 1;
        }
    }
    proof {
        assert forall|x: usize|
            merged@.contains(x) <==> left@.contains(x) || right@.contains(x) by {
            lemma_occurs_whole(left@, x);
            lemma_occurs_whole(right@, x);
        }
    }
    merged
}

/// Appending `source[at]` to a list adds that one item to what it holds.
proof fn lemma_step(before: Seq<usize>, after: Seq<usize>, source: Seq<usize>, at: int, x: usize)
    requires
        0 <= at < source.len(),
        after == before.push(source[at]),
    ensures
        after.contains(x) <==> before.contains(x) || x == source[at],
        occurs(source, 0, at + 1, x) <==> occurs(source, 0, at, x) || x == source[at],
{
    if before.contains(x) {
        let k = choose|k: int| 0 <= k < before.len() && before[k] == x;
        assert(after[k] == x);
    }
    if x == source[at] {
        assert(after[before.len() as int] == x);
        assert(occurs(source, 0, at + 1, x));
    }
    if after.contains(x) {
        let k = choose|k: int| 0 <= k < after.len() && after[k] == x;
        if k < before.len() {
            assert(before[k] == x);
        }
    }
    if occurs(source, 0, at, x) {
        let k = choose|k: int| 0 <= k < at && source[k] == x;
        assert(occurs(source, 0, at + 1, x));
    }
}

/// Occurring anywhere in a list is being contained in it.
proof fn lemma_occurs_whole(items: Seq<usize>, x: usize)
    ensures
        occurs(items, 0, items.len() as int, x) <==> items.contains(x),
{
    if items.contains(x) {
        let k = choose|k: int| 0 <= k < items.len() && items[k] == x;
        assert(occurs(items, 0, items.len() as int, x));
    }
}

/// Orders `items[lo..hi]`, which hold no index twice, by merge sort.
fn sort_range(scores: &Vec<i64>, items: &Vec<usize>, lo: usize, hi: usize) -> (sorted: Vec<usize>)
    requires
        lo <= hi <= items.len(),
        in_collection(items@, scores@.len()),
        forall|p: int, q: int| lo <= p < q < hi ==> #[trigger] items[p] != #[trigger] items[q],
    ensures
        in_collection(sorted@, scores@.len()),
        is_ordered(sorted@, scores@),
        forall|x: usize| sorted@.contains(x) <==> occurs(items@, lo as int, hi as int, x),
    decreases hi - lo,
{
    if hi - lo == 0 {
        let sorted: Vec<usize> = Vec::new();
        sorted
    } else if hi - lo == 1 {
        let mut sorted: Vec<usize> = Vec::new();
        sorted.push(items[lo]);
        proof {
            assert forall|x: usize| sorted@.contains(x) <==> occurs(
                items@,
                lo as int,
                hi as int,
                x,
            ) by {
                if x == items[lo as int] {
                    assert(sorted@[0] == x);
                }
            }
        }
        sorted
    } else {
        let mid: usize = lo + (hi - lo) / 2;
        let left = sort_range(scores, items, lo, mid);
        let right = sort_range(scores, items, mid, hi);
        proof {
            assert forall|i: int, j: int|
                0 <= i < left.len() && 0 <= j < right.len() implies #[trigger] left[i]
                != #[trigger] right[j] by {
                assert(left@.contains(left[i]));
                assert(right@.contains(right[j]));
            }
        }
        let sorted = merge(scores, &left, &right);
        proof {
            assert forall|x: usize| sorted@.contains(x) <==> occurs(
                items@,
                lo as int,
                hi as int,
                x,
            ) by {
                if occurs(items@, lo as int, hi as int, x) {
                    let k = choose|k: int| lo <= k < hi && items[k] == x;
                    if k < mid {
                        assert(occurs(items@, lo as int, mid as int, x));
                    } else {
                        assert(occurs(items@, mid as int, hi as int, x));
                    }
                }
            }
        }
        sorted
    }
}

/// Ranks a collection by its scores: the indices of the entries with a
/// positive score, by descending score, entries of equal score in
/// collection order.
pub fn rank(scores: &Vec<i64>) -> (order: Vec<usize>)
    ensures
        is_ranking(order@, scores@),
{
    let mut kept: Vec<usize> = Vec::new();
    let mut e: usize = 0;
    while e < scores.len()
        invariant
            e <= scores.len(),
            forall|k: int| 0 <= k < kept.len() ==> (#[trigger] kept[k]) < e && scores[kept[k] as int] > 0,
            forall|p: int, q: int| 0 <= p < q < kept.len() ==> #[trigger] kept[p] < #[trigger] kept[q],
            forall|x: int| 0 <= x < e && (#[trigger] scores[x]) > 0 ==> kept@.contains(x as usize),
        decreases scores.len() - e,
    {
        if scores[e] > 0 {
            let ghost before = kept@;
            kept.push(e);
            proof {
                assert forall|x: int| 0 <= x < e + 1 && (#[trigger] scores[x]) > 0 implies kept@.contains(
                    x as usize,
                ) by {
                    if x < e {
                        let k = choose|k: int| 0 <= k < before.len() && before[k] == x as usize;
                        assert(kept@[k] == x as usize);
                    } else {
                        assert(kept@[before.len() as int] == x as usize);
                    }
                }
            }
        }
        e = e + 1;
    }
    let order = sort_range(scores, &kept, 0, kept.len());
    proof {
        assert forall|k: int| 0 <= k < order.len() implies scores[(#[trigger] order[k]) as int] > 0 by {
            assert(order@.contains(order[k]));
            let m = choose|m: int| 0 <= m < kept.len() && kept[m] == order[k];
        }
        assert forall|x: int| 0 <= x < scores.len() && (#[trigger] scores[x]) > 0 implies lists(
            order@,
            x,
        ) by {
            let m = choose|m: int| 0 <= m < kept.len() && kept[m] == x as usize;
            assert(occurs(kept@, 0, kept.len() as int, x as usize));
            assert(order@.contains(x as usize));
        }
    }
    order
}

} // verus!
