use vstd::prelude::*;
use std::collections::HashMap;

verus! {

/// One ranked search result: a document identifier and the bit pattern of
/// its distance to the query.
pub type Scored = (u64, u32);

/// The bit pattern without its sign bit.
pub open spec fn magnitude(bits: u32) -> int {
    if bits >= 0x8000_0000 {
        bits - 0x8000_0000
    } else {
        bits as int
    }
}

/// The integer by which a distance is ordered. On the bit patterns of two
/// numbers it orders as the numbers do, with both zeros equal; the patterns
/// that are not numbers lie beyond the infinities.
pub open spec fn order_key(bits: u32) -> int {
    if bits >= 0x8000_0000 {
        -magnitude(bits)
    } else {
        magnitude(bits)
    }
}

/// Computes the ordering key of a distance.
pub fn distance_key(bits: u32) -> (r: i64)
    ensures
        r == order_key(bits),
{
    if bits >= 0x8000_0000 {
        let m: u32 = bits - 0x8000_0000;
        0 - (m as i64)
    } else {
        bits as i64
    }
}

/// Distances never decrease along the sequence.
pub open spec fn ascending(s: Seq<Scored>) -> bool {
    forall|i: int, j: int| 0 <= i <= j < s.len() ==> order_key(s[i].1) <= order_key(s[j].1)
}

/// The candidates whose identifier is in `ids`, in the order given.
pub open spec fn known(candidates: Seq<Scored>, ids: Set<u64>) -> Seq<Scored> {
    candidates.filter(|c: Scored| ids.contains(c.0))
}

/// `x` placed behind every element of `sorted` that it does not precede.
pub open spec fn placed(sorted: Seq<Scored>, x: Scored) -> Seq<Scored>
    decreases sorted.len(),
{
    if sorted.len() == 0 {
        seq![x]
    } else if order_key(sorted.last().1) <= order_key(x.1) {
        sorted.push(x)
    } else {
        placed(sorted.drop_last(), x).push(sorted.last())
    }
}

/// The stable ascending sort by distance: elements are placed one by one in
/// the order given, so equidistant elements keep that order.
pub open spec fn sorted_by_distance(s: Seq<Scored>) -> Seq<Scored>
    decreases s.len(),
{
    if s.len() == 0 {
        Seq::empty()
    } else {
        placed(sorted_by_distance(s.drop_last()), s.last())
    }
}

/// The first `top_k` of the known candidates in stable ascending order of
/// distance.
pub open spec fn top_ranked(candidates: Seq<Scored>, ids: Set<u64>, top_k: nat) -> Seq<Scored> {
    let all = sorted_by_distance(known(candidates, ids));
    if top_k < all.len() {
        all.take(top_k as int)
    } else {
        all
    }
}

/// Placing `x` is inserting it at the position that separates the elements
/// it does not precede from those it precedes.
pub proof fn lemma_placed_at(sorted: Seq<Scored>, x: Scored, p: int)
    requires
        0 <= p <= sorted.len(),
        forall|j: int| p <= j < sorted.len() ==> order_key(sorted[j].1) > order_key(x.1),
        p > 0 ==> order_key(sorted[p - 1].1) <= order_key(x.1),
    ensures
        placed(sorted, x) == sorted.insert(p, x),
    decreases sorted.len(),
{
    if sorted.len() == 0 {
        assert(seq![x] =~= sorted.insert(p, x));
    } else if p == sorted.len() {
        assert(sorted.push(x) =~= sorted.insert(p, x));
    } else {
        let front = sorted.drop_last();
        lemma_placed_at(front, x, p);
        assert(front.insert(p, x).push(sorted.last()) =~= sorted.insert(p, x));
    }
}

/// Placing an element into an ascending sequence keeps it ascending, adds
/// one to its length, and adds that element and no other.
pub proof fn lemma_placed(sorted: Seq<Scored>, x: Scored)
    requires
        ascending(sorted),
    ensures
        ascending(placed(sorted, x)),
        placed(sorted, x).len() == sorted.len() + 1,
        placed(sorted, x).to_multiset() == sorted.to_multiset().insert(x),
    decreases sorted.len(),
{
    broadcast use vstd::seq_lib::group_to_multiset_ensures;

    if sorted.len() == 0 {
        assert(seq![x] =~= sorted.push(x));
    } else if order_key(sorted.last().1) <= order_key(x.1) {
        let out = sorted.push(x);
        assert forall|i: int, j: int| 0 <= i <= j < out.len() implies order_key(out[i].1)
            <= order_key(out[j].1) by {
            if j == sorted.len() && i < sorted.len() {
                assert(order_key(sorted[i].1) <= order_key(sorted.last().1));
            }
        }
    } else {
        let front = sorted.drop_last();
        let last = sorted.last();
        assert(ascending(front)) by {
            assert forall|i: int, j: int| 0 <= i <= j < front.len() implies order_key(front[i].1)
                <= order_key(front[j].1) by {
                assert(front[i] == sorted[i] && front[j] == sorted[j]);
            }
        }
        lemma_placed(front, x);
        let mid = placed(front, x);
        let out = mid.push(last);
        assert(sorted =~= front.push(last));
        assert(sorted.to_multiset() =~= front.to_multiset().insert(last));
        assert(out.to_multiset() =~= sorted.to_multiset().insert(x));
        assert forall|i: int| 0 <= i < mid.len() implies order_key(#[trigger] mid[i].1)
            <= order_key(last.1) by {
            assert(mid.to_multiset().count(mid[i]) > 0);
            if mid[i] != x {
                assert(front.to_multiset().count(mid[i]) > 0);
                assert(front.contains(mid[i]));
                let k = choose|k: int| 0 <= k < front.len() && front[k] == mid[i];
                assert(order_key(sorted[k].1) <= order_key(sorted[sorted.len() - 1].1));
            }
        }
        assert forall|i: int, j: int| 0 <= i <= j < out.len() implies order_key(out[i].1)
            <= order_key(out[j].1) by {
            if j < mid.len() {
                assert(out[i] == mid[i] && out[j] == mid[j]);
            } else if i < mid.len() {
                assert(out[i] == mid[i]);
            }
        }
    }
}

/// The sort gives an ascending rearrangement of its input.
pub proof fn lemma_sorted_by_distance(s: Seq<Scored>)
    ensures
        ascending(sorted_by_distance(s)),
        sorted_by_distance(s).len() == s.len(),
        sorted_by_distance(s).to_multiset() == s.to_multiset(),
    decreases s.len(),
{
    broadcast use vstd::seq_lib::group_to_multiset_ensures;

    if s.len() > 0 {
        let front = s.drop_last();
        lemma_sorted_by_distance(front);
        lemma_placed(sorted_by_distance(front), s.last());
        assert(s =~= front.push(s.last()));
    }
}

/// The elements of `s` at the distance with ordering key `key`, in order.
pub open spec fn at_distance(s: Seq<Scored>, key: int) -> Seq<Scored> {
    s.filter(|x: Scored| order_key(x.1) == key)
}

/// Placing `x` puts it behind the elements at its own distance and leaves
/// the elements at every other distance as they were.
pub proof fn lemma_placed_stable(sorted: Seq<Scored>, x: Scored, key: int)
    ensures
        at_distance(placed(sorted, x), key) == if order_key(x.1) == key {
            at_distance(sorted, key).push(x)
        } else {
            at_distance(sorted, key)
        },
    decreases sorted.len(),
{
    let pred = |y: Scored| order_key(y.1) == key;
    if sorted.len() == 0 {
        assert(seq![x] =~= sorted.push(x));
        sorted.lemma_filter_push(x, pred);
    } else if order_key(sorted.last().1) <= order_key(x.1) {
        sorted.lemma_filter_push(x, pred);
    } else {
        let front = sorted.drop_last();
        let last = sorted.last();
        lemma_placed_stable(front, x, key);
        placed(front, x).lemma_filter_push(last, pred);
        front.lemma_filter_push(last, pred);
        assert(front.push(last) =~= sorted);
    }
}

/// The sort is stable: the elements at any one distance come out in the
/// order in which they went in.
pub proof fn lemma_sort_stable(s: Seq<Scored>, key: int)
    ensures
        at_distance(sorted_by_distance(s), key) == at_distance(s, key),
    decreases s.len(),
{
    let pred = |y: Scored| order_key(y.1) == key;
    if s.len() == 0 {
        assert(sorted_by_distance(s) =~= s);
    } else {
        let front = s.drop_last();
        lemma_sort_stable(front, key);
        lemma_placed_stable(sorted_by_distance(front), s.last(), key);
        front.lemma_filter_push(s.last(), pred);
        assert(front.push(s.last()) =~= s);
    }
}

/// Sorts by distance, ascending and stable.
pub fn sort_by_distance(items: Vec<Scored>) -> (r: Vec<Scored>)
    ensures
        r@ == sorted_by_distance(items@),
{
    let mut out: Vec<Scored> = Vec::new();
    let mut i: usize = 0;
    while i < items.len()
        invariant
            i <= items.len(),
            out@ == sorted_by_distance(items@.take(i as int)),
            out.len() == i,
        decreases items.len() - i,
    {
        let x = items[i];
        let key = distance_key(x.1);
        let mut p: usize = out.len();
        while p > 0 && distance_key(out[p - 1].1) > key
            invariant
                p <= out.len(),
                key == order_key(x.1),
                forall|j: int| p <= j < out.len() ==> order_key(out[j].1) > order_key(x.1),
            decreases p,
        {
            p -= 1;
        }
        proof {
            lemma_placed_at(out@, x, p as int);
            lemma_sorted_by_distance(items@.take(i as int));
            assert(items@.take(i + 1).drop_last() =~= items@.take(i as int));
        }
        out.insert(p, x);
        i += 1;
    }
    proof {
        assert(items@.take(items.len() as int) =~= items@);
    }
    out
}

/// The ranked results are at most `top_k`, ascending, and name only
/// identifiers in `ids`; there are `top_k` of them unless fewer candidates
/// are known.
pub proof fn lemma_top_ranked(candidates: Seq<Scored>, ids: Set<u64>, top_k: nat)
    ensures
        top_ranked(candidates, ids, top_k).len() == if top_k < known(candidates, ids).len() {
            top_k
        } else {
            known(candidates, ids).len()
        },
        ascending(top_ranked(candidates, ids, top_k)),
        forall|i: int|
            0 <= i < top_ranked(candidates, ids, top_k).len() ==> ids.contains(
                (#[trigger] top_ranked(candidates, ids, top_k)[i]).0,
            ) && candidates.contains(top_ranked(candidates, ids, top_k)[i]),
{
    broadcast use vstd::seq_lib::group_to_multiset_ensures;

    let kept = known(candidates, ids);
    let all = sorted_by_distance(kept);
    let out = top_ranked(candidates, ids, top_k);
    lemma_sorted_by_distance(kept);
    assert forall|i: int| 0 <= i < out.len() implies ids.contains((#[trigger] out[i]).0)
        && candidates.contains(out[i]) by {
        assert(out[i] == all[i]);
        assert(all.to_multiset().count(all[i]) > 0);
        assert(kept.contains(all[i]));
        candidates.lemma_filter_contains_rev(|c: Scored| ids.contains(c.0), all[i]);
    }
    assert forall|i: int, j: int| 0 <= i <= j < out.len() implies order_key(out[i].1) <= order_key(
        out[j].1,
    ) by {
        assert(out[i] == all[i] && out[j] == all[j]);
    }
}

/// Ranks candidates against a document map: those that name a stored
/// document, in stable ascending order of distance, cut to `top_k`.
pub fn rank(documents: &HashMap<u64, Vec<u32>>, candidates: Vec<Scored>, top_k: usize) -> (r: Vec<
    Scored,
>)
    ensures
        r@ == top_ranked(candidates@, documents@.dom(), top_k as nat),
{
    broadcast use vstd::std_specs::hash::group_hash_axioms;

    let ghost ids = documents@.dom();
    let ghost pred = |c: Scored| ids.contains(c.0);
    let mut kept: Vec<Scored> = Vec::new();
    let mut i: usize = 0;
    proof {
        assert(candidates@.take(0).filter(pred) =~= Seq::<Scored>::empty()) by {
            reveal(Seq::filter);
        }
    }
    while i < candidates.len()
        invariant
            i <= candidates.len(),
            ids == documents@.dom(),
            pred == |c: Scored| ids.contains(c.0),
            kept@ == candidates@.take(i as int).filter(pred),
        decreases candidates.len() - i,
    {
        let c = candidates[i];
        proof {
            reveal(Seq::filter);
            assert(candidates@.take(i + 1).drop_last() =~= candidates@.take(i as int));
        }
        if documents.contains_key(&c.0) {
            kept.push(c);
        }
        i += 1;
    }
    proof {
        assert(candidates@.take(candidates.len() as int) =~= candidates@);
    }
    let mut sorted = sort_by_distance(kept);
    if top_k < sorted.len() {
        sorted.truncate(top_k);
    }
    sorted
}

/// Candidates that all name identifiers in `ids` are all known.
pub proof fn lemma_all_known(candidates: Seq<Scored>, ids: Set<u64>)
    requires
        forall|i: int| 0 <= i < candidates.len() ==> ids.contains((#[trigger] candidates[i]).0),
    ensures
        known(candidates, ids) == candidates,
    decreases candidates.len(),
{
    reveal(Seq::filter);
    if candidates.len() > 0 {
        let front = candidates.drop_last();
        assert forall|i: int| 0 <= i < front.len() implies ids.contains(
            (#[trigger] front[i]).0,
        ) by {
            assert(front[i] == candidates[i]);
        }
        lemma_all_known(front, ids);
        assert(front.push(candidates.last()) =~= candidates);
    } else {
        assert(known(candidates, ids) =~= candidates);
    }
}

/// Where the index is exhaustive, so that its candidates name every
/// identifier in `ids` exactly once, a search returns `top_k` results, or all
/// of them if there are fewer; and where `top_k` is no less than their
/// number, the results are the candidates rearranged in ascending order.
pub proof fn lemma_exhaustive_search(candidates: Seq<Scored>, ids: Set<u64>, top_k: nat)
    requires
        ids.finite(),
        candidates.map_values(|c: Scored| c.0).no_duplicates(),
        candidates.map_values(|c: Scored| c.0).to_set() == ids,
    ensures
        top_ranked(candidates, ids, top_k).len() == if top_k < ids.len() {
            top_k
        } else {
            ids.len()
        },
        ascending(top_ranked(candidates, ids, top_k)),
        top_k >= ids.len() ==> top_ranked(candidates, ids, top_k).to_multiset()
            == candidates.to_multiset(),
{
    let named = candidates.map_values(|c: Scored| c.0);
    named.unique_seq_to_set();
    assert forall|i: int| 0 <= i < candidates.len() implies ids.contains(
        (#[trigger] candidates[i]).0,
    ) by {
        assert(named[i] == candidates[i].0);
        assert(named.to_set().contains(named[i]));
    }
    lemma_all_known(candidates, ids);
    lemma_top_ranked(candidates, ids, top_k);
    lemma_sorted_by_distance(candidates);
}

/// With no documents stored, a search returns nothing, whatever the
/// candidates.
pub proof fn lemma_search_without_documents(candidates: Seq<Scored>, top_k: nat)
    ensures
        top_ranked(candidates, Set::<u64>::empty(), top_k) == Seq::<Scored>::empty(),
{
    let ids = Set::<u64>::empty();
    let out = top_ranked(candidates, ids, top_k);
    lemma_top_ranked(candidates, ids, top_k);
    if out.len() > 0 {
        assert(ids.contains(out[0].0));
    }
    assert(out =~= Seq::<Scored>::empty());
}

} // verus!
