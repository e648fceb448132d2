use vstd::prelude::*;

use crate::calculator::{merge_ids, CalculatorView};
use crate::distance::{frac_exceeds_threshold, DistanceView, MATCHES_LIMIT};
use crate::ranking::sorted_by_distance;

verus! {

broadcast use vstd::seq_lib::group_to_multiset_ensures;

/// Storing a score twice for one guest and topic keeps only the second: the
/// store is as if the first had never been stored, and the second is what a
/// lookup finds.
pub proof fn law_overwrite_keeps_latest(
    v: CalculatorView,
    guest: Seq<char>,
    topic: Seq<char>,
    first: i64,
    second: i64,
)
    ensures
        v.with_score(guest, topic, first).with_score(guest, topic, second) == v.with_score(
            guest,
            topic,
            second,
        ),
        v.with_score(guest, topic, first).with_score(guest, topic, second).score(guest, topic)
            == Some(second),
{
    assert(v.scores.insert((guest, topic), first).insert((guest, topic), second)
        =~= v.scores.insert((guest, topic), second));
}

proof fn lemma_merge_copies(known: Seq<Seq<char>>, id: Seq<char>, n: nat)
    requires
        n >= 1,
    ensures
        merge_ids(known, Seq::new(n, |_i: int| id)) == if known.contains(id) {
            known
        } else {
            known.push(id)
        },
    decreases n,
{
    let ids = Seq::new(n, |_i: int| id);
    assert(ids.last() == id);
    assert(known.push(id)[known.len() as int] == id);
    if n == 1 {
        assert(ids.drop_last() =~= Seq::<Seq<char>>::empty());
        assert(merge_ids(known, ids.drop_last()) == known);
    } else {
        assert(ids.drop_last() =~= Seq::new((n - 1) as nat, |_i: int| id));
        lemma_merge_copies(known, id, (n - 1) as nat);
    }
}

/// Registering one topic id any number of times (at least once) adds at most
/// one topic, counted once: one when the id is new, none when it is known. The
/// count stays the number of distinct topics.
pub proof fn law_topic_registered_once(v: CalculatorView, id: Seq<char>, n: nat)
    requires
        v.valid(),
        n >= 1,
    ensures
        v.with_thematic_ids(Seq::new(n, |_i: int| id)).thematics_count == v.thematics_count + (
        if v.thematic_ids.contains(id) {
            0int
        } else {
            1int
        }),
        v.with_thematic_ids(Seq::new(n, |_i: int| id)).valid(),
        v.with_thematic_ids(Seq::new(n, |_i: int| id)).thematic_ids.to_set().len() == v.with_thematic_ids(
            Seq::new(n, |_i: int| id),
        ).thematics_count,
{
    let w = v.with_thematic_ids(Seq::new(n, |_i: int| id));
    lemma_merge_copies(v.thematic_ids, id, n);
    if !v.thematic_ids.contains(id) {
        let t = v.thematic_ids.push(id);
        assert forall|i: int, j: int| 0 <= i < t.len() && 0 <= j < t.len() && i != j implies t[i]
            != t[j] by {
            if j == t.len() - 1 {
                assert(t[i] == v.thematic_ids[i]);
            } else if i == t.len() - 1 {
                assert(t[j] == v.thematic_ids[j]);
            }
        }
    }
    w.thematic_ids.unique_seq_to_set();
}

proof fn lemma_diff_sum_symmetric(
    v: CalculatorView,
    a: Seq<char>,
    b: Seq<char>,
    topics: Seq<Seq<char>>,
)
    ensures
        v.diff_sum(a, b, topics) == v.diff_sum(b, a, topics),
    decreases topics.len(),
{
    if topics.len() > 0 {
        lemma_diff_sum_symmetric(v, a, b, topics.drop_last());
    }
}

/// The distance of `a` to `b` is that of `b` to `a`, and so is whether they
/// are within the threshold.
pub proof fn law_distance_symmetric(v: CalculatorView, a: Seq<char>, b: Seq<char>)
    ensures
        v.distance_sum(a, b) == v.distance_sum(b, a),
        v.within_threshold(a, b) == v.within_threshold(b, a),
{
    lemma_diff_sum_symmetric(v, a, b, v.thematic_ids);
}

proof fn lemma_eligible_members(v: CalculatorView, guest: Seq<char>, candidates: Seq<Seq<char>>)
    ensures
        forall|k: int|
            0 <= k < v.eligible(guest, candidates).len() ==> {
                let x = #[trigger] v.eligible(guest, candidates)[k];
                &&& x.guest_a_id == guest
                &&& v.within_threshold(guest, x.guest_b_id)
                &&& x == v.match_of(guest, x.guest_b_id)
            },
    decreases candidates.len(),
{
    if candidates.len() > 0 {
        let prev = v.eligible(guest, candidates.drop_last());
        let all = v.eligible(guest, candidates);
        lemma_eligible_members(v, guest, candidates.drop_last());
        assert forall|k: int| 0 <= k < all.len() implies {
            let x = #[trigger] all[k];
            &&& x.guest_a_id == guest
            &&& v.within_threshold(guest, x.guest_b_id)
            &&& x == v.match_of(guest, x.guest_b_id)
        } by {
            if k < prev.len() {
                assert(all[k] == prev[k]);
            }
        }
    }
}

proof fn lemma_locate(v: CalculatorView, guests: Seq<Seq<char>>, n: int, p: int) -> (i: int)
    requires
        0 <= n <= guests.len(),
        0 <= p < v.group_start(guests, n),
    ensures
        0 <= i < n,
        v.group_start(guests, i) <= p < v.group_start(guests, i + 1),
    decreases n,
{
    if p >= v.group_start(guests, n - 1) {
        n - 1
    } else {
        lemma_locate(v, guests, n - 1, p)
    }
}

/// Each match in a ranking is kept only where its two guests are at most two
/// score points apart, and carries their distance.
pub proof fn law_ranking_within_threshold(
    v: CalculatorView,
    guests: Seq<Seq<char>>,
    r: Seq<DistanceView>,
)
    requires
        v.is_ranking(guests, r),
    ensures
        forall|p: int|
            0 <= p < r.len() ==> {
                &&& v.within_threshold(#[trigger] r[p].guest_a_id, r[p].guest_b_id)
                &&& !frac_exceeds_threshold(r[p].sum, r[p].thematics)
                &&& r[p] == v.match_of(r[p].guest_a_id, r[p].guest_b_id)
            },
{
    assert forall|p: int| 0 <= p < r.len() implies {
        &&& v.within_threshold(#[trigger] r[p].guest_a_id, r[p].guest_b_id)
        &&& !frac_exceeds_threshold(r[p].sum, r[p].thematics)
        &&& r[p] == v.match_of(r[p].guest_a_id, r[p].guest_b_id)
    } by {
        let i = lemma_locate(v, guests, guests.len() as int, p);
        crate::calculator::lemma_group_start_monotonic(v, guests, i, i + 1);
        crate::calculator::lemma_group_start_monotonic(v, guests, i + 1, guests.len() as int);
        let g = v.group(guests, r, i);
        let e = v.eligible_matches(guests[i]);
        assert(is_best_matches_at(v, guests, r, i));
        let x = r[p];
        assert(g[p - v.group_start(guests, i)] == x);
        assert(g.contains(x));
        assert(e.to_multiset().count(x) > 0);
        assert(e.contains(x));
        let k = choose|k: int| 0 <= k < e.len() && e[k] == x;
        lemma_eligible_members(v, guests[i], v.other_guest_ids);
        assert(e[k] == x);
        assert(x.guest_a_id == guests[i]);
        assert(v.within_threshold(x.guest_a_id, x.guest_b_id));
        assert(x == v.match_of(x.guest_a_id, x.guest_b_id));
        assert(!frac_exceeds_threshold(x.sum, x.thematics));
    }
}

spec fn is_best_matches_at(
    v: CalculatorView,
    guests: Seq<Seq<char>>,
    r: Seq<DistanceView>,
    i: int,
) -> bool {
    crate::ranking::is_best_matches(
        v.group(guests, r, i),
        v.eligible_matches(guests[i]),
        MATCHES_LIMIT as nat,
    )
}

/// A guest with more eligible candidates than the limit gets exactly the limit
/// of them, and every candidate left out is at least as far as every one kept.
pub proof fn law_truncated_to_nearest(
    v: CalculatorView,
    guests: Seq<Seq<char>>,
    r: Seq<DistanceView>,
    i: int,
)
    requires
        v.is_ranking(guests, r),
        0 <= i < guests.len(),
        v.eligible_matches(guests[i]).len() > MATCHES_LIMIT,
    ensures
        v.group(guests, r, i).len() == MATCHES_LIMIT,
        forall|x: DistanceView|
            #[trigger] v.eligible_matches(guests[i]).to_multiset().count(x) > v.group(
                guests,
                r,
                i,
            ).to_multiset().count(x) ==> forall|k: int|
                0 <= k < MATCHES_LIMIT ==> #[trigger] v.group(guests, r, i)[k].le(x),
{
    assert(is_best_matches_at(v, guests, r, i));
}

/// Within the matches of one guest, distances never decrease.
pub proof fn law_group_sorted(
    v: CalculatorView,
    guests: Seq<Seq<char>>,
    r: Seq<DistanceView>,
    i: int,
)
    requires
        v.is_ranking(guests, r),
        0 <= i < guests.len(),
    ensures
        sorted_by_distance(v.group(guests, r, i)),
{
    assert(is_best_matches_at(v, guests, r, i));
}

/// The matches of an earlier guest all come before those of a later one,
/// whatever their distances, and each group holds matches of its own guest.
pub proof fn law_groups_in_query_order(
    v: CalculatorView,
    guests: Seq<Seq<char>>,
    r: Seq<DistanceView>,
    i: int,
    j: int,
)
    requires
        v.is_ranking(guests, r),
        0 <= i < j < guests.len(),
    ensures
        v.group_start(guests, i) <= v.group_start(guests, i + 1) <= v.group_start(guests, j)
            <= v.group_start(guests, j + 1) <= r.len(),
        forall|k: int|
            0 <= k < v.group(guests, r, i).len() ==> (#[trigger] v.group(guests, r, i)[k]).guest_a_id
                == guests[i],
        forall|k: int|
            0 <= k < v.group(guests, r, j).len() ==> (#[trigger] v.group(guests, r, j)[k]).guest_a_id
                == guests[j],
{
    crate::calculator::lemma_group_start_monotonic(v, guests, i, i + 1);
    crate::calculator::lemma_group_start_monotonic(v, guests, i + 1, j);
    crate::calculator::lemma_group_start_monotonic(v, guests, j, j + 1);
    crate::calculator::lemma_group_start_monotonic(v, guests, j + 1, guests.len() as int);
    law_ranking_within_threshold(v, guests, r);
    lemma_group_of_guest(v, guests, r, i);
    lemma_group_of_guest(v, guests, r, j);
}

proof fn lemma_group_of_guest(v: CalculatorView, guests: Seq<Seq<char>>, r: Seq<DistanceView>, i: int)
    requires
        v.is_ranking(guests, r),
        0 <= i < guests.len(),
    ensures
        forall|k: int|
            0 <= k < v.group(guests, r, i).len() ==> (#[trigger] v.group(guests, r, i)[k]).guest_a_id
                == guests[i],
{
    let g = v.group(guests, r, i);
    let e = v.eligible_matches(guests[i]);
    assert(is_best_matches_at(v, guests, r, i));
    lemma_eligible_members(v, guests[i], v.other_guest_ids);
    assert forall|k: int| 0 <= k < g.len() implies (#[trigger] g[k]).guest_a_id == guests[i] by {
        let x = g[k];
        assert(g.contains(x));
        assert(e.to_multiset().count(x) > 0);
        assert(e.contains(x));
        let m = choose|m: int| 0 <= m < e.len() && e[m] == x;
        assert(e[m] == x);
    }
}

proof fn lemma_empty_starts(guests: Seq<Seq<char>>, n: int)
    requires
        0 <= n <= guests.len(),
    ensures
        CalculatorView::empty().group_start(guests, n) == 0,
    decreases n,
{
    if n > 0 {
        lemma_empty_starts(guests, n - 1);
    }
}

/// Once everything is cleared, a ranking of any guests is empty, and any two
/// guests are at distance 0.
pub proof fn law_cleared_store_is_empty(
    guests: Seq<Seq<char>>,
    r: Seq<DistanceView>,
    a: Seq<char>,
    b: Seq<char>,
)
    requires
        CalculatorView::empty().is_ranking(guests, r),
    ensures
        r.len() == 0,
        CalculatorView::empty().distance_sum(a, b) == 0,
        CalculatorView::empty().match_of(a, b).thematics == 0,
{
    lemma_empty_starts(guests, guests.len() as int);
}

} // verus!
