use vstd::prelude::*;

use crate::distance::{lemma_frac_le_total, lemma_frac_le_transitive, Distance, DistanceView};

verus! {

broadcast use vstd::seq_lib::group_to_multiset_ensures;

/// The views of a list of distances.
pub open spec fn views(s: Seq<Distance>) -> Seq<DistanceView> {
    s.map_values(|d: Distance| d@)
}

/// Distances never decrease along `s`.
pub open spec fn sorted_by_distance(s: Seq<DistanceView>) -> bool {
    forall|i: int, j: int| 0 <= i < j < s.len() ==> #[trigger] s[i].le(#[trigger] s[j])
}

/// The smaller of a length and a limit.
pub open spec fn capped(len: nat, limit: nat) -> nat {
    if len < limit {
        len
    } else {
        limit
    }
}

/// `group` holds `limit` of the nearest entries of `eligible` (all of them when
/// there are fewer), nearest first: every entry left out is at least as far as
/// every entry kept. Among equally distant entries any may be kept.
pub open spec fn is_best_matches(
    group: Seq<DistanceView>,
    eligible: Seq<DistanceView>,
    limit: nat,
) -> bool {
    &&& group.len() == capped(eligible.len(), limit)
    &&& sorted_by_distance(group)
    &&& group.to_multiset().subset_of(eligible.to_multiset())
    &&& forall|x: DistanceView|
        #[trigger] eligible.to_multiset().count(x) > group.to_multiset().count(x) ==> forall|i: int|
            0 <= i < group.len() ==> #[trigger] group[i].le(x)
}

/// The index of a nearest entry of a nonempty list.
fn nearest_index(pool: &Vec<Distance>) -> (m: usize)
    requires
        pool.len() > 0,
    ensures
        m < pool.len(),
        forall|k: int| 0 <= k < pool.len() ==> #[trigger] pool@[m as int]@.le(pool@[k]@),
{
    let mut m: usize = 0;
    let mut i: usize = 1;
    while i < pool.len()
        invariant
            1 <= i <= pool.len(),
            m < i,
            forall|k: int| 0 <= k < i ==> #[trigger] pool@[m as int]@.le(pool@[k]@),
        decreases pool.len() - i,
    {
        if !pool[m].distance.le(&pool[i].distance) {
            proof {
                let vm = pool@[m as int]@;
                let vi = pool@[i as int]@;
                lemma_frac_le_total(vm.sum, vm.thematics, vi.sum, vi.thematics);
                assert forall|k: int| 0 <= k < i + 1 implies #[trigger] vi.le(pool@[k]@) by {
                    if k < i {
                        let vk = pool@[k]@;
                        assert(pool@[m as int]@.le(pool@[k]@));
                        lemma_frac_le_transitive(
                            vi.sum,
                            vi.thematics,
                            vm.sum,
                            vm.thematics,
                            vk.sum,
                            vk.thematics,
                        );
                    } else {
                        lemma_frac_le_total(vi.sum, vi.thematics, vi.sum, vi.thematics);
                    }
                }
            }
            m = i;
        }
        i += 1;
    }
    m
}

/// Keeps the `limit` nearest of `eligible`, nearest first.
pub fn nearest_matches(eligible: Vec<Distance>, limit: usize) -> (group: Vec<Distance>)
    ensures
        is_best_matches(views(group@), views(eligible@), limit as nat),
{
    let ghost all = views(eligible@);
    let mut pool = eligible;
    let mut group: Vec<Distance> = Vec::new();
    while group.len() < limit && pool.len() > 0
        invariant
            views(pool@).to_multiset().add(views(group@).to_multiset()) == all.to_multiset(),
            group.len() + pool.len() == all.len(),
            group.len() <= limit,
            sorted_by_distance(views(group@)),
            forall|i: int, j: int|
                0 <= i < group.len() && 0 <= j < pool.len() ==> #[trigger] group@[i]@.le(
                    #[trigger] pool@[j]@,
                ),
        decreases pool.len(),
    {
        let m = nearest_index(&pool);
        let ghost old_pool = pool@;
        let ghost old_group = group@;
        let d = pool.remove(m);
        group.push(d);
        proof {
            assert(views(pool@) =~= views(old_pool).remove(m as int));
            assert(views(group@) =~= views(old_group).push(d@));
            assert(views(pool@).to_multiset().add(views(group@).to_multiset())
                =~= views(old_pool).to_multiset().add(views(old_group).to_multiset()));
            assert forall|i: int, j: int|
                0 <= i < group.len() && 0 <= j < pool.len() implies #[trigger] group@[i]@.le(
                #[trigger] pool@[j]@,
            ) by {
                if j < m {
                    assert(pool@[j] == old_pool[j]);
                } else {
                    assert(pool@[j] == old_pool[j + 1]);
                }
                if i == group.len() - 1 {
                    assert(group@[i] == old_pool[m as int]);
                } else {
                    assert(group@[i] == old_group[i]);
                }
            }
            assert forall|i: int, j: int|
                0 <= i < j < views(group@).len() implies #[trigger] views(group@)[i].le(
                #[trigger] views(group@)[j],
            ) by {
                if j == group.len() - 1 {
                    assert(views(group@)[j] == old_pool[m as int]@);
                    assert(views(group@)[i] == old_group[i]@);
                } else {
                    assert(views(group@)[j] == views(old_group)[j]);
                    assert(views(group@)[i] == views(old_group)[i]);
                }
            }
        }
    }
    proof {
        let g = views(group@);
        let p = views(pool@);
        assert forall|x: DistanceView| #[trigger]
            all.to_multiset().count(x) > g.to_multiset().count(x) implies forall|i: int|
            0 <= i < g.len() ==> #[trigger] g[i].le(x) by {
            assert(p.to_multiset().count(x) > 0);
            assert(p.contains(x));
            let j = choose|j: int| 0 <= j < p.len() && p[j] == x;
            assert forall|i: int| 0 <= i < g.len() implies #[trigger] g[i].le(x) by {
                assert(group@[i]@.le(pool@[j]@));
            }
        }
    }
    group
}

} // verus!
