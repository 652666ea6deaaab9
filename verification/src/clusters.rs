//! Grouping of points by nearness. The points themselves stay outside:
//! here a point is its place in the cloud, and for each point the places of
//! the points near it are given.

use vstd::prelude::*;

verus! {

/// Whether every listed neighbour is a place in the cloud.
pub open spec fn well_linked(neighbors: Seq<Vec<usize>>) -> bool {
    forall|i: int, t: int|
        0 <= i < neighbors.len() && 0 <= t < neighbors[i]@.len() ==> (#[trigger] neighbors[i]@[t])
            < neighbors.len()
}

/// Whether `i` is in one of the groups.
pub open spec fn member(groups: Seq<Vec<usize>>, i: usize) -> bool {
    exists|k: int, p: int|
        0 <= k < groups.len() && 0 <= p < groups[k]@.len() && (#[trigger] groups[k]@[p]) == i
}

/// Whether `b` is listed as near `a`.
pub open spec fn near(neighbors: Seq<Vec<usize>>, a: usize, b: usize) -> bool {
    neighbors[a as int]@.contains(b)
}

/// Whether `x` is near one of the first `upto` points of `group`.
pub open spec fn near_one_of(
    neighbors: Seq<Vec<usize>>,
    group: Seq<usize>,
    upto: int,
    x: usize,
) -> bool {
    exists|q: int| 0 <= q < upto && #[trigger] near(neighbors, group[q], x)
}

/// Whether each point of the group but the first is near a point that
/// stands before it in the group.
pub open spec fn linked(neighbors: Seq<Vec<usize>>, group: Seq<usize>) -> bool {
    forall|p: int|
        0 < p < group.len() ==> #[trigger] near_one_of(neighbors, group, p, group[p])
}

/// Whether the groups are the clusters of the cloud:
/// every point is in one group, at one place;
/// no group is empty;
/// each point of a group but the first is near a point before it in the group;
/// what is near a point of a group is in that group or in an earlier one;
/// and a group's first point is the first point of the cloud that no
/// earlier group holds.
pub open spec fn is_grouping(neighbors: Seq<Vec<usize>>, groups: Seq<Vec<usize>>) -> bool {
    &&& forall|i: usize| i < neighbors.len() ==> #[trigger] member(groups, i)
    &&& forall|k: int, p: int|
        0 <= k < groups.len() && 0 <= p < groups[k]@.len() ==> (#[trigger] groups[k]@[p])
            < neighbors.len()
    &&& forall|ka: int, pa: int, kb: int, pb: int|
        0 <= ka < groups.len() && 0 <= pa < groups[ka]@.len() && 0 <= kb < groups.len() && 0 <= pb
            < groups[kb]@.len() && (#[trigger] groups[ka]@[pa]) == (#[trigger] groups[kb]@[pb])
            ==> ka == kb && pa == pb
    &&& forall|k: int| 0 <= k < groups.len() ==> (#[trigger] groups[k])@.len() > 0
    &&& forall|k: int| 0 <= k < groups.len() ==> linked(neighbors, (#[trigger] groups[k])@)
    &&& forall|k: int, p: int, t: int|
        0 <= k < groups.len() && 0 <= p < groups[k]@.len() && 0 <= t
            < neighbors[groups[k]@[p] as int]@.len() ==> member(
            groups.take(k + 1),
            #[trigger] neighbors[groups[k]@[p] as int]@[t],
        )
    &&& forall|k: int, i: usize|
        0 <= k < groups.len() && i < groups[k]@[0] ==> #[trigger] member(groups.take(k), i)
}

/// What each group of a list holds.
pub open spec fn contents(groups: Seq<Vec<usize>>) -> Seq<Seq<usize>> {
    groups.map_values(|g: Vec<usize>| g@)
}

/// The test that the groups of at least `min` points pass.
pub open spec fn at_least(min: usize) -> spec_fn(Seq<usize>) -> bool {
    |g: Seq<usize>| g.len() >= min
}

/// The number of points not yet marked.
spec fn unmarked(marks: Seq<bool>) -> nat
    decreases marks.len(),
{
    if marks.len() == 0 {
        0
    } else {
        unmarked(marks.drop_last()) + if marks.last() {
            0nat
        } else {
            1nat
        }
    }
}

proof fn marking_leaves_fewer(marks: Seq<bool>, i: int)
    requires
        0 <= i < marks.len(),
        !marks[i],
    ensures
        unmarked(marks.update(i, true)) + 1 == unmarked(marks),
    decreases marks.len(),
{
    if i == marks.len() - 1 {
        assert(marks.update(i, true).drop_last() == marks.drop_last());
    } else {
        assert(marks.update(i, true).drop_last() == marks.drop_last().update(i, true));
        marking_leaves_fewer(marks.drop_last(), i);
    }
}

/// Whether the marked points are the points of the groups, of `cluster`
/// and of `stack`.
spec fn marks_match(
    marks: Seq<bool>,
    groups: Seq<Vec<usize>>,
    cluster: Seq<usize>,
    stack: Seq<usize>,
) -> bool {
    forall|i: usize|
        i < marks.len() ==> (#[trigger] marks[i as int] <==> member(groups, i) || cluster.contains(
            i,
        ) || stack.contains(i))
}

/// Whether all that is near the first `full` points of `cluster` is
/// marked, and the first `part` of what is near the next.
spec fn closed(
    neighbors: Seq<Vec<usize>>,
    cluster: Seq<usize>,
    marks: Seq<bool>,
    full: int,
    part: int,
) -> bool {
    forall|p: int, t: int|
        0 <= p < cluster.len() && 0 <= t < neighbors[cluster[p] as int]@.len() && (p < full || (p
            == full && t < part)) ==> marks[(#[trigger] neighbors[cluster[p] as int]@[t]) as int]
}

/// What holds of the points gathered so far and of those that wait.
spec fn frontier_ok(
    neighbors: Seq<Vec<usize>>,
    groups: Seq<Vec<usize>>,
    cluster: Seq<usize>,
    stack: Seq<usize>,
    seed: usize,
) -> bool {
    &&& cluster.no_duplicates()
    &&& stack.no_duplicates()
    &&& forall|p: int, s: int|
        0 <= p < cluster.len() && 0 <= s < stack.len() ==> #[trigger] cluster[p]
            != #[trigger] stack[s]
    &&& forall|p: int|
        0 <= p < cluster.len() ==> (#[trigger] cluster[p]) < neighbors.len() && !member(
            groups,
            cluster[p],
        )
    &&& forall|s: int|
        0 <= s < stack.len() ==> (#[trigger] stack[s]) < neighbors.len() && !member(
            groups,
            stack[s],
        )
    &&& cluster.len() > 0 ==> cluster[0] == seed
    &&& cluster.len() == 0 ==> stack.len() == 1 && stack[0] == seed
    &&& linked(neighbors, cluster)
    &&& forall|s: int|
        0 <= s < stack.len() && cluster.len() > 0 ==> near_one_of(
            neighbors,
            cluster,
            cluster.len() as int,
            #[trigger] stack[s],
        )
}

proof fn frontier_after_pop(
    neighbors: Seq<Vec<usize>>,
    groups: Seq<Vec<usize>>,
    cluster: Seq<usize>,
    stack: Seq<usize>,
    seed: usize,
)
    requires
        frontier_ok(neighbors, groups, cluster, stack, seed),
        stack.len() > 0,
    ensures
        frontier_ok(neighbors, groups, cluster.push(stack.last()), stack.drop_last(), seed),
{
    let current = stack.last();
    let c2 = cluster.push(current);
    let s2 = stack.drop_last();
    assert(c2.no_duplicates()) by {
        assert forall|i: int, j: int| 0 <= i < c2.len() && 0 <= j < c2.len() && i != j implies c2[i]
            != c2[j] by {
            if i < cluster.len() && j < cluster.len() {
                assert(cluster[i] != cluster[j]);
            } else if i < cluster.len() {
                assert(cluster[i] != stack[stack.len() - 1]);
            } else {
                assert(cluster[j] != stack[stack.len() - 1]);
            }
        }
    }
    assert forall|p: int, s: int| 0 <= p < c2.len() && 0 <= s < s2.len() implies #[trigger] c2[p]
        != #[trigger] s2[s] by {
        assert(s2[s] == stack[s]);
        if p < cluster.len() {
            assert(c2[p] == cluster[p]);
        } else {
            assert(stack[s] != stack[stack.len() - 1]);
        }
    }
    assert forall|p: int| 0 <= p < c2.len() implies (#[trigger] c2[p]) < neighbors.len()
        && !member(groups, c2[p]) by {
        if p < cluster.len() {
            assert(c2[p] == cluster[p]);
        } else {
            assert(c2[p] == stack[stack.len() - 1]);
        }
    }
    assert forall|s: int| 0 <= s < s2.len() implies (#[trigger] s2[s]) < neighbors.len()
        && !member(groups, s2[s]) by {
        assert(s2[s] == stack[s]);
    }
    assert forall|p: int| 0 < p < c2.len() implies #[trigger] near_one_of(
        neighbors,
        c2,
        p,
        c2[p],
    ) by {
        if p < cluster.len() {
            assert(near_one_of(neighbors, cluster, p, cluster[p]));
            let q = choose|q: int| 0 <= q < p && #[trigger] near(neighbors, cluster[q], cluster[p]);
            assert(near(neighbors, c2[q], c2[p]));
        } else {
            assert(c2[p] == stack[stack.len() - 1]);
            let q = choose|q: int|
                0 <= q < cluster.len() && #[trigger] near(
                    neighbors,
                    cluster[q],
                    stack[stack.len() - 1],
                );
            assert(near(neighbors, c2[q], c2[p]));
        }
    }
    assert forall|s: int| 0 <= s < s2.len() && c2.len() > 0 implies near_one_of(
        neighbors,
        c2,
        c2.len() as int,
        #[trigger] s2[s],
    ) by {
        assert(s2[s] == stack[s]);
        assert(cluster.len() > 0);
        let q = choose|q: int|
            0 <= q < cluster.len() && #[trigger] near(neighbors, cluster[q], stack[s]);
        assert(near(neighbors, c2[q], s2[s]));
    }
    if cluster.len() == 0 {
        assert(c2[0] == seed);
    } else {
        assert(c2[0] == cluster[0]);
    }
}

proof fn frontier_after_push(
    neighbors: Seq<Vec<usize>>,
    groups: Seq<Vec<usize>>,
    cluster: Seq<usize>,
    stack: Seq<usize>,
    seed: usize,
    marks: Seq<bool>,
    t: int,
)
    requires
        frontier_ok(neighbors, groups, cluster, stack, seed),
        well_linked(neighbors),
        marks.len() == neighbors.len(),
        marks_match(marks, groups, cluster, stack),
        cluster.len() > 0,
        0 <= t < neighbors[cluster.last() as int]@.len(),
        !marks[neighbors[cluster.last() as int]@[t] as int],
    ensures
        frontier_ok(
            neighbors,
            groups,
            cluster,
            stack.push(neighbors[cluster.last() as int]@[t]),
            seed,
        ),
        marks_match(
            marks.update(neighbors[cluster.last() as int]@[t] as int, true),
            groups,
            cluster,
            stack.push(neighbors[cluster.last() as int]@[t]),
        ),
{
    let current = cluster.last();
    let nb = neighbors[current as int]@[t];
    let s2 = stack.push(nb);
    let m2 = marks.update(nb as int, true);
    assert(cluster[cluster.len() - 1] < neighbors.len());
    assert(nb < neighbors.len());
    assert(!member(groups, nb) && !cluster.contains(nb) && !stack.contains(nb));
    assert(s2.no_duplicates()) by {
        assert forall|i: int, j: int| 0 <= i < s2.len() && 0 <= j < s2.len() && i != j implies s2[i]
            != s2[j] by {
            if i < stack.len() && j < stack.len() {
                assert(stack[i] != stack[j]);
            } else if i < stack.len() {
                assert(stack.contains(stack[i]));
            } else {
                assert(stack.contains(stack[j]));
            }
        }
    }
    assert forall|p: int, s: int| 0 <= p < cluster.len() && 0 <= s < s2.len() implies #[trigger] cluster[p]
        != #[trigger] s2[s] by {
        if s < stack.len() {
            assert(s2[s] == stack[s]);
        } else {
            assert(cluster.contains(cluster[p]));
        }
    }
    assert forall|s: int| 0 <= s < s2.len() implies (#[trigger] s2[s]) < neighbors.len()
        && !member(groups, s2[s]) by {
        if s < stack.len() {
            assert(s2[s] == stack[s]);
        }
    }
    assert forall|s: int| 0 <= s < s2.len() && cluster.len() > 0 implies near_one_of(
        neighbors,
        cluster,
        cluster.len() as int,
        #[trigger] s2[s],
    ) by {
        if s < stack.len() {
            assert(s2[s] == stack[s]);
        } else {
            assert(neighbors[cluster[cluster.len() - 1] as int]@[t] == nb);
            assert(near(neighbors, cluster[cluster.len() - 1], nb));
        }
    }
    assert forall|i: usize| i < m2.len() implies (#[trigger] m2[i as int] <==> member(groups, i)
        || cluster.contains(i) || s2.contains(i)) by {
        if i == nb {
            assert(s2[s2.len() - 1] == nb);
        } else {
            assert(m2[i as int] == marks[i as int]);
            if stack.contains(i) {
                let j = choose|j: int| 0 <= j < stack.len() && stack[j] == i;
                assert(s2[j] == i);
            }
            if s2.contains(i) {
                let j = choose|j: int| 0 <= j < s2.len() && s2[j] == i;
                assert(stack[j] == i);
            }
        }
    }
}

/// Gathers the cluster of `seed`: the unmarked points that can be reached
/// from it by going from a point to a point near it. Marks them.
fn flood(
    neighbors: &Vec<Vec<usize>>,
    marks: &mut Vec<bool>,
    seed: usize,
    Ghost(groups): Ghost<Seq<Vec<usize>>>,
) -> (cluster: Vec<usize>)
    requires
        well_linked(neighbors@),
        old(marks)@.len() == neighbors@.len(),
        seed < neighbors@.len(),
        !old(marks)@[seed as int],
        marks_match(old(marks)@, groups, Seq::empty(), Seq::empty()),
    ensures
        final(marks)@.len() == neighbors@.len(),
        cluster@.len() > 0,
        frontier_ok(neighbors@, groups, cluster@, Seq::empty(), seed),
        closed(neighbors@, cluster@, final(marks)@, cluster@.len() as int, 0),
        marks_match(final(marks)@, groups, cluster@, Seq::empty()),
{
    let mut cluster: Vec<usize> = Vec::new();
    let mut stack: Vec<usize> = Vec::new();
    stack.push(seed);
    marks.set(seed, true);
    proof {
        assert(stack@[0] == seed);
        assert(!member(groups, seed));
        assert forall|i: usize| i < marks@.len() implies (#[trigger] marks@[i as int] <==> member(
            groups,
            i,
        ) || cluster@.contains(i) || stack@.contains(i)) by {
            if i != seed {
                assert(marks@[i as int] == old(marks)@[i as int]);
            }
        }
    }
    while stack.len() > 0
        invariant
            well_linked(neighbors@),
            marks@.len() == neighbors@.len(),
            frontier_ok(neighbors@, groups, cluster@, stack@, seed),
            closed(neighbors@, cluster@, marks@, cluster@.len() as int, 0),
            marks_match(marks@, groups, cluster@, stack@),
        decreases unmarked(marks@), stack@.len(),
    {
        let ghost cluster_before = cluster@;
        let ghost stack_before = stack@;
        let ghost marks_before = marks@;
        let current = stack.pop().unwrap();
        cluster.push(current);
        proof {
            frontier_after_pop(neighbors@, groups, cluster_before, stack_before, seed);
            assert(stack@ == stack_before.drop_last());
            assert forall|i: usize| i < marks@.len() implies (#[trigger] marks@[i as int]
                <==> member(groups, i) || cluster@.contains(i) || stack@.contains(i)) by {
                if cluster_before.contains(i) {
                    let j = choose|j: int| 0 <= j < cluster_before.len() && cluster_before[j] == i;
                    assert(cluster@[j] == i);
                }
                if stack_before.contains(i) {
                    let j = choose|j: int| 0 <= j < stack_before.len() && stack_before[j] == i;
                    if j < stack@.len() {
                        assert(stack@[j] == i);
                    } else {
                        assert(cluster@[cluster@.len() - 1] == i);
                    }
                }
                if cluster@.contains(i) {
                    let j = choose|j: int| 0 <= j < cluster@.len() && cluster@[j] == i;
                    if j < cluster_before.len() {
                        assert(cluster_before[j] == i);
                    } else {
                        assert(stack_before[stack_before.len() - 1] == i);
                    }
                }
                if stack@.contains(i) {
                    let j = choose|j: int| 0 <= j < stack@.len() && stack@[j] == i;
                    assert(stack_before[j] == i);
                }
            }
            assert(closed(neighbors@, cluster@, marks@, cluster@.len() - 1, 0)) by {
                assert forall|p: int, t: int|
                    0 <= p < cluster@.len() && 0 <= t < neighbors@[cluster@[p] as int]@.len() && (p
                        < cluster@.len() - 1 || (p == cluster@.len() - 1 && t < 0)) implies marks@[(
                #[trigger] neighbors@[cluster@[p] as int]@[t]) as int] by {
                    assert(cluster@[p] == cluster_before[p]);
                }
            }
            assert(cluster@[cluster@.len() - 1] == current);
        }
        let mut t: usize = 0;
        while t < neighbors[current].len()
            invariant
                well_linked(neighbors@),
                marks@.len() == neighbors@.len(),
                cluster@.len() > 0,
                cluster@[cluster@.len() - 1] == current,
                current < neighbors@.len(),
                t <= neighbors@[current as int]@.len(),
                frontier_ok(neighbors@, groups, cluster@, stack@, seed),
                closed(neighbors@, cluster@, marks@, cluster@.len() - 1, t as int),
                marks_match(marks@, groups, cluster@, stack@),
                unmarked(marks@) <= unmarked(marks_before),
                unmarked(marks@) == unmarked(marks_before) ==> stack@.len() == stack_before.len()
                    - 1,
            decreases neighbors@[current as int]@.len() - t,
        {
            let neighbor = neighbors[current][t];
            assert(neighbor == neighbors@[cluster@[cluster@.len() - 1] as int]@[t as int]);
            assert(neighbor < neighbors@.len());
            let ghost marks_mid = marks@;
            if !marks[neighbor] {
                proof {
                    frontier_after_push(
                        neighbors@,
                        groups,
                        cluster@,
                        stack@,
                        seed,
                        marks@,
                        t as int,
                    );
                    marking_leaves_fewer(marks@, neighbor as int);
                }
                marks.set(neighbor, true);
                stack.push(neighbor);
            }
            proof {
                assert forall|p: int, u: int|
                    0 <= p < cluster@.len() && 0 <= u < neighbors@[cluster@[p] as int]@.len() && (p
                        < cluster@.len() - 1 || (p == cluster@.len() - 1 && u < t + 1)) implies marks@[(
                #[trigger] neighbors@[cluster@[p] as int]@[u]) as int] by {
                    let j = neighbors@[cluster@[p] as int]@[u];
                    if p == cluster@.len() - 1 && u == t {
                    } else {
                        assert(marks_mid[j as int]);
                    }
                }
            }
            t += 1;
        }
        proof {
            assert forall|p: int, u: int|
                0 <= p < cluster@.len() && 0 <= u < neighbors@[cluster@[p] as int]@.len() && (p
                    < cluster@.len() || (p == cluster@.len() && u < 0)) implies marks@[(
            #[trigger] neighbors@[cluster@[p] as int]@[u]) as int] by {}
        }
    }
    cluster
}

/// What holds of the groups while the cloud is gone through: `is_grouping`
/// but for the points from `upto` on, of which those in groups are marked.
spec fn grouped_upto(
    neighbors: Seq<Vec<usize>>,
    groups: Seq<Vec<usize>>,
    marks: Seq<bool>,
    upto: int,
) -> bool {
    &&& marks.len() == neighbors.len()
    &&& marks_match(marks, groups, Seq::empty(), Seq::empty())
    &&& forall|i: usize| i < upto ==> #[trigger] marks[i as int]
    &&& forall|k: int, p: int|
        0 <= k < groups.len() && 0 <= p < groups[k]@.len() ==> (#[trigger] groups[k]@[p])
            < neighbors.len()
    &&& forall|ka: int, pa: int, kb: int, pb: int|
        0 <= ka < groups.len() && 0 <= pa < groups[ka]@.len() && 0 <= kb < groups.len() && 0 <= pb
            < groups[kb]@.len() && (#[trigger] groups[ka]@[pa]) == (#[trigger] groups[kb]@[pb])
            ==> ka == kb && pa == pb
    &&& forall|k: int| 0 <= k < groups.len() ==> (#[trigger] groups[k])@.len() > 0
    &&& forall|k: int| 0 <= k < groups.len() ==> linked(neighbors, (#[trigger] groups[k])@)
    &&& forall|k: int, p: int, t: int|
        0 <= k < groups.len() && 0 <= p < groups[k]@.len() && 0 <= t
            < neighbors[groups[k]@[p] as int]@.len() ==> member(
            groups.take(k + 1),
            #[trigger] neighbors[groups[k]@[p] as int]@[t],
        )
    &&& forall|k: int, i: usize|
        0 <= k < groups.len() && i < groups[k]@[0] ==> #[trigger] member(groups.take(k), i)
}

proof fn grouped_after_flood(
    neighbors: Seq<Vec<usize>>,
    groups: Seq<Vec<usize>>,
    marks_before: Seq<bool>,
    marks: Seq<bool>,
    cluster: Vec<usize>,
    seed: usize,
)
    requires
        well_linked(neighbors),
        grouped_upto(neighbors, groups, marks_before, seed as int),
        seed < neighbors.len(),
        !marks_before[seed as int],
        marks.len() == neighbors.len(),
        cluster@.len() > 0,
        frontier_ok(neighbors, groups, cluster@, Seq::empty(), seed),
        closed(neighbors, cluster@, marks, cluster@.len() as int, 0),
        marks_match(marks, groups, cluster@, Seq::empty()),
    ensures
        grouped_upto(neighbors, groups.push(cluster), marks, seed + 1),
{
    let more = groups.push(cluster);
    let last = groups.len() as int;
    assert(more[last] == cluster);
    assert forall|i: usize| member(groups, i) implies member(more, i) by {
        let (k, p) = choose|k: int, p: int|
            0 <= k < groups.len() && 0 <= p < groups[k]@.len() && (#[trigger] groups[k]@[p]) == i;
        assert(more[k]@[p] == i);
    }
    assert forall|i: usize| member(more, i) implies member(groups, i) || cluster@.contains(i) by {
        let (k, p) = choose|k: int, p: int|
            0 <= k < more.len() && 0 <= p < more[k]@.len() && (#[trigger] more[k]@[p]) == i;
        if k < last {
            assert(groups[k]@[p] == i);
        }
    }
    assert forall|i: usize| cluster@.contains(i) implies member(more, i) by {
        let p = choose|p: int| 0 <= p < cluster@.len() && cluster@[p] == i;
        assert(more[last]@[p] == i);
    }
    assert forall|i: usize| i < marks.len() implies (#[trigger] marks[i as int] <==> member(
        more,
        i,
    ) || Seq::<usize>::empty().contains(i) || Seq::<usize>::empty().contains(i)) by {}
    assert forall|i: usize| i < seed + 1 implies #[trigger] marks[i as int] by {
        if i < seed {
            assert(marks_before[i as int]);
            assert(member(groups, i));
        } else {
            assert(cluster@[0] == seed);
            assert(cluster@.contains(seed));
        }
    }
    assert forall|k: int, p: int| 0 <= k < more.len() && 0 <= p < more[k]@.len() implies (
    #[trigger] more[k]@[p]) < neighbors.len() by {
        if k < last {
            assert(more[k]@[p] == groups[k]@[p]);
        } else {
            assert(more[k]@[p] == cluster@[p]);
        }
    }
    assert forall|ka: int, pa: int, kb: int, pb: int|
        0 <= ka < more.len() && 0 <= pa < more[ka]@.len() && 0 <= kb < more.len() && 0 <= pb
            < more[kb]@.len() && (#[trigger] more[ka]@[pa]) == (
        #[trigger] more[kb]@[pb]) implies ka == kb && pa == pb by {
        if ka < last && kb < last {
            assert(groups[ka]@[pa] == groups[kb]@[pb]);
        } else if ka < last {
            assert(groups[ka]@[pa] == cluster@[pb]);
            assert(member(groups, cluster@[pb]));
        } else if kb < last {
            assert(groups[kb]@[pb] == cluster@[pa]);
            assert(member(groups, cluster@[pa]));
        } else {
            assert(cluster@[pa] == cluster@[pb]);
        }
    }
    assert forall|k: int| 0 <= k < more.len() implies (#[trigger] more[k])@.len() > 0 && linked(
        neighbors,
        more[k]@,
    ) by {
        if k < last {
            assert(more[k] == groups[k]);
        }
    }
    assert forall|k: int, p: int, t: int|
        0 <= k < more.len() && 0 <= p < more[k]@.len() && 0 <= t
            < neighbors[more[k]@[p] as int]@.len() implies member(
        more.take(k + 1),
        #[trigger] neighbors[more[k]@[p] as int]@[t],
    ) by {
        if k < last {
            assert(more[k] == groups[k]);
            assert(more.take(k + 1) == groups.take(k + 1));
        } else {
            assert(more.take(k + 1) == more);
            let j = neighbors[cluster@[p] as int]@[t];
            assert(marks[j as int]);
        }
    }
    assert forall|k: int, i: usize| 0 <= k < more.len() && i < more[k]@[0] implies #[trigger] member(
        more.take(k),
        i,
    ) by {
        if k < last {
            assert(more[k] == groups[k]);
            assert(more.take(k) == groups.take(k));
        } else {
            assert(more.take(k) == groups);
            assert(marks_before[i as int]);
        }
    }
}

/// Sorts the points of a cloud into clusters. `neighbors` lists for each
/// point the points near it. A cluster is started by the first point that
/// is in no cluster yet and takes in, point after point, whatever is near
/// a point it holds and is in no cluster yet.
pub fn components(neighbors: &Vec<Vec<usize>>) -> (groups: Vec<Vec<usize>>)
    requires
        well_linked(neighbors@),
    ensures
        is_grouping(neighbors@, groups@),
{
    let n: usize = neighbors.len();
    let mut marks: Vec<bool> = Vec::new();
    while marks.len() < n
        invariant
            marks@.len() <= n,
            forall|i: int| 0 <= i < marks@.len() ==> !(#[trigger] marks@[i]),
        decreases n - marks@.len(),
    {
        marks.push(false);
    }
    let mut groups: Vec<Vec<usize>> = Vec::new();
    let mut idx: usize = 0;
    assert(grouped_upto(neighbors@, groups@, marks@, 0));
    while idx < n
        invariant
            n == neighbors@.len(),
            idx <= n,
            well_linked(neighbors@),
            grouped_upto(neighbors@, groups@, marks@, idx as int),
        decreases n - idx,
    {
        if !marks[idx] {
            let ghost before = marks@;
            let cluster = flood(neighbors, &mut marks, idx, Ghost(groups@));
            proof {
                grouped_after_flood(neighbors@, groups@, before, marks@, cluster, idx);
            }
            groups.push(cluster);
        }
        idx += 1;
    }
    proof {
        assert forall|i: usize| i < neighbors@.len() implies #[trigger] member(groups@, i) by {
            assert(marks@[i as int]);
        }
    }
    groups
}

/// Keeps the groups of at least `min_cluster_size` points, in their order.
pub fn keep_large(groups: Vec<Vec<usize>>, min_cluster_size: usize) -> (kept: Vec<Vec<usize>>)
    ensures
        contents(kept@) == contents(groups@).filter(at_least(min_cluster_size)),
{
    let mut kept: Vec<Vec<usize>> = Vec::new();
    let mut rest = groups;
    let ghost all = contents(groups@);
    let mut i: usize = 0;
    proof {
        reveal(Seq::filter);
        assert(all.take(0) == Seq::<Seq<usize>>::empty());
        assert(contents(kept@) =~= all.take(0).filter(at_least(min_cluster_size)));
    }
    while i < rest.len()
        invariant
            i <= rest@.len(),
            rest@.len() == all.len(),
            forall|j: int| i <= j < rest@.len() ==> (#[trigger] rest@[j])@ == all[j],
            contents(kept@) == all.take(i as int).filter(at_least(min_cluster_size)),
        decreases rest@.len() - i,
    {
        let ghost before = contents(kept@);
        proof {
            assert(all.take(i + 1) == all.take(i as int).push(all[i as int]));
            all.take(i as int).lemma_filter_push(all[i as int], at_least(min_cluster_size));
        }
        if rest[i].len() >= min_cluster_size {
            let mut group: Vec<usize> = Vec::new();
            rest.set_and_swap(i, &mut group);
            kept.push(group);
            assert(contents(kept@) =~= before.push(all[i as int]));
        }
        i += 1;
    }
    assert(all.take(all.len() as int) == all);
    kept
}

} // verus!
