//! Radius-based cluster extraction: every point seeds its own expansion
//! through radius queries of the spatial index.
use vstd::prelude::*;
use vstd::set_lib::{lemma_int_range, lemma_len_subset, set_int_range};
use crate::geometry::{dist2, lemma_dist2_symmetric};
use crate::kdtree::{SpatialIndex, is_ball};
use crate::point_cloud::Position;

verus! {

/// `q` followed by the members of `res`, in order, that are not in it yet.
pub open spec fn append_new(q: Seq<usize>, res: Seq<usize>) -> Seq<usize>
    decreases res.len(),
{
    if res.len() == 0 {
        q
    } else {
        let q1 = append_new(q, res.drop_last());
        if q1.contains(res.last()) {
            q1
        } else {
            q1.push(res.last())
        }
    }
}

/// The queue of a seed after the given radius-query results were taken in,
/// one per expanded queue entry.
pub open spec fn grow_queue(seed: usize, responses: Seq<Seq<usize>>) -> Seq<usize>
    decreases responses.len(),
{
    if responses.len() == 0 {
        seq![seed]
    } else {
        append_new(grow_queue(seed, responses.drop_last()), responses.last())
    }
}

/// The number of neighbours that the given radius queries returned in all,
/// repeats included.
pub open spec fn hits(responses: Seq<Seq<usize>>) -> nat
    decreases responses.len(),
{
    if responses.len() == 0 {
        0
    } else {
        hits(responses.drop_last()) + responses.last().len()
    }
}

/// Whether the `k`-th radius query of a seed's expansion was made while
/// the expansion was still going (fewer than `n` hits so far, an entry left
/// in the queue), around the `k`-th queue entry, and returned its ball.
pub open spec fn step_ok(pts: Seq<Position>, r2: int, seed: usize, responses: Seq<Seq<usize>>, k: int) -> bool {
    let q = grow_queue(seed, responses.take(k));
    &&& hits(responses.take(k)) < pts.len()
    &&& k < q.len()
    &&& is_ball(pts, q[k] as int, r2, responses[k])
}

/// Whether `cluster` is what the expansion of `seed` yields when its radius
/// queries return `responses`: the expansion goes on while fewer than `n`
/// hits were counted and the queue has an entry left to expand; the `k`-th
/// query is around the `k`-th queue entry and returns its ball.
pub open spec fn is_cluster_run(
    pts: Seq<Position>,
    r2: int,
    seed: usize,
    responses: Seq<Seq<usize>>,
    cluster: Seq<usize>,
) -> bool {
    &&& forall|k: int| 0 <= k < responses.len() ==> #[trigger] step_ok(pts, r2, seed, responses, k)
    &&& !(hits(responses) < pts.len() && responses.len() < grow_queue(seed, responses).len())
    &&& cluster == grow_queue(seed, responses)
}

/// Whether `cluster` is what the expansion of point `seed` yields for some
/// outcome of its radius queries.
pub open spec fn is_cluster_of(pts: Seq<Position>, r2: int, seed: int, cluster: Seq<usize>) -> bool {
    exists|responses: Seq<Seq<usize>>| #[trigger] is_cluster_run(pts, r2, seed as usize, responses, cluster)
}

/// Whether `x` occurs in `q`.
fn queue_contains(q: &Vec<usize>, x: usize) -> (r: bool)
    ensures
        r == q@.contains(x),
{
    let mut i: usize = 0;
    while i < q.len()
        invariant
            i <= q@.len(),
            forall|k: int| 0 <= k < i ==> q@[k] != x,
        decreases q@.len() - i,
    {
        if q[i] == x {
            return true;
        }
        i += 1;
    }
    false
}

/// A sequence of distinct indices below `n` has at most `n` entries.
proof fn lemma_distinct_below(s: Seq<usize>, n: nat)
    requires
        s.no_duplicates(),
        forall|i: int| 0 <= i < s.len() ==> s[i] < n,
    ensures
        s.len() <= n,
{
    let si = s.map_values(|x: usize| x as int);
    assert(si.no_duplicates()) by {
        assert forall|a: int, b: int| 0 <= a < si.len() && 0 <= b < si.len() && a != b implies si[a]
            != si[b] by {
            assert(s[a] != s[b]);
        }
    }
    si.unique_seq_to_set();
    lemma_int_range(0, n as int);
    assert(si.to_set().subset_of(set_int_range(0, n as int))) by {
        assert forall|v: int| si.to_set().contains(v) implies set_int_range(0, n as int).contains(v) by {
            assert(si.contains(v));
            let k = choose|k: int| 0 <= k < si.len() && si[k] == v;
            assert(s[k] < n);
        }
    }
    lemma_len_subset(si.to_set(), set_int_range(0, n as int));
}

/// Taking in a query result keeps the queue's entries distinct and below
/// `n`, and adds at most as many entries as the result has.
proof fn lemma_append_new(q: Seq<usize>, res: Seq<usize>, n: nat)
    requires
        q.no_duplicates(),
        forall|i: int| 0 <= i < q.len() ==> q[i] < n,
        forall|i: int| 0 <= i < res.len() ==> res[i] < n,
    ensures
        append_new(q, res).no_duplicates(),
        forall|i: int| 0 <= i < append_new(q, res).len() ==> append_new(q, res)[i] < n,
        q.len() <= append_new(q, res).len() <= q.len() + res.len(),
    decreases res.len(),
{
    if res.len() > 0 {
        lemma_append_new(q, res.drop_last(), n);
    }
}

/// Appends to `queue` each member of `neighbors`, in order, that it does not
/// hold yet.
fn take_in(queue: &mut Vec<usize>, neighbors: &Vec<usize>, n: usize)
    requires
        old(queue)@.no_duplicates(),
        forall|i: int| 0 <= i < old(queue)@.len() ==> old(queue)@[i] < n,
        forall|i: int| 0 <= i < neighbors@.len() ==> neighbors@[i] < n,
    ensures
        final(queue)@ == append_new(old(queue)@, neighbors@),
{
    let ghost q0 = queue@;
    let mut j: usize = 0;
    while j < neighbors.len()
        invariant
            q0.no_duplicates(),
            forall|i: int| 0 <= i < q0.len() ==> q0[i] < n,
            forall|i: int| 0 <= i < neighbors@.len() ==> neighbors@[i] < n,
            j <= neighbors@.len(),
            queue@ == append_new(q0, neighbors@.take(j as int)),
        decreases neighbors@.len() - j,
    {
        let x = neighbors[j];
        proof {
            assert(neighbors@.take(j + 1).drop_last() == neighbors@.take(j as int));
            lemma_append_new(q0, neighbors@.take(j as int), n as nat);
        }
        if !queue_contains(queue, x) {
            queue.push(x);
        }
        j += 1;
    }
    assert(neighbors@.take(j as int) == neighbors@);
}

/// The expansion of one seed: a queue that starts with the seed; while fewer
/// than `n` neighbours were counted and an entry is left, the next entry's
/// radius query appends each neighbour not yet queued, and every neighbour
/// returned counts, repeats included.
fn grow_cluster(index: &SpatialIndex, seed: usize, radius: u32) -> (r: Vec<usize>)
    requires
        index.wf(),
        seed < index@.len(),
    ensures
        is_cluster_of(index@, radius as int * radius as int, seed as int, r@),
{
    let ghost pts = index@;
    let ghost r2 = radius as int * radius as int;
    let n = index.len();
    let mut queue: Vec<usize> = Vec::new();
    queue.push(seed);
    let mut visited: u128 = 0;
    let mut cursor: usize = 0;
    let ghost mut responses: Seq<Seq<usize>> = Seq::empty();
    assert(responses.take(0) == responses);
    while visited < n as u128 && cursor < queue.len()
        invariant
            index.wf(),
            pts == index@,
            r2 == radius as int * radius as int,
            n == pts.len(),
            queue@ == grow_queue(seed, responses),
            queue@.no_duplicates(),
            forall|i: int| 0 <= i < queue@.len() ==> queue@[i] < n,
            visited == hits(responses),
            visited < 2 * n + 1,
            cursor == responses.len(),
            cursor <= queue@.len(),
            forall|k: int| 0 <= k < responses.len() ==> #[trigger] step_ok(pts, r2, seed, responses, k),
        decreases 4 * n - 2 * visited + queue@.len() - cursor,
    {
        let center = queue[cursor];
        let neighbors = index.within_radius(center, radius);
        proof {
            assert forall|i: int| 0 <= i < neighbors@.len() implies neighbors@[i] < n by {
                assert(neighbors@.contains(neighbors@[i]));
            }
            lemma_distinct_below(neighbors@, n as nat);
            lemma_distinct_below(queue@, n as nat);
        }
        let ghost q0 = queue@;
        take_in(&mut queue, &neighbors, n);
        proof {
            lemma_append_new(q0, neighbors@, n as nat);
            let old_responses = responses;
            responses = responses.push(neighbors@);
            assert(responses.drop_last() == old_responses);
            assert(responses.take(cursor as int) == old_responses);
            assert(old_responses.take(cursor as int) == old_responses);
            assert(grow_queue(seed, responses) == append_new(q0, neighbors@));
            assert(hits(responses) == hits(old_responses) + neighbors@.len());
            assert forall|k: int| 0 <= k < responses.len() implies #[trigger] step_ok(pts, r2, seed, responses, k) by {
                if k < old_responses.len() {
                    assert(responses.take(k) == old_responses.take(k));
                    assert(responses[k] == old_responses[k]);
                    assert(step_ok(pts, r2, seed, old_responses, k));
                } else {
                    assert(k == cursor);
                    assert(grow_queue(seed, responses.take(k)) == q0);
                    assert(hits(responses.take(k)) == visited);
                    assert(q0[k] == center);
                    assert(responses[k] == neighbors@);
                }
            }
        }
        visited = visited + neighbors.len() as u128;
        cursor += 1;
    }
    assert(is_cluster_run(pts, r2, seed, responses, queue@));
    assert(is_cluster_run(pts, r2, (seed as int) as usize, responses, queue@));
    queue
}

/// Extracts one cluster per point of the index, in index order: the
/// expansion that the point seeds (see `grow_cluster`). Clusters of
/// different seeds are independent and may overlap.
pub fn extract_clusters_euclidean(tree: &SpatialIndex, radius: u32) -> (r: Vec<Vec<usize>>)
    ensures
        r@.len() == tree@.len(),
        forall|s: int|
            0 <= s < r@.len() ==> is_cluster_of(tree@, radius as int * radius as int, s, #[trigger] r@[s]@),
{
    proof {
        use_type_invariant(tree);
    }
    let mut clusters: Vec<Vec<usize>> = Vec::new();
    let mut s: usize = 0;
    while s < tree.len()
        invariant
            tree.wf(),
            s <= tree@.len(),
            clusters@.len() == s,
            forall|k: int|
                0 <= k < s ==> is_cluster_of(tree@, radius as int * radius as int, k, #[trigger] clusters@[k]@),
        decreases tree@.len() - s,
    {
        let c = grow_cluster(tree, s, radius);
        let ghost before = clusters@;
        clusters.push(c);
        assert forall|k: int| 0 <= k < s + 1 implies is_cluster_of(
            tree@,
            radius as int * radius as int,
            k,
            #[trigger] clusters@[k]@,
        ) by {
            if k < s {
                assert(clusters@[k] == before[k]);
            } else {
                assert(clusters@[k] == c);
            }
        }
        s += 1;
    }
    clusters
}

/// Membership in a queue after taking in a query result: an index is in it
/// exactly when it was queued before or is in the result.
proof fn lemma_append_new_contains(q: Seq<usize>, res: Seq<usize>)
    ensures
        forall|x: usize| #[trigger] append_new(q, res).contains(x) <==> (q.contains(x) || res.contains(x)),
    decreases res.len(),
{
    if res.len() > 0 {
        let init = res.drop_last();
        lemma_append_new_contains(q, init);
        let q1 = append_new(q, init);
        let q2 = append_new(q, res);
        assert forall|x: usize| #[trigger] q2.contains(x) <==> (q.contains(x) || res.contains(x)) by {
            if q1.contains(x) {
                let k = choose|k: int| 0 <= k < q1.len() && q1[k] == x;
                assert(q2[k] == x);
            }
            if x == res.last() && !q1.contains(x) {
                assert(q2[q1.len() as int] == x);
            }
            if q2.contains(x) && !q1.contains(res.last()) {
                let k = choose|k: int| 0 <= k < q2.len() && q2[k] == x;
                if k < q1.len() {
                    assert(q1[k] == x);
                }
            }
            if res.contains(x) && x != res.last() {
                let k = choose|k: int| 0 <= k < res.len() && res[k] == x;
                assert(init[k] == x);
                assert(init.contains(x));
            }
            if init.contains(x) {
                let k = choose|k: int| 0 <= k < init.len() && init[k] == x;
                assert(res[k] == x);
            }
            if x == res.last() {
                assert(res[res.len() - 1] == x);
            }
        }
    }
}

/// Clusters keep to their group: when no point of `group` lies closer than
/// the radius (`r2` is its square) to a point outside the group, every
/// cluster seeded by a point of the group holds points of the group only.
pub proof fn lemma_cluster_stays_in_group(
    pts: Seq<Position>,
    r2: int,
    seed: int,
    cluster: Seq<usize>,
    group: Set<usize>,
)
    requires
        0 <= seed < pts.len(),
        is_cluster_of(pts, r2, seed, cluster),
        group.contains(seed as usize),
        forall|a: usize, b: usize|
            #[trigger] group.contains(a) && !#[trigger] group.contains(b) && a < pts.len() && b
                < pts.len() ==> dist2(pts[a as int], pts[b as int]) >= r2,
    ensures
        forall|i: int| 0 <= i < cluster.len() ==> group.contains(#[trigger] cluster[i]),
{
    let responses = choose|responses: Seq<Seq<usize>>|
        #[trigger] is_cluster_run(pts, r2, seed as usize, responses, cluster);
    lemma_queue_in_group(pts, r2, seed as usize, responses, group, responses.len() as int);
    assert(responses.take(responses.len() as int) == responses);
}

proof fn lemma_queue_in_group(
    pts: Seq<Position>,
    r2: int,
    seed: usize,
    responses: Seq<Seq<usize>>,
    group: Set<usize>,
    k: int,
)
    requires
        0 <= k <= responses.len(),
        forall|j: int| 0 <= j < responses.len() ==> #[trigger] step_ok(pts, r2, seed, responses, j),
        seed < pts.len(),
        group.contains(seed),
        forall|a: usize, b: usize|
            #[trigger] group.contains(a) && !#[trigger] group.contains(b) && a < pts.len() && b
                < pts.len() ==> dist2(pts[a as int], pts[b as int]) >= r2,
    ensures
        forall|i: int|
            0 <= i < grow_queue(seed, responses.take(k)).len() ==> group.contains(
                #[trigger] grow_queue(seed, responses.take(k))[i],
            ) && grow_queue(seed, responses.take(k))[i] < pts.len(),
    decreases k,
{
    if k == 0 {
        assert(responses.take(0).len() == 0);
    } else {
        lemma_queue_in_group(pts, r2, seed, responses, group, k - 1);
        let prev = responses.take(k - 1);
        let q = grow_queue(seed, prev);
        let res = responses[k - 1];
        assert(responses.take(k).drop_last() == prev);
        assert(responses.take(k).last() == res);
        assert(step_ok(pts, r2, seed, responses, k - 1));
        let c = q[k - 1];
        assert(group.contains(c));
        lemma_append_new_contains(q, res);
        let q2 = grow_queue(seed, responses.take(k));
        assert(q2 == append_new(q, res));
        assert forall|i: int| 0 <= i < q2.len() implies group.contains(#[trigger] q2[i]) && q2[i] < pts.len() by {
            let x = q2[i];
            assert(q2.contains(x));
            if q.contains(x) {
                let m = choose|m: int| 0 <= m < q.len() && q[m] == x;
                assert(group.contains(q[m]) && q[m] < pts.len());
            } else {
                assert(res.contains(x));
                assert(x < pts.len() && dist2(pts[x as int], pts[c as int]) < r2);
                lemma_dist2_symmetric(pts[x as int], pts[c as int]);
                assert(c < pts.len());
            }
        }
    }
}

/// Taking in a query result only appends to the queue.
proof fn lemma_append_new_extends(q: Seq<usize>, res: Seq<usize>)
    ensures
        q.len() <= append_new(q, res).len(),
        append_new(q, res).take(q.len() as int) == q,
    decreases res.len(),
{
    if res.len() > 0 {
        lemma_append_new_extends(q, res.drop_last());
        let q1 = append_new(q, res.drop_last());
        if !q1.contains(res.last()) {
            assert(q1.push(res.last()).take(q.len() as int) == q1.take(q.len() as int));
        }
    }
}

/// The queue after the first `k` queries is a prefix of the queue after all
/// of them.
proof fn lemma_grow_queue_prefix(seed: usize, responses: Seq<Seq<usize>>, k: int)
    requires
        0 <= k <= responses.len(),
    ensures
        grow_queue(seed, responses.take(k)).len() <= grow_queue(seed, responses).len(),
        grow_queue(seed, responses).take(grow_queue(seed, responses.take(k)).len() as int)
            == grow_queue(seed, responses.take(k)),
    decreases responses.len() - k,
{
    if k == responses.len() {
        assert(responses.take(k) == responses);
    } else {
        lemma_grow_queue_prefix(seed, responses, k + 1);
        let a = grow_queue(seed, responses.take(k));
        let b = grow_queue(seed, responses.take(k + 1));
        let full = grow_queue(seed, responses);
        assert(responses.take(k + 1).drop_last() == responses.take(k));
        lemma_append_new_extends(a, responses[k]);
        assert(b == append_new(a, responses[k]));
        assert(full.take(a.len() as int) == b.take(a.len() as int));
    }
}

/// A cluster whose expansion ended with fewer than `n` hits ran out of queue
/// entries, and is closed: every point closer than the radius (`r2` is its
/// square) to one of its members is a member too, so it holds the seed's
/// whole connected component.
pub proof fn lemma_exhausted_cluster_is_closed(
    pts: Seq<Position>,
    r2: int,
    seed: usize,
    responses: Seq<Seq<usize>>,
    cluster: Seq<usize>,
)
    requires
        is_cluster_run(pts, r2, seed, responses, cluster),
        hits(responses) < pts.len(),
    ensures
        forall|m: int, j: usize|
            0 <= m < cluster.len() && j < pts.len() && #[trigger] dist2(pts[j as int], pts[cluster[m] as int])
                < r2 ==> cluster.contains(j),
{
    assert forall|m: int, j: usize|
        0 <= m < cluster.len() && j < pts.len() && #[trigger] dist2(pts[j as int], pts[cluster[m] as int])
            < r2 implies cluster.contains(j) by {
        assert(m < responses.len());
        assert(step_ok(pts, r2, seed, responses, m));
        lemma_grow_queue_prefix(seed, responses, m);
        lemma_grow_queue_prefix(seed, responses, m + 1);
        let qm = grow_queue(seed, responses.take(m));
        assert(cluster.take(qm.len() as int)[m] == cluster[m]);
        assert(qm[m] == cluster[m]);
        let res = responses[m];
        assert(res.contains(j));
        assert(responses.take(m + 1).drop_last() == responses.take(m));
        let q1 = grow_queue(seed, responses.take(m + 1));
        assert(q1 == append_new(qm, res));
        lemma_append_new_contains(qm, res);
        assert(q1.contains(j));
        let i = choose|i: int| 0 <= i < q1.len() && q1[i] == j;
        assert(cluster.take(q1.len() as int)[i] == j);
    }
}

} // verus!
