//! The spatial index: a kd-tree over the positions of a cloud, answering
//! radius and nearest-point queries by point index.
use vstd::prelude::*;
use vstd::multiset::Multiset;
use kd_tree::KdTree3;
use crate::geometry::{
    V3, pos, vdiff, norm2, dist2, v_bounded, lemma_diff_bounded, lemma_mul_bounded,
    lemma_dist2_symmetric,
};
use vstd::seq_lib::group_to_multiset_ensures;
use crate::point_cloud::{Position, PointCloud, COORD_LIMIT, in_bounds, all_in_bounds};

verus! {

/// A kd-tree of entries. kd_tree's tree type carries a `typenum` dimension
/// bound that Verus cannot declare, so the tree is held here, out of Verus's
/// sight, and reached only through the functions below.
#[verifier::external_body]
pub struct ItemTree {
    tree: KdTree3<Item>,
}

/// An entry of the tree: the coordinates of a point, and its index.
pub type Item = ([i64; 3], usize);

/// The entries that a tree holds.
pub uninterp spec fn kd_entries(t: ItemTree) -> Multiset<Item>;

/// The coordinates of an entry as a vector.
pub open spec fn entry_point(e: Item) -> V3 {
    (e.0@[0] as int, e.0@[1] as int, e.0@[2] as int)
}

/// Relies on kd_tree's `KdTreeN::build`, which reorders the given items in
/// place into a kd-tree and keeps them all.
#[verifier::external_body]
fn build_tree(items: Vec<Item>) -> (r: ItemTree)
    ensures
        kd_entries(r) == items@.to_multiset(),
{
    ItemTree { tree: KdTree3::build(items) }
}

/// A radius at least the diameter of the coordinate range: a ball of this
/// radius around a position within bounds holds every position within bounds.
pub const RADIUS_CAP: i64 = 2097152;

/// Whether every entry's coordinates lie within `COORD_LIMIT`.
pub open spec fn entries_bounded(m: Multiset<Item>) -> bool {
    forall|e: Item| #[trigger] m.contains(e) ==> v_bounded(entry_point(e), COORD_LIMIT as int)
}

/// Whether no entry occurs twice and no two entries share an index.
pub open spec fn entry_indices_unique(m: Multiset<Item>) -> bool {
    &&& forall|e: Item| #[trigger] m.count(e) <= 1
    &&& forall|e1: Item, e2: Item|
        #[trigger] m.contains(e1) && #[trigger] m.contains(e2) && e1.1 == e2.1 ==> e1 == e2
}

/// The vector of a query point.
pub open spec fn query_point(q: [i64; 3]) -> V3 {
    (q@[0] as int, q@[1] as int, q@[2] as int)
}

/// Relies on kd_tree's `within_radius`: it walks the tree once, gathers each
/// entry whose squared distance to the query is below `radius * radius`
/// (within bounds, none of its sums overflows), and visits each slot at most
/// once. Each gathered entry is mapped to its index.
#[verifier::external_body]
fn tree_within_radius(t: &ItemTree, query: &[i64; 3], radius: i64) -> (r: Vec<usize>)
    requires
        entries_bounded(kd_entries(*t)),
        v_bounded(query_point(*query), COORD_LIMIT as int),
        0 <= radius <= RADIUS_CAP,
    ensures
        forall|j: usize|
            r@.contains(j) <==> (exists|e: Item|
                #[trigger] kd_entries(*t).contains(e) && e.1 == j && norm2(
                    vdiff(entry_point(e), query_point(*query)),
                ) < radius * radius),
        entry_indices_unique(kd_entries(*t)) ==> r@.no_duplicates(),
{
    t.tree.within_radius(query, radius).into_iter().map(|e| e.1).collect()
}

/// Relies on kd_tree's `nearest`: `None` for an empty tree, else an entry
/// whose squared distance to the query no other entry undercuts (within
/// bounds, none of its sums overflows). The entry is mapped to its index.
#[verifier::external_body]
fn tree_nearest(t: &ItemTree, query: &[i64; 3]) -> (r: Option<usize>)
    requires
        entries_bounded(kd_entries(*t)),
        v_bounded(query_point(*query), COORD_LIMIT as int),
    ensures
        r is None <==> kd_entries(*t).len() == 0,
        r matches Some(j) ==> exists|e: Item|
            #[trigger] kd_entries(*t).contains(e) && e.1 == j && forall|e2: Item|
                #[trigger] kd_entries(*t).contains(e2) ==> norm2(
                    vdiff(entry_point(e), query_point(*query)),
                ) <= norm2(vdiff(entry_point(e2), query_point(*query))),
{
    t.tree.nearest(query).map(|found| found.item.1)
}

/// Whether `res` lists, each once, exactly the indices of the points whose
/// squared distance to point `c` is below `r2`.
pub open spec fn is_ball(pts: Seq<Position>, c: int, r2: int, res: Seq<usize>) -> bool {
    &&& res.no_duplicates()
    &&& forall|j: usize|
        #[trigger] res.contains(j) <==> (j < pts.len() && dist2(pts[j as int], pts[c]) < r2)
}

/// A spatial index over the positions of a cloud: built once, never changed
/// by a query.
pub struct SpatialIndex {
    tree: ItemTree,
    positions: Vec<Position>,
    entries: Ghost<Seq<Item>>,
}

impl View for SpatialIndex {
    type V = Seq<Position>;

    closed spec fn view(&self) -> Seq<Position> {
        self.positions@
    }
}

impl SpatialIndex {
    /// The tree holds one entry per position, carrying its coordinates and
    /// its index, and every position lies within bounds.
    #[verifier::type_invariant]
    pub closed spec fn wf(&self) -> bool {
        &&& all_in_bounds(self.positions@)
        &&& self.entries@.len() == self.positions@.len()
        &&& forall|i: int|
            0 <= i < self.entries@.len() ==> (#[trigger] self.entries@[i]).1 == i && entry_point(
                self.entries@[i],
            ) == pos(self.positions@[i])
        &&& kd_entries(self.tree) == self.entries@.to_multiset()
    }

    /// The number of indexed points.
    pub fn len(&self) -> (r: usize)
        ensures
            r == self@.len(),
    {
        self.positions.len()
    }

    proof fn lemma_entries(&self)
        requires
            self.wf(),
        ensures
            entries_bounded(kd_entries(self.tree)),
            entry_indices_unique(kd_entries(self.tree)),
            forall|e: Item|
                #[trigger] kd_entries(self.tree).contains(e) ==> e.1 < self@.len() && self.entries@[e.1 as int] == e,
    {
        broadcast use group_to_multiset_ensures;

        let es = self.entries@;
        assert forall|e: Item| #[trigger] kd_entries(self.tree).contains(e) implies e.1 < self@.len()
            && es[e.1 as int] == e by {
            assert(es.to_multiset().count(e) > 0);
            assert(es.contains(e));
            let k = choose|k: int| 0 <= k < es.len() && es[k] == e;
            assert(es[k].1 == k);
        }
        assert(es.no_duplicates()) by {
            assert forall|a: int, b: int| 0 <= a < es.len() && 0 <= b < es.len() && a != b implies es[a]
                != es[b] by {
                assert(es[a].1 == a);
                assert(es[b].1 == b);
            }
        }
        es.lemma_multiset_has_no_duplicates();
        assert forall|e: Item| #[trigger] kd_entries(self.tree).count(e) <= 1 by {
            if kd_entries(self.tree).contains(e) {
            }
        }
        assert forall|e: Item| #[trigger] kd_entries(self.tree).contains(e) implies v_bounded(
            entry_point(e),
            COORD_LIMIT as int,
        ) by {
            assert(in_bounds(self.positions@[e.1 as int]));
        }
    }

    /// The indices of the points closer than `radius` to point `center`,
    /// each once; the center itself is among them whenever `radius > 0`.
    pub fn within_radius(&self, center: usize, radius: u32) -> (r: Vec<usize>)
        requires
            center < self@.len(),
        ensures
            is_ball(self@, center as int, radius as int * radius as int, r@),
    {
        proof {
            use_type_invariant(self);
            self.lemma_entries();
        }
        let p = self.positions[center];
        let query: [i64; 3] = [p.x as i64, p.y as i64, p.z as i64];
        let capped: i64 = if radius as i64 > RADIUS_CAP {
            RADIUS_CAP
        } else {
            radius as i64
        };
        proof {
            assert(in_bounds(self.positions@[center as int]));
            assert(query_point(query) == pos(p));
        }
        let r = tree_within_radius(&self.tree, &query, capped);
        proof {
            broadcast use group_to_multiset_ensures;

            let pts = self@;
            let r2 = radius as int * radius as int;
            assert forall|j: usize| #[trigger] r@.contains(j) <==> (j < pts.len() && dist2(
                pts[j as int],
                pts[center as int],
            ) < r2) by {
                if j < pts.len() {
                    lemma_capped_ball(pts[j as int], p, radius as int, capped as int);
                    let e = self.entries@[j as int];
                    assert(self.entries@.contains(e));
                    assert(kd_entries(self.tree).contains(e));
                }
            }
        }
        r
    }

    /// The index of a point closest to `query`, or `None` for an empty index.
    pub fn nearest(&self, query: Position) -> (r: Option<usize>)
        requires
            in_bounds(query),
        ensures
            r is None <==> self@.len() == 0,
            r matches Some(j) ==> j < self@.len() && forall|k: int|
                0 <= k < self@.len() ==> dist2(self@[j as int], query) <= dist2(#[trigger] self@[k], query),
    {
        proof {
            use_type_invariant(self);
            self.lemma_entries();
        }
        let q: [i64; 3] = [query.x as i64, query.y as i64, query.z as i64];
        proof {
            assert(query_point(q) == pos(query));
        }
        let r = tree_nearest(&self.tree, &q);
        proof {
            broadcast use group_to_multiset_ensures;

            if let Some(j) = r {
                let e = choose|e: Item|
                    #[trigger] kd_entries(self.tree).contains(e) && e.1 == j && forall|e2: Item|
                        #[trigger] kd_entries(self.tree).contains(e2) ==> norm2(
                            vdiff(entry_point(e), query_point(q)),
                        ) <= norm2(vdiff(entry_point(e2), query_point(q)));
                assert forall|k: int| 0 <= k < self@.len() implies dist2(self@[j as int], query) <= dist2(
                    #[trigger] self@[k],
                    query,
                ) by {
                    let e2 = self.entries@[k];
                    assert(self.entries@.contains(e2));
                    assert(kd_entries(self.tree).contains(e2));
                    lemma_dist2_symmetric(self@[k], query);
                    lemma_dist2_symmetric(self@[j as int], query);
                }
            }
        }
        r
    }
}

/// Capping the radius at `RADIUS_CAP` keeps the ball of a point within
/// bounds unchanged.
proof fn lemma_capped_ball(a: Position, c: Position, radius: int, capped: int)
    requires
        in_bounds(a),
        in_bounds(c),
        radius >= 0,
        capped == if radius > RADIUS_CAP as int { RADIUS_CAP as int } else { radius },
    ensures
        (norm2(vdiff(pos(a), pos(c))) < capped * capped) == (dist2(a, c) < radius * radius),
{
    lemma_diff_bounded(a, c);
    let d = vdiff(pos(a), pos(c));
    lemma_mul_bounded(d.0, d.0, 0x10_0000, 0x10_0000);
    lemma_mul_bounded(d.1, d.1, 0x10_0000, 0x10_0000);
    lemma_mul_bounded(d.2, d.2, 0x10_0000, 0x10_0000);
    if radius > RADIUS_CAP as int {
        assert(radius * radius > RADIUS_CAP as int * RADIUS_CAP as int) by (nonlinear_arith)
            requires
                radius > RADIUS_CAP as int,
                RADIUS_CAP as int > 0,
        ;
    }
}

/// Builds the spatial index of a cloud.
pub fn kdtree_from_buffer(cloud: &PointCloud) -> (r: SpatialIndex)
    ensures
        r@ == cloud@,
        r.wf(),
{
    proof {
        use_type_invariant(cloud);
    }
    let pts = cloud.positions();
    let mut items: Vec<Item> = Vec::new();
    let mut i: usize = 0;
    while i < pts.len()
        invariant
            pts@ == cloud@,
            i <= pts@.len(),
            items@.len() == i,
            forall|k: int|
                0 <= k < i ==> (#[trigger] items@[k]).1 == k && entry_point(items@[k]) == pos(pts@[k]),
        decreases pts@.len() - i,
    {
        let p = pts[i];
        let item: Item = ([p.x as i64, p.y as i64, p.z as i64], i);
        assert(entry_point(item) == pos(p));
        items.push(item);
        i += 1;
    }
    let ghost entries = items@;
    let tree = build_tree(items);
    SpatialIndex { tree, positions: pts.clone(), entries: Ghost(entries) }
}

} // verus!
