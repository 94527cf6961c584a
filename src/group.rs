//! Groups of stones, and the invariant of the flood fill that discovers them.
use vstd::prelude::*;

use crate::grid::{
    adjacent, cell_index, lemma_group_of_member, lemma_group_same_color, lemma_index_in_range, lemma_index_injective, Grid,
    Point,
};
use crate::stone::Stone;

verus! {


/// A connected group of same-coloured points, together with what borders it.
pub struct Group {
    pub color: Stone,
    /// Points known to belong to the group.
    pub points: Vec<(usize, usize)>,
    /// Empty points bordering the group.
    pub liberties: Vec<(usize, usize)>,
    /// Points of the other colour bordering the group.
    pub enemy_neighbors: Vec<(usize, usize)>,
}

/// Whether `v` holds `p`.
fn list_contains(v: &Vec<(usize, usize)>, p: (usize, usize)) -> (r: bool)
    ensures
        r == v@.contains(p),
{
    let mut i: usize = 0;
    while i < v.len()
        invariant
            0 <= i <= v.len(),
            forall|j: int| 0 <= j < i ==> v@[j] != p,
        decreases v.len() - i,
    {
        if v[i].0 == p.0 && v[i].1 == p.1 {
            return true;
        }
        i = i + 1;
    }
    false
}

impl Group {
    pub open spec fn spec_categorized(self, p: (usize, usize)) -> bool {
        ||| self.points@.contains(p)
        ||| self.liberties@.contains(p)
        ||| self.enemy_neighbors@.contains(p)
    }

    /// Whether `p` has already been placed in one of the group's three lists.
    pub fn categorized(&self, p: (usize, usize)) -> (r: bool)
        ensures
            r == self.spec_categorized(p),
    {
        list_contains(&self.points, p) || list_contains(&self.liberties, p) || list_contains(
            &self.enemy_neighbors,
            p,
        )
    }

    /// No point stands in two of the group's lists.
    pub open spec fn lists_disjoint(self) -> bool {
        &&& forall|p: (usize, usize)|
            #![trigger self.points@.contains(p), self.liberties@.contains(p)]
            !(self.points@.contains(p) && self.liberties@.contains(p))
        &&& forall|p: (usize, usize)|
            #![trigger self.points@.contains(p), self.enemy_neighbors@.contains(p)]
            !(self.points@.contains(p) && self.enemy_neighbors@.contains(p))
        &&& forall|p: (usize, usize)|
            #![trigger self.liberties@.contains(p), self.enemy_neighbors@.contains(p)]
            !(self.liberties@.contains(p) && self.enemy_neighbors@.contains(p))
    }

    /// The group is exactly the group of `a` in `g`: its colour, its points, its liberties and
    /// its enemy neighbours, each listed once.
    pub open spec fn describes(self, g: Grid, a: (usize, usize)) -> bool {
        &&& self.color == g.at(a)
        &&& self.points@.no_duplicates()
        &&& self.liberties@.no_duplicates()
        &&& self.enemy_neighbors@.no_duplicates()
        &&& forall|p: (usize, usize)| #[trigger] self.points@.contains(p) == g.in_group(a, p)
        &&& forall|p: (usize, usize)| #[trigger] self.liberties@.contains(p) == g.is_liberty(a, p)
        &&& forall|p: (usize, usize)|
            #[trigger] self.enemy_neighbors@.contains(p) == g.is_enemy(a, p)
    }
}

/// The three lists of a group never share a point: a point of the group has the group's
/// colour, a liberty is empty, and an enemy neighbour is a stone of another colour.
pub proof fn lemma_group_lists_disjoint(grp: Group, g: Grid, a: (usize, usize), p: (usize, usize))
    requires
        grp.describes(g, a),
    ensures
        !(grp.points@.contains(p) && grp.liberties@.contains(p)),
        !(grp.points@.contains(p) && grp.enemy_neighbors@.contains(p)),
        !(grp.liberties@.contains(p) && grp.enemy_neighbors@.contains(p)),
{
    if grp.points@.contains(p) {
        lemma_group_same_color(g, a, p);
    }
}

/// The group found from any of its points is the same group: the same colour, points,
/// liberties and enemy neighbours.
pub proof fn lemma_same_group_from_member(
    g: Grid,
    a: (usize, usize),
    b: (usize, usize),
    from_a: Group,
    from_b: Group,
)
    requires
        from_a.describes(g, a),
        from_b.describes(g, b),
        from_a.points@.contains(b),
    ensures
        from_a.color == from_b.color,
        forall|p: (usize, usize)| #[trigger] from_a.points@.contains(p) == from_b.points@.contains(p),
        forall|p: (usize, usize)|
            #[trigger] from_a.liberties@.contains(p) == from_b.liberties@.contains(p),
        forall|p: (usize, usize)|
            #[trigger] from_a.enemy_neighbors@.contains(p) == from_b.enemy_neighbors@.contains(p),
{
    lemma_group_of_member(g, a, b);
}

/// What the flood fill from `a` knows after `k` of its points have been expanded.
pub(crate) open spec fn fill_inv(g: Grid, a: Point, grp: Group, k: int) -> bool {
    &&& grp.color == g.at(a)
    &&& 0 <= k <= grp.points@.len()
    &&& grp.points@.contains(a)
    &&& grp.points@.no_duplicates()
    &&& grp.liberties@.no_duplicates()
    &&& grp.enemy_neighbors@.no_duplicates()
    &&& forall|p: Point| #[trigger]
        grp.points@.contains(p) ==> g.in_bounds(p) && g.at(p) == g.at(a) && g.in_group(a, p)
    &&& forall|p: Point| #[trigger] grp.liberties@.contains(p) ==> g.is_liberty(a, p)
    &&& forall|p: Point| #[trigger] grp.enemy_neighbors@.contains(p) ==> g.is_enemy(a, p)
    &&& forall|i: int, q: Point|
        0 <= i < k && g.in_bounds(q) && #[trigger] adjacent(grp.points@[i], q)
            ==> grp.spec_categorized(q)
}

/// Every list of the group only grows.
pub(crate) open spec fn grows(old_grp: Group, new_grp: Group) -> bool {
    &&& new_grp.color == old_grp.color
    &&& old_grp.points@.len() <= new_grp.points@.len()
    &&& forall|i: int| 0 <= i < old_grp.points@.len() ==> new_grp.points@[i] == old_grp.points@[i]
    &&& forall|p: Point| #[trigger]
        old_grp.spec_categorized(p) ==> new_grp.spec_categorized(p)
}

/// Pushing onto a sequence keeps what it held, and keeps it free of duplicates when the
/// new element is fresh.
pub(crate) proof fn lemma_push_keeps<A>(s: Seq<A>, x: A)
    ensures
        forall|q: A| #[trigger] s.contains(q) ==> s.push(x).contains(q),
        s.push(x).contains(x),
        forall|q: A| #[trigger] s.push(x).contains(q) ==> s.contains(q) || q == x,
        s.no_duplicates() && !s.contains(x) ==> s.push(x).no_duplicates(),
{
    assert forall|q: A| #[trigger] s.contains(q) implies s.push(x).contains(q) by {
        let i = choose|i: int| 0 <= i < s.len() && s[i] == q;
        assert(s.push(x)[i] == q);
    }
    assert(s.push(x)[s.len() as int] == x);
    assert forall|q: A| #[trigger] s.push(x).contains(q) implies s.contains(q) || q == x by {
        let i = choose|i: int| 0 <= i < s.len() + 1 && s.push(x)[i] == q;
        if i < s.len() {
            assert(s[i] == q);
        }
    }
}

/// Each point reachable from `a` is among the points of a finished flood fill.
proof fn lemma_reach_filled(g: Grid, a: Point, grp: Group, b: Point, n: nat)
    requires
        fill_inv(g, a, grp, grp.points@.len() as int),
        g.reach(a, b, n),
    ensures
        grp.points@.contains(b),
    decreases n,
{
    if n == 0 {
    } else if g.reach(a, b, (n - 1) as nat) {
        lemma_reach_filled(g, a, grp, b, (n - 1) as nat);
    } else {
        let m = (n - 1) as nat;
        let q = if b.0 > 0 && g.reach(a, ((b.0 - 1) as usize, b.1), m) {
            ((b.0 - 1) as usize, b.1)
        } else if b.1 > 0 && g.reach(a, (b.0, (b.1 - 1) as usize), m) {
            (b.0, (b.1 - 1) as usize)
        } else if b.0 < usize::MAX && g.reach(a, ((b.0 + 1) as usize, b.1), m) {
            ((b.0 + 1) as usize, b.1)
        } else {
            (b.0, (b.1 + 1) as usize)
        };
        lemma_reach_filled(g, a, grp, q, (n - 1) as nat);
        let i = choose|i: int| 0 <= i < grp.points@.len() && grp.points@[i] == q;
        assert(adjacent(grp.points@[i], b));
        assert(grp.spec_categorized(b));
    }
}

/// A finished flood fill from `a` describes the group of `a`.
pub(crate) proof fn lemma_fill_complete(g: Grid, a: Point, grp: Group)
    requires
        fill_inv(g, a, grp, grp.points@.len() as int),
    ensures
        grp.describes(g, a),
{
    assert forall|p: Point| #[trigger] grp.points@.contains(p) == g.in_group(a, p) by {
        if g.in_group(a, p) {
            let n = choose|n: nat| #[trigger] g.reach(a, p, n);
            lemma_reach_filled(g, a, grp, p, n);
        }
    }
    assert forall|p: Point| #[trigger] grp.liberties@.contains(p) == g.is_liberty(a, p) by {
        if g.is_liberty(a, p) {
            let q = choose|q: Point| #[trigger] g.in_group(a, q) && adjacent(q, p);
            assert(grp.points@.contains(q));
            let i = choose|i: int| 0 <= i < grp.points@.len() && grp.points@[i] == q;
            assert(adjacent(grp.points@[i], p));
        }
    }
    assert forall|p: Point| #[trigger] grp.enemy_neighbors@.contains(p) == g.is_enemy(a, p) by {
        if g.is_enemy(a, p) {
            let q = choose|q: Point| #[trigger] g.in_group(a, q) && adjacent(q, p);
            assert(grp.points@.contains(q));
            let i = choose|i: int| 0 <= i < grp.points@.len() && grp.points@[i] == q;
            assert(adjacent(grp.points@[i], p));
        }
    }
}

/// Distinct points of a grid are no more than its cells.
pub(crate) proof fn lemma_distinct_points_bound(g: Grid, pts: Seq<Point>)
    requires
        g.wf(),
        pts.no_duplicates(),
        forall|i: int| 0 <= i < pts.len() ==> g.in_bounds(#[trigger] pts[i]),
    ensures
        pts.len() <= g.cells.len(),
{
    let w = g.width as int;
    let idxs = pts.map_values(|p: Point| cell_index(w, p));
    assert forall|i: int, j: int| 0 <= i < idxs.len() && 0 <= j < idxs.len() && i != j implies idxs[i]
        != idxs[j] by {
        if idxs[i] == idxs[j] {
            assert(g.in_bounds(pts[i]));
            assert(g.in_bounds(pts[j]));
            lemma_index_injective(g.width, pts[i], pts[j]);
        }
    }
    idxs.unique_seq_to_set();
    let range = vstd::set_lib::set_int_range(0, g.cells.len() as int);
    assert forall|v: int| idxs.to_set().contains(v) implies range.contains(v) by {
        let i = choose|i: int| 0 <= i < idxs.len() && idxs[i] == v;
        assert(g.in_bounds(pts[i]));
        lemma_index_in_range(g.width, g.height, pts[i]);
    }
    vstd::set_lib::lemma_int_range(0, g.cells.len() as int);
    vstd::set_lib::lemma_len_subset(idxs.to_set(), range);
}

} // verus!
