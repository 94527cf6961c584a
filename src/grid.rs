use vstd::prelude::*;

use crate::stone::Stone;

verus! {

/// A point of the board as (column, row), zero-indexed from the top-left.
pub type Point = (usize, usize);

/// Where the stone at `p` sits in a grid stored row after row.
pub open spec fn cell_index(width: int, p: Point) -> int {
    p.1 * width + p.0
}

/// The point stored at position `i` of a grid stored row after row.
pub open spec fn point_at(width: int, i: int) -> Point {
    ((i % width) as usize, (i / width) as usize)
}

/// Two points are neighbours when they differ by one step along one axis.
pub open spec fn adjacent(p: Point, q: Point) -> bool {
    ||| p.0 == q.0 && (p.1 + 1 == q.1 || q.1 + 1 == p.1)
    ||| p.1 == q.1 && (p.0 + 1 == q.0 || q.0 + 1 == p.0)
}

/// A numeric code for each kind of point, as hashed into the history.
pub open spec fn stone_code(s: Stone) -> u8 {
    match s {
        Stone::Empty => 0,
        Stone::Black => 1,
        Stone::White => 2,
    }
}

/// The codes of a whole grid, cell after cell.
pub open spec fn stone_codes(cells: Seq<Stone>) -> Seq<u8> {
    cells.map_values(|s: Stone| stone_code(s))
}

/// The mathematical value of a board: its dimensions and its cells, row after row.
pub struct Grid {
    pub width: nat,
    pub height: nat,
    pub cells: Seq<Stone>,
}

impl Grid {
    pub open spec fn wf(self) -> bool {
        self.cells.len() == self.width * self.height
    }

    pub open spec fn in_bounds(self, p: Point) -> bool {
        p.0 < self.width && p.1 < self.height
    }

    pub open spec fn at(self, p: Point) -> Stone {
        self.cells[cell_index(self.width as int, p)]
    }

    /// A grid of the same dimensions holding `cells`.
    pub open spec fn with_cells(self, cells: Seq<Stone>) -> Grid {
        Grid { cells, ..self }
    }

    /// The same grid with `s` at `p`.
    pub open spec fn set(self, p: Point, s: Stone) -> Grid {
        Grid { cells: self.cells.update(cell_index(self.width as int, p), s), ..self }
    }

    /// `b` is joined to `a` by a path of at most `n` steps through points of `a`'s colour.
    pub open spec fn reach(self, a: Point, b: Point, n: nat) -> bool
        decreases n,
    {
        if n == 0 {
            a == b && self.in_bounds(a)
        } else {
            let m = (n - 1) as nat;
            ||| self.reach(a, b, m)
            ||| self.in_bounds(b) && self.at(b) == self.at(a) && {
                ||| b.0 > 0 && self.reach(a, ((b.0 - 1) as usize, b.1), m)
                ||| b.1 > 0 && self.reach(a, (b.0, (b.1 - 1) as usize), m)
                ||| b.0 < usize::MAX && self.reach(a, ((b.0 + 1) as usize, b.1), m)
                ||| b.1 < usize::MAX && self.reach(a, (b.0, (b.1 + 1) as usize), m)
            }
        }
    }

    /// `b` belongs to the group of `a`: the maximal connected region of `a`'s colour.
    pub open spec fn in_group(self, a: Point, b: Point) -> bool {
        exists|n: nat| #[trigger] self.reach(a, b, n)
    }

    /// `p` borders the group of `a`.
    pub open spec fn borders(self, a: Point, p: Point) -> bool {
        self.in_bounds(p) && exists|q: Point| #[trigger] self.in_group(a, q) && adjacent(q, p)
    }

    /// `p` is a liberty of the group of `a`: an empty point bordering it.
    pub open spec fn is_liberty(self, a: Point, p: Point) -> bool {
        self.borders(a, p) && self.at(p) == Stone::Empty && self.at(a) != Stone::Empty
    }

    /// `p` is an enemy neighbour of the group of `a`: a stone of another colour bordering it.
    pub open spec fn is_enemy(self, a: Point, p: Point) -> bool {
        self.borders(a, p) && self.at(p) != Stone::Empty && self.at(p) != self.at(a)
    }

    pub open spec fn has_liberty(self, a: Point) -> bool {
        exists|p: Point| #[trigger] self.is_liberty(a, p)
    }

    /// `p` lies in a group without liberties that borders the group of `mover`.
    pub open spec fn captured(self, mover: Point, p: Point) -> bool {
        exists|q: Point|
            #[trigger] self.is_enemy(mover, q) && self.in_group(q, p) && !self.has_liberty(q)
    }

    /// The grid once every group captured by the stone at `mover` is taken off.
    pub open spec fn without_captures(self, mover: Point) -> Grid {
        Grid {
            cells: Seq::new(
                self.cells.len(),
                |i: int|
                    if self.captured(mover, point_at(self.width as int, i)) {
                        Stone::Empty
                    } else {
                        self.cells[i]
                    },
            ),
            ..self
        }
    }
}

/// A point reachable from `a` lies on the board and has `a`'s colour.
pub proof fn lemma_reach_same_color(g: Grid, a: Point, b: Point, n: nat)
    requires
        g.reach(a, b, n),
    ensures
        g.in_bounds(a),
        g.in_bounds(b),
        g.at(b) == g.at(a),
    decreases n,
{
    if n > 0 {
        let m = (n - 1) as nat;
        if g.reach(a, b, m) {
            lemma_reach_same_color(g, a, b, m);
        } else if b.0 > 0 && g.reach(a, ((b.0 - 1) as usize, b.1), m) {
            lemma_reach_same_color(g, a, ((b.0 - 1) as usize, b.1), m);
        } else if b.1 > 0 && g.reach(a, (b.0, (b.1 - 1) as usize), m) {
            lemma_reach_same_color(g, a, (b.0, (b.1 - 1) as usize), m);
        } else if b.0 < usize::MAX && g.reach(a, ((b.0 + 1) as usize, b.1), m) {
            lemma_reach_same_color(g, a, ((b.0 + 1) as usize, b.1), m);
        } else {
            lemma_reach_same_color(g, a, (b.0, (b.1 + 1) as usize), m);
        }
    }
}

/// Every member of a group lies on the board and has the colour of the group.
pub proof fn lemma_group_same_color(g: Grid, a: Point, b: Point)
    requires
        g.in_group(a, b),
    ensures
        g.in_bounds(a),
        g.in_bounds(b),
        g.at(b) == g.at(a),
{
    let n = choose|n: nat| #[trigger] g.reach(a, b, n);
    lemma_reach_same_color(g, a, b, n);
}

/// A path from `a` to `b` followed by a path from `b` to `c` is a path from `a` to `c`.
pub proof fn lemma_reach_trans(g: Grid, a: Point, b: Point, c: Point, n: nat, m: nat)
    requires
        g.reach(a, b, n),
        g.reach(b, c, m),
    ensures
        g.reach(a, c, n + m),
    decreases m,
{
    lemma_reach_same_color(g, a, b, n);
    if m > 0 {
        let k = (m - 1) as nat;
        if g.reach(b, c, k) {
            lemma_reach_trans(g, a, b, c, n, k);
        } else if c.0 > 0 && g.reach(b, ((c.0 - 1) as usize, c.1), k) {
            lemma_reach_trans(g, a, b, ((c.0 - 1) as usize, c.1), n, k);
        } else if c.1 > 0 && g.reach(b, (c.0, (c.1 - 1) as usize), k) {
            lemma_reach_trans(g, a, b, (c.0, (c.1 - 1) as usize), n, k);
        } else if c.0 < usize::MAX && g.reach(b, ((c.0 + 1) as usize, c.1), k) {
            lemma_reach_trans(g, a, b, ((c.0 + 1) as usize, c.1), n, k);
        } else {
            lemma_reach_trans(g, a, b, (c.0, (c.1 + 1) as usize), n, k);
        }
    }
}

/// A neighbour of `b` on the board with `b`'s colour is one step from `b`.
pub proof fn lemma_reach_step(g: Grid, b: Point, q: Point)
    requires
        g.in_bounds(b),
        g.in_bounds(q),
        g.at(q) == g.at(b),
        adjacent(b, q),
    ensures
        g.reach(b, q, 1),
{
    assert(g.reach(b, b, 0));
    if q.0 + 1 == b.0 {
        assert(((q.0 + 1) as usize, q.1) == b);
    } else if b.0 + 1 == q.0 {
        assert(((q.0 - 1) as usize, q.1) == b);
    } else if q.1 + 1 == b.1 {
        assert((q.0, (q.1 + 1) as usize) == b);
    } else {
        assert((q.0, (q.1 - 1) as usize) == b);
    }
}

/// Paths can be walked back.
pub proof fn lemma_reach_symm(g: Grid, a: Point, b: Point, n: nat)
    requires
        g.reach(a, b, n),
    ensures
        g.reach(b, a, n),
    decreases n,
{
    if n > 0 {
        let k = (n - 1) as nat;
        if g.reach(a, b, k) {
            lemma_reach_symm(g, a, b, k);
        } else {
            let q = if b.0 > 0 && g.reach(a, ((b.0 - 1) as usize, b.1), k) {
                ((b.0 - 1) as usize, b.1)
            } else if b.1 > 0 && g.reach(a, (b.0, (b.1 - 1) as usize), k) {
                (b.0, (b.1 - 1) as usize)
            } else if b.0 < usize::MAX && g.reach(a, ((b.0 + 1) as usize, b.1), k) {
                ((b.0 + 1) as usize, b.1)
            } else {
                (b.0, (b.1 + 1) as usize)
            };
            lemma_reach_symm(g, a, q, k);
            lemma_reach_same_color(g, a, q, k);
            lemma_reach_step(g, b, q);
            lemma_reach_trans(g, b, q, a, 1, k);
        }
    }
}

/// Membership of a group is shared by all its points: the group, its liberties and its enemy
/// neighbours are the same whichever of its points they are asked of.
pub proof fn lemma_group_of_member(g: Grid, a: Point, b: Point)
    requires
        g.in_group(a, b),
    ensures
        g.at(b) == g.at(a),
        forall|c: Point| #[trigger] g.in_group(b, c) == g.in_group(a, c),
        forall|p: Point| #[trigger] g.is_liberty(b, p) == g.is_liberty(a, p),
        forall|p: Point| #[trigger] g.is_enemy(b, p) == g.is_enemy(a, p),
{
    let n = choose|n: nat| #[trigger] g.reach(a, b, n);
    lemma_reach_same_color(g, a, b, n);
    lemma_reach_symm(g, a, b, n);
    assert forall|c: Point| #[trigger] g.in_group(b, c) == g.in_group(a, c) by {
        if g.in_group(b, c) {
            let m = choose|m: nat| #[trigger] g.reach(b, c, m);
            lemma_reach_trans(g, a, b, c, n, m);
        }
        if g.in_group(a, c) {
            let m = choose|m: nat| #[trigger] g.reach(a, c, m);
            lemma_reach_trans(g, b, a, c, n, m);
        }
    }
    assert forall|p: Point| #[trigger] g.borders(b, p) == g.borders(a, p) by {
        if g.borders(b, p) {
            let q = choose|q: Point| #[trigger] g.in_group(b, q) && adjacent(q, p);
            assert(g.in_group(a, q));
        }
        if g.borders(a, p) {
            let q = choose|q: Point| #[trigger] g.in_group(a, q) && adjacent(q, p);
            assert(g.in_group(b, q));
        }
    }
    assert forall|p: Point| #[trigger] g.is_liberty(b, p) == g.is_liberty(a, p) by {
        assert(g.borders(b, p) == g.borders(a, p));
    }
    assert forall|p: Point| #[trigger] g.is_enemy(b, p) == g.is_enemy(a, p) by {
        assert(g.borders(b, p) == g.borders(a, p));
    }
}

/// A point inside the grid has a cell inside the grid.
pub proof fn lemma_index_in_range(width: nat, height: nat, p: Point)
    requires
        p.0 < width,
        p.1 < height,
    ensures
        0 <= cell_index(width as int, p) < width * height,
{
    let x = p.0 as int;
    let y = p.1 as int;
    let w = width as int;
    let h = height as int;
    assert(y * w + x < w * h) by (nonlinear_arith)
        requires
            0 <= x < w,
            0 <= y < h,
    ;
    assert(0 <= y * w) by (nonlinear_arith)
        requires
            0 <= y,
            0 <= w,
    ;
}

/// Distinct points inside the grid have distinct cells.
pub proof fn lemma_index_injective(width: nat, p: Point, q: Point)
    requires
        p.0 < width,
        q.0 < width,
        cell_index(width as int, p) == cell_index(width as int, q),
    ensures
        p == q,
{
    let w = width as int;
    vstd::arithmetic::div_mod::lemma_fundamental_div_mod_converse(
        cell_index(w, p),
        w,
        p.1 as int,
        p.0 as int,
    );
    vstd::arithmetic::div_mod::lemma_fundamental_div_mod_converse(
        cell_index(w, q),
        w,
        q.1 as int,
        q.0 as int,
    );
}

/// Each cell of the grid holds exactly the point `point_at` names.
pub proof fn lemma_point_at(width: nat, height: nat, i: int)
    requires
        0 <= i < width * height,
        width * height <= usize::MAX,
    ensures
        point_at(width as int, i).0 < width,
        point_at(width as int, i).1 < height,
        cell_index(width as int, point_at(width as int, i)) == i,
{
    let w = width as int;
    let h = height as int;
    assert(w > 0) by (nonlinear_arith)
        requires
            0 <= i < w * h,
            h >= 0,
            w >= 0,
    ;
    vstd::arithmetic::div_mod::lemma_fundamental_div_mod(i, w);
    vstd::arithmetic::div_mod::lemma_div_pos_is_pos(i, w);
    vstd::arithmetic::div_mod::lemma_mod_pos_bound(i, w);
    assert(i / w < h) by (nonlinear_arith)
        requires
            0 <= i < w * h,
            w > 0,
            i == w * (i / w) + i % w,
            0 <= i % w,
    ;
    assert(i / w <= i) by (nonlinear_arith)
        requires
            0 <= i,
            w > 0,
            i == w * (i / w) + i % w,
            0 <= i % w,
            0 <= i / w,
    ;
    assert((i % w) as usize == i % w);
    assert((i / w) as usize == i / w);
    assert((i / w) * w == w * (i / w)) by (nonlinear_arith);
}

} // verus!
