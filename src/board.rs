use vstd::prelude::*;

use crate::grid::{
    adjacent, cell_index, lemma_group_same_color, lemma_index_in_range, lemma_index_injective,
    lemma_point_at, point_at, stone_code, stone_codes, Grid, Point,
};
use crate::group::{
    fill_inv, grows, lemma_distinct_points_bound, lemma_fill_complete, lemma_push_keeps, Group,
};
use crate::result::{Error, Result};
use crate::rule::{IllegalMove, Rules};
use crate::stone::Stone;

verus! {

/// The state of a game: the stones on the board and the hashes of the positions played so far.
pub struct Board {
    stones: Vec<Stone>,
    size: (usize, usize),
    hashes: Vec<u64>,
    positions: Ghost<Seq<Seq<Stone>>>,
}

impl Board {
    /// The board's dimensions and stones.
    pub closed spec fn grid(self) -> Grid {
        Grid { width: self.size.0 as nat, height: self.size.1 as nat, cells: self.stones@ }
    }

    /// The hash of the position after each move played, oldest first.
    pub closed spec fn history(self) -> Seq<u64> {
        self.hashes@
    }

    /// The position after each move played, oldest first.
    pub closed spec fn positions(self) -> Seq<Seq<Stone>> {
        self.positions@
    }

    /// The stones fill the grid, and each recorded hash is the hash of its position.
    pub open spec fn wf(self) -> bool {
        &&& self.grid().wf()
        &&& self.grid().cells.len() <= usize::MAX
        &&& self.positions().len() == self.history().len()
        &&& forall|i: int|
            0 <= i < self.history().len() ==> self.history()[i] == fx_hash64(
                stone_codes(#[trigger] self.positions()[i]),
            )
    }

    /// Return a board of the given dimensions with every point empty and no history.
    /// Zero dimensions are accepted and give a board without points.
    pub fn empty(width: usize, height: usize) -> (r: Board)
        requires
            width * height <= usize::MAX,
        ensures
            r.wf(),
            r.grid().width == width,
            r.grid().height == height,
            forall|p: (usize, usize)| r.grid().in_bounds(p) ==> #[trigger] r.grid().at(p) == Stone::Empty,
            r.history() == Seq::<u64>::empty(),
            r.positions() == Seq::<Seq<Stone>>::empty(),
    {
        let n = width * height;
        let mut stones: Vec<Stone> = Vec::new();
        let mut i: usize = 0;
        while i < n
            invariant
                0 <= i <= n,
                stones@.len() == i,
                forall|j: int| 0 <= j < i ==> stones@[j] == Stone::Empty,
            decreases n - i,
        {
            stones.push(Stone::Empty);
            i = i + 1;
        }
        let r = Board {
            stones,
            size: (width, height),
            hashes: Vec::new(),
            positions: Ghost(Seq::empty()),
        };
        assert forall|p: (usize, usize)| r.grid().in_bounds(p) implies #[trigger] r.grid().at(p)
            == Stone::Empty by {
            lemma_index_in_range(width as nat, height as nat, p);
        }
        r
    }

    /// The position of the point (`x`, `y`) in the board's storage, row after row.
    pub fn index(&self, x: usize, y: usize) -> (r: Result<usize>)
        requires
            self.wf(),
        ensures
            r == (if self.grid().in_bounds((x, y)) {
                Ok(cell_index(self.grid().width as int, (x, y)) as usize)
            } else {
                Err(Error::CoordinatesOutOfBounds)
            }),
    {
        if x >= self.size.0 {
            return Err(Error::CoordinatesOutOfBounds);
        }
        if y >= self.size.1 {
            return Err(Error::CoordinatesOutOfBounds);
        }
        let n = self.stones.len();
        proof {
            lemma_index_in_range(self.size.0 as nat, self.size.1 as nat, (x, y));
            assert(cell_index(self.size.0 as int, (x, y)) < n);
        }
        Ok(y * self.size.0 + x)
    }

    /// The stone at (`x`, `y`).
    pub fn get(&self, x: usize, y: usize) -> (r: Result<Stone>)
        requires
            self.wf(),
        ensures
            r == (if self.grid().in_bounds((x, y)) {
                Ok(self.grid().at((x, y)))
            } else {
                Err(Error::CoordinatesOutOfBounds)
            }),
    {
        let i = match self.index(x, y) {
            Ok(i) => i,
            Err(e) => return Err(e),
        };
        proof {
            lemma_index_in_range(self.size.0 as nat, self.size.1 as nat, (x, y));
            assert(cell_index(self.size.0 as int, (x, y)) < self.stones.len());
        }
        Ok(self.stones[i])
    }

    /// Put `s` at (`x`, `y`), leaving the history as it is.
    fn set(&mut self, x: usize, y: usize, s: Stone) -> (r: Result<()>)
        requires
            old(self).wf(),
        ensures
            final(self).wf(),
            final(self).history() == old(self).history(),
            final(self).positions() == old(self).positions(),
            r == (if old(self).grid().in_bounds((x, y)) {
                Ok(())
            } else {
                Err(Error::CoordinatesOutOfBounds)
            }),
            final(self).grid() == (if old(self).grid().in_bounds((x, y)) {
                old(self).grid().set((x, y), s)
            } else {
                old(self).grid()
            }),
    {
        let i = match self.index(x, y) {
            Ok(i) => i,
            Err(e) => return Err(e),
        };
        proof {
            lemma_index_in_range(self.size.0 as nat, self.size.1 as nat, (x, y));
            assert(cell_index(self.size.0 as int, (x, y)) < self.stones.len());
        }
        self.stones.set(i, s);
        Ok(())
    }

    /// Place (`x`, `y`) in one of the group's lists: with the group's points when it has the
    /// group's colour, with its liberties when it is empty, with its enemy neighbours otherwise.
    /// A point off the board, or already placed, leaves the group as it is. When (`x`, `y`)
    /// neighbours the point `p` of a flood fill from `a`, the fill stays consistent.
    fn try_group_point(
        &self,
        x: usize,
        y: usize,
        group: &mut Group,
        Ghost(a): Ghost<Point>,
        Ghost(k): Ghost<int>,
        Ghost(p): Ghost<Point>,
    )
        requires
            self.wf(),
        ensures
            old(group).spec_categorized((x, y)) || !self.grid().in_bounds((x, y)) ==> *final(group)
                == *old(group),
            !old(group).spec_categorized((x, y)) && self.grid().in_bounds((x, y)) ==> {
                let s = self.grid().at((x, y));
                &&& final(group).color == old(group).color
                &&& final(group).points@ == (if s == old(group).color {
                    old(group).points@.push((x, y))
                } else {
                    old(group).points@
                })
                &&& final(group).liberties@ == (if s != old(group).color && s == Stone::Empty {
                    old(group).liberties@.push((x, y))
                } else {
                    old(group).liberties@
                })
                &&& final(group).enemy_neighbors@ == (if s != old(group).color && s
                    != Stone::Empty {
                    old(group).enemy_neighbors@.push((x, y))
                } else {
                    old(group).enemy_neighbors@
                })
            },
            grows(*old(group), *final(group)),
            self.grid().in_bounds((x, y)) ==> final(group).spec_categorized((x, y)),
            old(group).lists_disjoint() ==> final(group).lists_disjoint(),
            fill_inv(self.grid(), a, *old(group), k) && old(group).points@.contains(p) && adjacent(
                p,
                (x, y),
            ) ==> fill_inv(self.grid(), a, *final(group), k),
    {
        let ghost g = self.grid();
        if group.categorized((x, y)) {
            return;
        }
        let stone = match self.get(x, y) {
            Ok(s) => s,
            Err(_) => return,
        };
        if stone == group.color {
            proof {
                if fill_inv(g, a, *group, k) && group.points@.contains(p) && adjacent(p, (x, y)) {
                    let n = choose|n: nat| #[trigger] g.reach(a, p, n);
                    assert(g.reach(a, (x, y), n + 1));
                }
                lemma_push_keeps(group.points@, (x, y));
            }
            group.points.push((x, y));
        } else if stone == Stone::Empty {
            proof {
                lemma_push_keeps(group.liberties@, (x, y));
            }
            group.liberties.push((x, y));
        } else {
            proof {
                lemma_push_keeps(group.enemy_neighbors@, (x, y));
            }
            group.enemy_neighbors.push((x, y));
        }
    }

    /// Place every neighbour on the board of the `k`-th point of the group. The lists only
    /// grow and stay disjoint; within a flood fill from `a`, the `k`-th point is then expanded.
    fn build_group(&self, group: &mut Group, k: usize, Ghost(a): Ghost<Point>)
        requires
            self.wf(),
            k < old(group).points@.len(),
            self.grid().in_bounds(old(group).points@[k as int]),
            old(group).lists_disjoint(),
        ensures
            grows(*old(group), *final(group)),
            final(group).lists_disjoint(),
            forall|q: Point|
                self.grid().in_bounds(q) && #[trigger] adjacent(old(group).points@[k as int], q)
                    ==> final(group).spec_categorized(q),
            fill_inv(self.grid(), a, *old(group), k as int) ==> fill_inv(
                self.grid(),
                a,
                *final(group),
                k + 1,
            ),
    {
        let ghost g = self.grid();
        let ghost g0 = *group;
        let p = group.points[k];
        assert(group.points@.contains(p));
        if p.0 > 0 {
            self.try_group_point(p.0 - 1, p.1, group, Ghost(a), Ghost(k as int), Ghost(p));
        }
        let ghost g1 = *group;
        if p.1 > 0 {
            self.try_group_point(p.0, p.1 - 1, group, Ghost(a), Ghost(k as int), Ghost(p));
        }
        let ghost g2 = *group;
        self.try_group_point(p.0 + 1, p.1, group, Ghost(a), Ghost(k as int), Ghost(p));
        let ghost g3 = *group;
        self.try_group_point(p.0, p.1 + 1, group, Ghost(a), Ghost(k as int), Ghost(p));
        proof {
            assert(grows(g0, *group));
            assert(g1.points@.contains(p));
            assert(g2.points@.contains(p));
            assert(g3.points@.contains(p));
            if fill_inv(g, a, g0, k as int) {
                assert forall|i: int, q: Point|
                    0 <= i < k + 1 && g.in_bounds(q) && #[trigger] adjacent(group.points@[i], q)
                        implies group.spec_categorized(q) by {
                    if i < k {
                        assert(adjacent(g0.points@[i], q));
                    } else {
                        assert(group.points@[i] == p);
                    }
                }
            }
        }
    }

    /// The group that holds (`x`, `y`), with its liberties and enemy neighbours.
    pub fn get_group(&self, x: usize, y: usize) -> (r: Result<Group>)
        requires
            self.wf(),
        ensures
            match r {
                Ok(grp) => self.grid().in_bounds((x, y)) && grp.describes(self.grid(), (x, y)),
                Err(e) => !self.grid().in_bounds((x, y)) && e == Error::CoordinatesOutOfBounds,
            },
    {
        let ghost g = self.grid();
        let color = match self.get(x, y) {
            Ok(s) => s,
            Err(e) => return Err(e),
        };
        let mut group = Group {
            color,
            points: Vec::new(),
            liberties: Vec::new(),
            enemy_neighbors: Vec::new(),
        };
        group.points.push((x, y));
        proof {
            assert(g.reach((x, y), (x, y), 0));
            assert(group.points@[0] == (x, y));
            assert(group.liberties@ == Seq::<Point>::empty());
            assert(group.enemy_neighbors@ == Seq::<Point>::empty());
        }
        let mut k: usize = 0;
        while k < group.points.len()
            invariant
                self.wf(),
                g == self.grid(),
                fill_inv(g, (x, y), group, k as int),
                group.lists_disjoint(),
                k <= self.stones@.len(),
            decreases self.stones@.len() - k,
        {
            assert(group.points@.contains(group.points@[k as int]));
            self.build_group(&mut group, k, Ghost((x, y)));
            k = k + 1;
            proof {
                assert forall|i: int| 0 <= i < group.points@.len() implies g.in_bounds(
                    #[trigger] group.points@[i],
                ) by {
                    assert(group.points@.contains(group.points@[i]));
                }
                lemma_distinct_points_bound(g, group.points@);
            }
        }
        proof {
            lemma_fill_complete(g, (x, y), group);
        }
        Ok(group)
    }

    /// What playing `s` at (`x`, `y`) under `rules` gives: the cells of the new position, or
    /// the reason the move is refused.
    pub open spec fn move_result(self, x: usize, y: usize, s: Stone, rules: Rules) -> Result<
        Seq<Stone>,
    > {
        let g = self.grid();
        let p = (x, y);
        if !g.in_bounds(p) {
            Err(Error::CoordinatesOutOfBounds)
        } else if g.at(p) != Stone::Empty {
            Err(Error::IllegalMove(IllegalMove::NonEmptySpace))
        } else {
            let after = g.set(p, s).without_captures(p);
            let h = fx_hash64(stone_codes(after.cells));
            let past = self.history();
            if !rules.suicide_allowed && !after.has_liberty(p) {
                Err(Error::IllegalMove(IllegalMove::SuicidalMove))
            } else if past.len() >= 2 && past[past.len() - 2] == h {
                Err(Error::IllegalMove(IllegalMove::Ko))
            } else if rules.superko && past.contains(h) {
                Err(Error::IllegalMove(IllegalMove::SuperKo))
            } else {
                Ok(after.cells)
            }
        }
    }

    /// Play `s` at (`x`, `y`) under `rules`: place the stone, take off every enemy group left
    /// without liberties, then refuse the move if it is suicide, ko or superko. A refused move
    /// leaves the board as it was.
    pub fn play(&mut self, x: usize, y: usize, s: Stone, rules: &Rules) -> (r: Result<()>)
        requires
            old(self).wf(),
        ensures
            final(self).wf(),
            match old(self).move_result(x, y, s, *rules) {
                Ok(cells) => {
                    &&& r == Ok::<(), Error>(())
                    &&& final(self).grid() == (Grid { cells, ..old(self).grid() })
                    &&& final(self).history() == old(self).history().push(
                        fx_hash64(stone_codes(cells)),
                    )
                    &&& final(self).positions() == old(self).positions().push(cells)
                },
                Err(e) => r == Err::<(), Error>(e) && *final(self) == *old(self),
            },
    {
        let ghost g = self.grid();
        let ghost p = (x, y);
        let i = match self.index(x, y) {
            Ok(i) => i,
            Err(e) => return Err(e),
        };
        proof {
            lemma_index_in_range(g.width, g.height, p);
            assert(cell_index(g.width as int, p) < self.stones.len());
        }
        if self.stones[i] != Stone::Empty {
            return Err(Error::IllegalMove(IllegalMove::NonEmptySpace));
        }
        let mut placed = self.clone();
        let _ = placed.set(x, y, s);
        let ghost gp = placed.grid();
        assert(gp == g.set(p, s));
        let group = match placed.get_group(x, y) {
            Ok(grp) => grp,
            Err(e) => return Err(e),
        };
        let mut cleared = placed.clone();
        let mut j: usize = 0;
        while j < group.enemy_neighbors.len()
            invariant
                0 <= j <= group.enemy_neighbors@.len(),
                placed.wf(),
                placed.grid() == gp,
                group.describes(gp, p),
                cleared.wf(),
                cleared.history() == self.history(),
                cleared.positions() == self.positions(),
                cleared.grid().width == gp.width,
                cleared.grid().height == gp.height,
                forall|q: Point|
                    gp.in_bounds(q) ==> #[trigger] cleared.grid().at(q) == (if exists|t: int|
                        0 <= t < j && gp.in_group(group.enemy_neighbors@[t], q) && !gp.has_liberty(
                            group.enemy_neighbors@[t],
                        ) {
                        Stone::Empty
                    } else {
                        gp.at(q)
                    }),
            decreases group.enemy_neighbors@.len() - j,
        {
            let e = group.enemy_neighbors[j];
            assert(group.enemy_neighbors@.contains(e));
            let eg = match placed.get_group(e.0, e.1) {
                Ok(grp) => grp,
                Err(er) => return Err(er),
            };
            let ghost before = cleared.grid();
            if eg.liberties.len() == 0 {
                proof {
                    assert forall|q: Point| #[trigger] eg.points@.contains(q) implies gp.in_bounds(
                        q,
                    ) by {
                        lemma_group_same_color(gp, e, q);
                    }
                    if gp.has_liberty(e) {
                        let l = choose|l: Point| #[trigger] gp.is_liberty(e, l);
                        assert(eg.liberties@.contains(l));
                    }
                }
                cleared.kill_group(&eg);
            } else {
                proof {
                    assert(eg.liberties@.contains(eg.liberties@[0]));
                }
            }
            proof {
                assert forall|q: Point| gp.in_bounds(q) implies #[trigger] cleared.grid().at(q) == (if exists|t: int|
                    0 <= t < j + 1 && gp.in_group(group.enemy_neighbors@[t], q)
                        && !gp.has_liberty(group.enemy_neighbors@[t]) {
                    Stone::Empty
                } else {
                    gp.at(q)
                }) by {
                    if exists|t: int|
                        0 <= t < j + 1 && gp.in_group(group.enemy_neighbors@[t], q)
                            && !gp.has_liberty(group.enemy_neighbors@[t]) {
                        let t = choose|t: int|
                            0 <= t < j + 1 && gp.in_group(group.enemy_neighbors@[t], q)
                                && !gp.has_liberty(group.enemy_neighbors@[t]);
                        if t == j {
                            assert(eg.points@.contains(q));
                        }
                    }
                }
            }
            j = j + 1;
        }
        let ghost after = gp.without_captures(p);
        proof {
            assert(cleared.grid().cells.len() == after.cells.len());
            assert forall|k: int| 0 <= k < after.cells.len() implies cleared.grid().cells[k]
                == after.cells[k] by {
                lemma_point_at(gp.width, gp.height, k);
                let q = point_at(gp.width as int, k);
                assert(cleared.grid().at(q) == cleared.grid().cells[k]);
                if gp.captured(p, q) {
                    let e = choose|e: Point| #[trigger]
                        gp.is_enemy(p, e) && gp.in_group(e, q) && !gp.has_liberty(e);
                    assert(group.enemy_neighbors@.contains(e));
                    let t = choose|t: int|
                        0 <= t < group.enemy_neighbors@.len() && group.enemy_neighbors@[t] == e;
                    assert(gp.in_group(group.enemy_neighbors@[t], q));
                } else if exists|t: int|
                    0 <= t < group.enemy_neighbors@.len() && gp.in_group(
                        group.enemy_neighbors@[t],
                        q,
                    ) && !gp.has_liberty(group.enemy_neighbors@[t]) {
                    let t = choose|t: int|
                        0 <= t < group.enemy_neighbors@.len() && gp.in_group(
                            group.enemy_neighbors@[t],
                            q,
                        ) && !gp.has_liberty(group.enemy_neighbors@[t]);
                    let e = group.enemy_neighbors@[t];
                    assert(group.enemy_neighbors@.contains(e));
                    assert(gp.is_enemy(p, e));
                }
            }
            assert(cleared.grid().cells =~= after.cells);
            assert(cleared.grid() == after);
        }
        let own = match cleared.get_group(x, y) {
            Ok(grp) => grp,
            Err(e) => return Err(e),
        };
        proof {
            if after.has_liberty(p) {
                let l = choose|l: Point| #[trigger] after.is_liberty(p, l);
                assert(own.liberties@.contains(l));
            }
            if own.liberties@.len() > 0 {
                assert(own.liberties@.contains(own.liberties@[0]));
            }
        }
        if !rules.suicide_allowed && own.liberties.len() == 0 {
            assert(!after.has_liberty(p));
            assert(old(self).move_result(x, y, s, *rules) == Err::<Seq<Stone>, Error>(
                Error::IllegalMove(IllegalMove::SuicidalMove),
            ));
            return Err(Error::IllegalMove(IllegalMove::SuicidalMove));
        }
        let codes = cleared.stone_codes();
        let hash = hash_codes(&codes);
        let n = cleared.hashes.len();
        if n >= 2 && cleared.hashes[n - 2] == hash {
            return Err(Error::IllegalMove(IllegalMove::Ko));
        }
        if hashes_contain(&cleared.hashes, hash) && rules.superko {
            return Err(Error::IllegalMove(IllegalMove::SuperKo));
        }
        cleared.hashes.push(hash);
        cleared.positions = Ghost(cleared.positions@.push(cleared.stones@));
        *self = cleared;
        Ok(())
    }

    /// Empty every point of `g`.
    fn kill_group(&mut self, g: &Group)
        requires
            old(self).wf(),
            forall|p: Point| #[trigger] g.points@.contains(p) ==> old(self).grid().in_bounds(p),
        ensures
            final(self).wf(),
            final(self).history() == old(self).history(),
            final(self).positions() == old(self).positions(),
            final(self).grid().width == old(self).grid().width,
            final(self).grid().height == old(self).grid().height,
            forall|p: Point|
                old(self).grid().in_bounds(p) ==> #[trigger] final(self).grid().at(p) == (if g.points@.contains(p) {
                    Stone::Empty
                } else {
                    old(self).grid().at(p)
                }),
    {
        let ghost g0 = self.grid();
        let mut i: usize = 0;
        while i < g.points.len()
            invariant
                0 <= i <= g.points@.len(),
                self.wf(),
                self.history() == old(self).history(),
                self.positions() == old(self).positions(),
                self.grid().width == g0.width,
                self.grid().height == g0.height,
                forall|p: Point| #[trigger] g.points@.contains(p) ==> g0.in_bounds(p),
                forall|p: Point|
                    g0.in_bounds(p) ==> #[trigger] self.grid().at(p) == (if exists|j: int|
                        0 <= j < i && g.points@[j] == p {
                        Stone::Empty
                    } else {
                        g0.at(p)
                    }),
            decreases g.points@.len() - i,
        {
            let q = g.points[i];
            assert(g.points@.contains(q));
            let ghost before = self.grid();
            let _ = self.set(q.0, q.1, Stone::Empty);
            proof {
                assert forall|p: Point| g0.in_bounds(p) implies #[trigger] self.grid().at(p) == (if exists|j: int|
                    0 <= j < i + 1 && g.points@[j] == p {
                    Stone::Empty
                } else {
                    g0.at(p)
                }) by {
                    lemma_index_in_range(g0.width, g0.height, p);
                    lemma_index_in_range(g0.width, g0.height, q);
                    if p == q {
                        assert(g.points@[i as int] == p);
                    } else {
                        if cell_index(g0.width as int, p) == cell_index(g0.width as int, q) {
                            lemma_index_injective(g0.width, p, q);
                        }
                        assert(self.grid().at(p) == before.at(p));
                        if exists|j: int| 0 <= j < i + 1 && g.points@[j] == p {
                            let j = choose|j: int| 0 <= j < i + 1 && g.points@[j] == p;
                            assert(j < i);
                        }
                    }
                }
            }
            i = i + 1;
        }
        proof {
            assert forall|p: Point|
                g0.in_bounds(p) implies #[trigger] self.grid().at(p) == (if g.points@.contains(p) {
                Stone::Empty
            } else {
                g0.at(p)
            }) by {
                if g.points@.contains(p) {
                    let j = choose|j: int| 0 <= j < g.points@.len() && g.points@[j] == p;
                    assert(exists|j: int| 0 <= j < i && g.points@[j] == p);
                }
            }
        }
    }

    /// The codes of the board's stones, cell after cell.
    fn stone_codes(&self) -> (r: Vec<u8>)
        ensures
            r@ == stone_codes(self.stones@),
    {
        let mut r: Vec<u8> = Vec::new();
        let mut i: usize = 0;
        while i < self.stones.len()
            invariant
                0 <= i <= self.stones@.len(),
                r@.len() == i,
                forall|j: int| 0 <= j < i ==> r@[j] == stone_code(#[trigger] self.stones@[j]),
            decreases self.stones@.len() - i,
        {
            let code: u8 = match self.stones[i] {
                Stone::Empty => 0,
                Stone::Black => 1,
                Stone::White => 2,
            };
            r.push(code);
            i = i + 1;
        }
        assert(r@ =~= stone_codes(self.stones@));
        r
    }

    /// The star points of the board, as a board of its size is usually marked.
    pub fn star_points(&self) -> (r: Vec<(usize, usize)>)
        ensures
            r@ == star_points_of(self.grid().width as usize, self.grid().height as usize),
    {
        let mut points: Vec<(usize, usize)> = Vec::new();
        let (w, h) = self.size;
        if w % 2 == 1 && h % 2 == 1 {
            points.push((w / 2, h / 2));
        }
        let ghost center = points@;
        if w < 9 || h < 9 {
            return points;
        }
        if w < 13 || h < 13 {
            points.push((2, 2));
            points.push((2, h - 3));
            points.push((w - 3, 2));
            points.push((w - 3, h - 3));
            assert(points@ =~= center + seq![
                (2usize, 2usize),
                (2usize, (h - 3) as usize),
                ((w - 3) as usize, 2usize),
                ((w - 3) as usize, (h - 3) as usize),
            ]);
            return points;
        }
        if w > 13 {
            if h % 2 == 1 {
                points.push((3, h / 2));
                points.push((w - 4, h / 2));
            }
            if w % 2 == 1 {
                points.push((w / 2, 3));
                points.push((w / 2, h - 4));
            }
        }
        points.push((3, 3));
        points.push((3, h - 4));
        points.push((w - 4, 3));
        points.push((w - 4, h - 4));
        assert(points@ =~= star_points_of(w, h));
        points
    }

    /// The board's (width, height).
    pub fn size(&self) -> (r: (usize, usize))
        ensures
            r.0 == self.grid().width,
            r.1 == self.grid().height,
    {
        self.size
    }
}

impl Clone for Board {
    /// An independent copy of the board, on which moves can be tried out.
    fn clone(&self) -> (r: Board)
        ensures
            r.grid() == self.grid(),
            r.history() == self.history(),
            r.positions() == self.positions(),
    {
        let stones = self.stones.clone();
        let hashes = self.hashes.clone();
        assert(stones@ =~= self.stones@);
        assert(hashes@ =~= self.hashes@);
        Board { stones, size: self.size, hashes, positions: Ghost(self.positions@) }
    }
}

impl Default for Board {
    /// An empty board of the standard 19 by 19 size.
    fn default() -> (r: Board)
        ensures
            r.wf(),
            r.grid().width == 19,
            r.grid().height == 19,
            forall|p: (usize, usize)| r.grid().in_bounds(p) ==> #[trigger] r.grid().at(p) == Stone::Empty,
            r.history() == Seq::<u64>::empty(),
            r.positions() == Seq::<Seq<Stone>>::empty(),
    {
        Board::empty(19, 19)
    }
}

/// The value fxhash's 64-bit hash gives for a sequence of bytes.
pub uninterp spec fn fx_hash64(bytes: Seq<u8>) -> u64;

/// Relies on `fxhash::hash64`: an unseeded hash that reads the bytes in the machine's byte
/// order, so on a given machine its result depends on the bytes alone.
#[verifier::external_body]
fn hash_codes(codes: &Vec<u8>) -> (r: u64)
    ensures
        r == fx_hash64(codes@),
{
    fxhash::hash64(codes)
}

/// Whether `v` holds `h`.
fn hashes_contain(v: &Vec<u64>, h: u64) -> (r: bool)
    ensures
        r == v@.contains(h),
{
    let mut i: usize = 0;
    while i < v.len()
        invariant
            0 <= i <= v.len(),
            forall|j: int| 0 <= j < i ==> v@[j] != h,
        decreases v.len() - i,
    {
        if v[i] == h {
            return true;
        }
        i = i + 1;
    }
    false
}

/// The star points of a `w` by `h` board: the centre of a board with a centre point; the 3-3
/// points of a board from 9 up to 13 lines; on larger boards the 4-4 points, after the side
/// points of a board wider than 13 lines.
pub open spec fn star_points_of(w: usize, h: usize) -> Seq<(usize, usize)> {
    let center = if w % 2 == 1 && h % 2 == 1 {
        seq![((w / 2) as usize, (h / 2) as usize)]
    } else {
        Seq::empty()
    };
    if w < 9 || h < 9 {
        center
    } else if w < 13 || h < 13 {
        center + seq![
            (2usize, 2usize),
            (2usize, (h - 3) as usize),
            ((w - 3) as usize, 2usize),
            ((w - 3) as usize, (h - 3) as usize),
        ]
    } else {
        let rows = if w > 13 && h % 2 == 1 {
            seq![(3usize, (h / 2) as usize), ((w - 4) as usize, (h / 2) as usize)]
        } else {
            Seq::empty()
        };
        let columns = if w > 13 && w % 2 == 1 {
            seq![((w / 2) as usize, 3usize), ((w / 2) as usize, (h - 4) as usize)]
        } else {
            Seq::empty()
        };
        center + rows + columns + seq![
            (3usize, 3usize),
            (3usize, (h - 4) as usize),
            ((w - 4) as usize, 3usize),
            ((w - 4) as usize, (h - 4) as usize),
        ]
    }
}

} // verus!
