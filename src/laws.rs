//! Properties of the rule engine that relate its operations, proved over their contracts.
use vstd::prelude::*;

use crate::board::{fx_hash64, Board};
use crate::grid::{
    cell_index, lemma_group_same_color, lemma_index_in_range, lemma_index_injective,
    lemma_point_at, point_at, stone_codes, Grid,
};
use crate::result::Error;
use crate::rule::{IllegalMove, Rules};
use crate::stone::Stone;

verus! {

/// The grid after `s` is placed at `(x, y)` and the groups it captures are taken off.
pub open spec fn after_move(b: Board, x: usize, y: usize, s: Stone) -> Grid {
    b.grid().set((x, y), s).without_captures((x, y))
}

/// A move is refused as out of bounds exactly when its point lies off the board.
pub proof fn lemma_bounds(b: Board, x: usize, y: usize, s: Stone, rules: Rules)
    requires
        b.wf(),
    ensures
        (b.move_result(x, y, s, rules) == Err::<Seq<Stone>, Error>(
            Error::CoordinatesOutOfBounds,
        )) == !b.grid().in_bounds((x, y)),
{
}

/// A move on an occupied point is always refused as `NonEmptySpace`.
pub proof fn lemma_occupied_point_refused(b: Board, x: usize, y: usize, s: Stone, rules: Rules)
    requires
        b.wf(),
        b.grid().in_bounds((x, y)),
        b.grid().at((x, y)) != Stone::Empty,
    ensures
        b.move_result(x, y, s, rules) == Err::<Seq<Stone>, Error>(
            Error::IllegalMove(IllegalMove::NonEmptySpace),
        ),
{
}

/// After an accepted move, the point played holds the mover's stone, every point of every
/// enemy group the move left without liberties is empty, and every other point is unchanged.
pub proof fn lemma_capture_correct(
    b: Board,
    x: usize,
    y: usize,
    s: Stone,
    rules: Rules,
    cells: Seq<Stone>,
)
    requires
        b.wf(),
        b.move_result(x, y, s, rules) == Ok::<Seq<Stone>, Error>(cells),
    ensures
        forall|q: (usize, usize)|
            b.grid().in_bounds(q) ==> #[trigger] b.grid().with_cells(cells).at(q) == (if q == (
                x,
                y,
            ) {
                s
            } else if b.grid().set((x, y), s).captured((x, y), q) {
                Stone::Empty
            } else {
                b.grid().at(q)
            }),
{
    let g = b.grid();
    let p = (x, y);
    let placed = g.set(p, s);
    let after = placed.without_captures(p);
    assert(cells == after.cells);
    assert forall|q: (usize, usize)| g.in_bounds(q) implies #[trigger] g.with_cells(cells).at(q)
        == (if q == p {
        s
    } else if placed.captured(p, q) {
        Stone::Empty
    } else {
        g.at(q)
    }) by {
        let i = cell_index(g.width as int, q);
        lemma_index_in_range(g.width, g.height, q);
        lemma_index_in_range(g.width, g.height, p);
        lemma_point_at(g.width, g.height, i);
        lemma_index_injective(g.width, point_at(g.width as int, i), q);
        if q != p {
            if cell_index(g.width as int, q) == cell_index(g.width as int, p) {
                lemma_index_injective(g.width, q, p);
            }
        } else if placed.captured(p, q) {
            let e = choose|e: (usize, usize)| #[trigger]
                placed.is_enemy(p, e) && placed.in_group(e, q) && !placed.has_liberty(e);
            lemma_group_same_color(placed, e, q);
        }
    }
}

/// With suicide refused, a move that leaves the mover's group without liberties is refused as
/// `SuicidalMove`. With suicide allowed the same move is accepted unless the ko or superko check
/// refuses it, and the mover's stone then stays on the board with no liberty.
pub proof fn lemma_suicide_policy(
    b: Board,
    x: usize,
    y: usize,
    s: Stone,
    refuse: Rules,
    allow: Rules,
)
    requires
        b.wf(),
        b.grid().in_bounds((x, y)),
        b.grid().at((x, y)) == Stone::Empty,
        !refuse.suicide_allowed,
        allow.suicide_allowed,
        !after_move(b, x, y, s).has_liberty((x, y)),
    ensures
        b.move_result(x, y, s, refuse) == Err::<Seq<Stone>, Error>(
            Error::IllegalMove(IllegalMove::SuicidalMove),
        ),
        ({
            let h = fx_hash64(stone_codes(after_move(b, x, y, s).cells));
            let past = b.history();
            !(past.len() >= 2 && past[past.len() - 2] == h) && !(allow.superko && past.contains(h))
                ==> b.move_result(x, y, s, allow) == Ok::<Seq<Stone>, Error>(
                after_move(b, x, y, s).cells,
            )
        }),
        after_move(b, x, y, s).at((x, y)) == s,
{
    let g = b.grid();
    let p = (x, y);
    let placed = g.set(p, s);
    let i = cell_index(g.width as int, p);
    lemma_index_in_range(g.width, g.height, p);
    lemma_point_at(g.width, g.height, i);
    lemma_index_injective(g.width, point_at(g.width as int, i), p);
    if placed.captured(p, p) {
        let e = choose|e: (usize, usize)| #[trigger]
            placed.is_enemy(p, e) && placed.in_group(e, p) && !placed.has_liberty(e);
        lemma_group_same_color(placed, e, p);
    }
}

/// A move that recreates the position from before the previous move is refused as `Ko`,
/// whatever the superko setting, once the suicide check has let it through.
pub proof fn lemma_ko(b: Board, x: usize, y: usize, s: Stone, rules: Rules)
    requires
        b.wf(),
        b.grid().in_bounds((x, y)),
        b.grid().at((x, y)) == Stone::Empty,
        b.positions().len() >= 2,
        after_move(b, x, y, s).cells == b.positions()[b.positions().len() - 2],
        rules.suicide_allowed || after_move(b, x, y, s).has_liberty((x, y)),
    ensures
        b.move_result(x, y, s, rules) == Err::<Seq<Stone>, Error>(
            Error::IllegalMove(IllegalMove::Ko),
        ),
{
    let n = b.positions().len() - 2;
    assert(b.history()[n] == fx_hash64(stone_codes(b.positions()[n])));
}

/// Under superko, a move that recreates any earlier position is refused: as `Ko` when its hash
/// is that of the position before the previous move, and as `SuperKo` otherwise.
pub proof fn lemma_superko(b: Board, x: usize, y: usize, s: Stone, rules: Rules, i: int)
    requires
        b.wf(),
        rules.superko,
        b.grid().in_bounds((x, y)),
        b.grid().at((x, y)) == Stone::Empty,
        0 <= i < b.positions().len(),
        after_move(b, x, y, s).cells == b.positions()[i],
        rules.suicide_allowed || after_move(b, x, y, s).has_liberty((x, y)),
    ensures
        b.move_result(x, y, s, rules) == Err::<Seq<Stone>, Error>(
            Error::IllegalMove(IllegalMove::Ko),
        ) || b.move_result(x, y, s, rules) == Err::<Seq<Stone>, Error>(
            Error::IllegalMove(IllegalMove::SuperKo),
        ),
{
    assert(b.history()[i] == fx_hash64(stone_codes(b.positions()[i])));
    assert(b.history().contains(b.history()[i]));
}

} // verus!
