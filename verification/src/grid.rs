//! The 6x6 board: per-position solve state, the edge-consistency check,
//! constraint propagation, and piece placement.

use crate::catalog::{catalog_like, get_full_cell_domain, get_piece_domain, in_full_domain};
use crate::catalog::{catalog, lemma_catalog_wf, lemma_full_domain_nonempty};
use crate::piece::{
    cell_empty, copy_cells, piece_wf, pieces_area, Cell, PieceDefinition, PieceModel, VisualCell,
};
use vstd::pervasive::VecAdditionalExecFns;
use vstd::prelude::*;

verus! {

pub const PUZZLE_WIDTH: usize = 6;

pub const PUZZLE_HEIGHT: usize = 6;

/// The set of still-possible cells for an unsolved position.
pub type Domain = Vec<Cell>;

/// A side of a cell, pointing toward the neighbor consulted there.
#[derive(Debug, Clone, Copy, PartialEq, Eq, Structural)]
pub enum Direction {
    Right,
    Up,
    Left,
    Down,
}

/// One board position: either decided (a concrete cell) or still open, with
/// the domain of cells that remain possible there.
#[derive(Debug, Clone)]
pub enum CellSolveState {
    Solved(Cell),
    Unsolved(Domain),
}

/// The mathematical value of a position's solve state.
#[verifier::ext_equal]
pub ghost enum CellStateModel {
    Solved(Cell),
    Unsolved(Seq<Cell>),
}

impl View for CellSolveState {
    type V = CellStateModel;

    open spec fn view(&self) -> CellStateModel {
        match self {
            CellSolveState::Solved(c) => CellStateModel::Solved(*c),
            CellSolveState::Unsolved(d) => CellStateModel::Unsolved(d@),
        }
    }
}

/// The mathematical value of the board: 36 solve states and 36 visual tiles,
/// row-major, plus the catalog pieces not yet placed.
#[verifier::ext_equal]
pub ghost struct GridModel {
    pub cells: Seq<CellStateModel>,
    pub visuals: Seq<VisualCell>,
    pub pieces: Seq<PieceModel>,
}

/// The board: a row-major 6x6 array of solve states, a parallel array of
/// visual tiles, and the pieces not yet placed. Cloning by field copy gives
/// a fully independent snapshot, which is what backtracking relies on.
#[derive(Debug)]
pub struct Grid {
    pub grid: Vec<CellSolveState>,
    pub visual_grid: Vec<VisualCell>,
    pub pieces_left: Vec<PieceDefinition>,
}

impl View for Grid {
    type V = GridModel;

    open spec fn view(&self) -> GridModel {
        GridModel {
            cells: self.grid@.map_values(|s: CellSolveState| s@),
            visuals: self.visual_grid@,
            pieces: self.pieces_left@.map_values(|p: PieceDefinition| p@),
        }
    }
}

/// Both arrays cover the whole board, and the remaining pieces are distinct
/// catalog-shaped pieces.
pub open spec fn grid_wf(g: GridModel) -> bool {
    &&& g.cells.len() == 36
    &&& g.visuals.len() == 36
    &&& forall|i: int| 0 <= i < g.pieces.len() ==> catalog_like(#[trigger] g.pieces[i])
    &&& forall|i: int, j: int|
        0 <= i < j < g.pieces.len() ==> g.pieces[i].id != g.pieces[j].id
}

/// The solve state at column `x` of row `y`.
pub open spec fn state_at(g: GridModel, x: int, y: int) -> CellStateModel {
    g.cells[y * 6 + x]
}

/// The concrete cell at `(x, y)`, if that position is solved.
pub open spec fn solved_at(g: GridModel, x: int, y: int) -> Option<Cell> {
    match state_at(g, x, y) {
        CellStateModel::Solved(c) => Some(c),
        CellStateModel::Unsolved(_) => None,
    }
}

/// The constraint that position `(x, y)` sees in direction `dir`: the empty
/// cell beyond the board edge, the neighbor's cell if that neighbor is
/// solved, and nothing otherwise.
pub open spec fn neighbor(g: GridModel, x: int, y: int, dir: Direction) -> Option<Cell> {
    match dir {
        Direction::Right => if x >= 5 {
            Some(cell_empty())
        } else {
            solved_at(g, x + 1, y)
        },
        Direction::Up => if y == 0 {
            Some(cell_empty())
        } else {
            solved_at(g, x, y - 1)
        },
        Direction::Left => if x == 0 {
            Some(cell_empty())
        } else {
            solved_at(g, x - 1, y)
        },
        Direction::Down => if y >= 5 {
            Some(cell_empty())
        } else {
            solved_at(g, x, y + 1)
        },
    }
}

/// Whether a cell value agrees with four (optional) neighbor constraints:
/// each present neighbor must carry the matching connector on the facing
/// side.
pub open spec fn cell_ok(
    c: Cell,
    nr: Option<Cell>,
    nt: Option<Cell>,
    nl: Option<Cell>,
    nb: Option<Cell>,
) -> bool {
    &&& match nr {
        Some(o) => c.right == o.left,
        None => true,
    }
    &&& match nt {
        Some(o) => c.top == o.bottom,
        None => true,
    }
    &&& match nl {
        Some(o) => c.left == o.right,
        None => true,
    }
    &&& match nb {
        Some(o) => c.bottom == o.top,
        None => true,
    }
}

/// Whether the cell value `c` would be consistent at position `(x, y)` with
/// the solved neighbors and the board edges around it.
pub open spec fn cell_fits(g: GridModel, x: int, y: int, c: Cell) -> bool {
    cell_ok(
        c,
        neighbor(g, x, y, Direction::Right),
        neighbor(g, x, y, Direction::Up),
        neighbor(g, x, y, Direction::Left),
        neighbor(g, x, y, Direction::Down),
    )
}

/// The authoritative consistency predicate: no unsolved position has an
/// empty domain, and every solved cell agrees with its solved neighbors and
/// with the board edges.
pub open spec fn check_spec(g: GridModel) -> bool {
    &&& forall|x: int, y: int|
        0 <= x < 6 && 0 <= y < 6 ==> match #[trigger] state_at(g, x, y) {
            CellStateModel::Unsolved(d) => d.len() > 0,
            CellStateModel::Solved(_) => true,
        }
    &&& forall|x: int, y: int|
        0 <= x < 6 && 0 <= y < 6 ==> match #[trigger] state_at(g, x, y) {
            CellStateModel::Solved(c) => cell_fits(g, x, y, c),
            CellStateModel::Unsolved(_) => true,
        }
}

/// Contradiction detection: a board with an emptied domain at any position
/// always fails the consistency check.
pub proof fn lemma_empty_domain_fails_check(g: GridModel, x: int, y: int)
    requires
        0 <= x < 6,
        0 <= y < 6,
        state_at(g, x, y) is Unsolved,
        state_at(g, x, y)->Unsolved_0.len() == 0,
    ensures
        !check_spec(g),
{
}

/// The predicate that propagation applies at a position with the four given
/// neighbor constraints.
pub open spec fn domain_pred(
    nr: Option<Cell>,
    nt: Option<Cell>,
    nl: Option<Cell>,
    nb: Option<Cell>,
) -> spec_fn(Cell) -> bool {
    |c: Cell| cell_ok(c, nr, nt, nl, nb)
}

/// The domain `d` narrowed to the cells that agree with the four given
/// neighbor constraints, in order.
pub open spec fn filtered_domain(
    d: Seq<Cell>,
    nr: Option<Cell>,
    nt: Option<Cell>,
    nl: Option<Cell>,
    nb: Option<Cell>,
) -> Seq<Cell> {
    d.filter(domain_pred(nr, nt, nl, nb))
}

/// What one propagation pass leaves at `(x, y)`: a solved position is
/// untouched; an unsolved one keeps exactly the domain values consistent
/// with its solved neighbors and the board edges.
pub open spec fn propagated_state(g: GridModel, x: int, y: int) -> CellStateModel {
    match state_at(g, x, y) {
        CellStateModel::Solved(c) => CellStateModel::Solved(c),
        CellStateModel::Unsolved(d) => CellStateModel::Unsolved(
            filtered_domain(
                d,
                neighbor(g, x, y, Direction::Right),
                neighbor(g, x, y, Direction::Up),
                neighbor(g, x, y, Direction::Left),
                neighbor(g, x, y, Direction::Down),
            ),
        ),
    }
}

/// One full propagation pass over the board. It is a single sweep, not a
/// fixed point: all neighbor constraints are taken from the starting grid.
pub open spec fn propagate_spec(g: GridModel) -> GridModel {
    GridModel {
        cells: Seq::new(36, |i: int| propagated_state(g, i % 6, i / 6)),
        visuals: g.visuals,
        pieces: g.pieces,
    }
}

/// Propagation never grows a domain: a solved position is untouched, and an
/// unsolved one keeps a (not necessarily proper) subsequence of its domain.
pub proof fn lemma_propagation_shrinks(g: GridModel, x: int, y: int)
    requires
        g.cells.len() == 36,
        0 <= x < 6,
        0 <= y < 6,
    ensures
        state_at(propagate_spec(g), x, y) == propagated_state(g, x, y),
        state_at(g, x, y) is Solved ==> propagated_state(g, x, y) == state_at(g, x, y),
        state_at(g, x, y) is Unsolved ==> propagated_state(g, x, y) is Unsolved
            && propagated_state(g, x, y)->Unsolved_0.len() <= state_at(g, x, y)->Unsolved_0.len(),
{
    let i = y * 6 + x;
    assert(0 <= i < 36);
    vstd::arithmetic::div_mod::lemma_fundamental_div_mod_converse(i, 6, y, x);
    assert(state_at(propagate_spec(g), x, y) == propagated_state(g, i % 6, i / 6));
    if state_at(g, x, y) is Unsolved {
        let d = state_at(g, x, y)->Unsolved_0;
        Seq::lemma_filter_len(
            d,
            domain_pred(
                neighbor(g, x, y, Direction::Right),
                neighbor(g, x, y, Direction::Up),
                neighbor(g, x, y, Direction::Left),
                neighbor(g, x, y, Direction::Down),
            ),
        );
    }
}

/// Why a placement was rejected.
#[derive(Debug, Clone, Copy, PartialEq, Eq, Structural)]
pub enum PlaceError {
    /// The piece footprint would exceed the 6x6 board.
    OutOfBounds,
    /// The placement would cover a position that is already solved.
    Overwrite,
    /// The placement fit locally but left an edge mismatch or an empty
    /// domain somewhere on the board.
    InconsistentAfterPlacement,
}

/// Whether a piece anchored at `(x, y)` lies entirely on the board.
pub open spec fn footprint_in_bounds(p: PieceModel, x: int, y: int) -> bool {
    &&& 0 <= x && x + p.width <= 6
    &&& 0 <= y && y + p.height <= 6
}

/// Whether board index `i` falls under the footprint of a piece anchored at
/// `(x, y)`.
pub open spec fn covered_by(i: int, p: PieceModel, x: int, y: int) -> bool {
    &&& x <= i % 6 < x + p.width
    &&& y <= i / 6 < y + p.height
}

/// Whether the piece anchored at `(x, y)` would cover an already-solved
/// position.
pub open spec fn covers_solved(g: GridModel, p: PieceModel, x: int, y: int) -> bool {
    exists|lx: int, ly: int|
        0 <= lx < p.width && 0 <= ly < p.height && #[trigger] state_at(g, x + lx, y + ly) is Solved
}

/// The precondition the solver checks before it commits to a placement: the
/// footprint fits, covers no solved position, and the board is currently
/// consistent.
pub open spec fn can_place_spec(g: GridModel, p: PieceModel, x: int, y: int) -> bool {
    &&& footprint_in_bounds(p, x, y)
    &&& !covers_solved(g, p, x, y)
    &&& check_spec(g)
}

/// The board with the piece's logical cells written as solved over its
/// footprint, everything else untouched.
pub open spec fn with_piece_cells(g: GridModel, p: PieceModel, x: int, y: int) -> GridModel {
    GridModel {
        cells: Seq::new(
            36,
            |i: int|
                if covered_by(i, p, x, y) {
                    CellStateModel::Solved(p.cell_at(i % 6 - x, i / 6 - y))
                } else {
                    g.cells[i]
                },
        ),
        visuals: g.visuals,
        pieces: g.pieces,
    }
}

/// The visual layer with the piece's tiles written over its footprint.
pub open spec fn with_piece_visuals(
    v: Seq<VisualCell>,
    p: PieceModel,
    x: int,
    y: int,
) -> Seq<VisualCell> {
    Seq::new(
        36,
        |i: int|
            if covered_by(i, p, x, y) {
                p.visual_at(i % 6 - x, i / 6 - y)
            } else {
                v[i]
            },
    )
}

/// Keeps the pieces whose id differs from `id`.
pub open spec fn keep_pred(id: int) -> spec_fn(PieceModel) -> bool {
    |q: PieceModel| q.id != id
}

/// The remaining-pieces list with every piece of the given id removed.
pub open spec fn remove_pieces_with_id(ps: Seq<PieceModel>, id: int) -> Seq<PieceModel> {
    ps.filter(keep_pred(id))
}

/// What removal by id does to the remaining-pieces list: every kept piece
/// keeps its place in the order and no kept piece carries the removed id; if
/// no piece carries the id nothing is removed, and if the ids are pairwise
/// distinct and the id is present, exactly one piece is removed and the ids
/// stay pairwise distinct.
pub proof fn lemma_remove_pieces_props(ps: Seq<PieceModel>, id: int)
    ensures
        remove_pieces_with_id(ps, id).len() <= ps.len(),
        forall|i: int|
            0 <= i < remove_pieces_with_id(ps, id).len() ==> (#[trigger] remove_pieces_with_id(
                ps,
                id,
            )[i]).id != id && ps.contains(remove_pieces_with_id(ps, id)[i]),
        (forall|i: int| 0 <= i < ps.len() ==> (#[trigger] ps[i]).id != id)
            ==> remove_pieces_with_id(ps, id) == ps,
        ((exists|k: int| 0 <= k < ps.len() && (#[trigger] ps[k]).id == id) && (forall|
            i: int,
            j: int,
        |
            0 <= i < j < ps.len() ==> ps[i].id != ps[j].id)) ==> remove_pieces_with_id(
            ps,
            id,
        ).len() == ps.len() - 1,
        (forall|i: int, j: int| 0 <= i < j < ps.len() ==> ps[i].id != ps[j].id) ==> (forall|
            i: int,
            j: int,
        |
            0 <= i < j < remove_pieces_with_id(ps, id).len() ==> remove_pieces_with_id(ps, id)[i].id
                != remove_pieces_with_id(ps, id)[j].id),
    decreases ps.len(),
{
    reveal(Seq::filter);
    let out = remove_pieces_with_id(ps, id);
    if ps.len() == 0 {
        assert(out =~= ps);
    } else {
        let rest = ps.drop_last();
        let last = ps.last();
        lemma_remove_pieces_props(rest, id);
        let rout = remove_pieces_with_id(rest, id);
        assert forall|i: int| 0 <= i < rest.len() implies ps.contains(rest[i]) by {
            assert(ps[i] == rest[i]);
        }
        assert(ps.contains(last)) by {
            assert(ps[ps.len() - 1] == last);
        }
        if keep_pred(id)(last) {
            assert(out == rout.push(last));
        } else {
            assert(out == rout);
        }
        if forall|i: int| 0 <= i < ps.len() ==> (#[trigger] ps[i]).id != id {
            assert(forall|i: int| 0 <= i < rest.len() ==> (#[trigger] rest[i]).id != id);
            assert(out =~= ps);
        }
        if (exists|k: int| 0 <= k < ps.len() && (#[trigger] ps[k]).id == id) && (forall|
            i: int,
            j: int,
        |
            0 <= i < j < ps.len() ==> ps[i].id != ps[j].id) {
            let k = choose|k: int| 0 <= k < ps.len() && (#[trigger] ps[k]).id == id;
            if k == ps.len() - 1 {
                assert(forall|i: int| 0 <= i < rest.len() ==> (#[trigger] rest[i]).id != id);
                assert(out == rout && rout =~= rest);
            } else {
                assert(rest[k].id == id);
                assert(last.id != id);
            }
        }
    }
}

/// How many of the first `n` board positions are solved.
pub open spec fn solved_count(g: GridModel, n: int) -> int
    decreases n,
{
    if n <= 0 {
        0
    } else {
        solved_count(g, n - 1) + if g.cells[n - 1] is Solved {
            1int
        } else {
            0int
        }
    }
}

/// The conservation law of placement: the solved positions and the cells of
/// the still-unplaced pieces together always account for exactly the 36
/// board positions.
pub open spec fn area_balanced(g: GridModel) -> bool {
    solved_count(g, 36) + pieces_area(g.pieces) == 36
}

/// The solved-position count is bounded by `n`, and reaches it exactly when
/// every counted position is solved.
pub proof fn lemma_solved_count_bounds(g: GridModel, n: int)
    requires
        0 <= n,
    ensures
        0 <= solved_count(g, n) <= n,
        solved_count(g, n) == n <==> (forall|i: int|
            0 <= i < n ==> (#[trigger] g.cells[i]) is Solved),
    decreases n,
{
    if n > 0 {
        lemma_solved_count_bounds(g, n - 1);
    }
}

/// A board with no solved position among the first `n` counts zero.
pub proof fn lemma_solved_count_none(g: GridModel, n: int)
    requires
        0 <= n,
        forall|i: int| 0 <= i < n ==> !((#[trigger] g.cells[i]) is Solved),
    ensures
        solved_count(g, n) == 0,
    decreases n,
{
    if n > 0 {
        lemma_solved_count_none(g, n - 1);
    }
}

/// How many of the first `n` board positions fall under the footprint of a
/// piece anchored at `(x, y)`.
pub open spec fn covered_count(p: PieceModel, x: int, y: int, n: int) -> int
    decreases n,
{
    if n <= 0 {
        0
    } else {
        covered_count(p, x, y, n - 1) + if covered_by(n - 1, p, x, y) {
            1int
        } else {
            0int
        }
    }
}

/// How many members of the interval `[lo, lo + len)` lie strictly below `v`.
pub open spec fn span_before(lo: int, len: int, v: int) -> int {
    if v <= lo {
        0
    } else if v >= lo + len {
        len
    } else {
        v - lo
    }
}

/// Counting the footprint row-major: full covered rows below the current
/// one, plus the covered part of the current row.
proof fn lemma_covered_count_prefix(p: PieceModel, x: int, y: int, n: int)
    requires
        piece_wf(p),
        footprint_in_bounds(p, x, y),
        0 <= n <= 36,
    ensures
        covered_count(p, x, y, n) == p.width * span_before(y, p.height, n / 6) + if y <= n / 6 < y
            + p.height {
            span_before(x, p.width, n % 6)
        } else {
            0
        },
    decreases n,
{
    if n > 0 {
        lemma_covered_count_prefix(p, x, y, n - 1);
        let r = (n - 1) / 6;
        let c = (n - 1) % 6;
        vstd::arithmetic::div_mod::lemma_fundamental_div_mod(n - 1, 6);
        vstd::arithmetic::div_mod::lemma_mod_bound(n - 1, 6);
        if c < 5 {
            vstd::arithmetic::div_mod::lemma_fundamental_div_mod_converse(n, 6, r, c + 1);
        } else {
            vstd::arithmetic::div_mod::lemma_fundamental_div_mod_converse(n, 6, r + 1, 0);
        }
        let ra = span_before(y, p.height, r);
        let rb = span_before(y, p.height, n / 6);
        if rb == ra + 1 {
            assert(p.width * rb == p.width * ra + p.width) by (nonlinear_arith)
                requires
                    rb == ra + 1,
            ;
        }
    }
}

/// A full footprint covers exactly `width * height` positions.
proof fn lemma_covered_count_full(p: PieceModel, x: int, y: int)
    requires
        piece_wf(p),
        footprint_in_bounds(p, x, y),
    ensures
        covered_count(p, x, y, 36) == p.width * p.height,
{
    lemma_covered_count_prefix(p, x, y, 36);
    assert(span_before(y, p.height, 36int / 6) == p.height);
}

/// Writing a piece solves exactly its footprint, which was unsolved before.
proof fn lemma_solved_count_with_piece(g: GridModel, p: PieceModel, x: int, y: int, n: int)
    requires
        g.cells.len() == 36,
        piece_wf(p),
        footprint_in_bounds(p, x, y),
        !covers_solved(g, p, x, y),
        0 <= n <= 36,
    ensures
        solved_count(with_piece_cells(g, p, x, y), n) == solved_count(g, n) + covered_count(
            p,
            x,
            y,
            n,
        ),
    decreases n,
{
    if n > 0 {
        lemma_solved_count_with_piece(g, p, x, y, n - 1);
        let i = n - 1;
        vstd::arithmetic::div_mod::lemma_fundamental_div_mod(i, 6);
        vstd::arithmetic::div_mod::lemma_mod_bound(i, 6);
        if covered_by(i, p, x, y) {
            let lx = i % 6 - x;
            let ly = i / 6 - y;
            assert(state_at(g, x + lx, y + ly) == g.cells[i]);
            assert(!(state_at(g, x + lx, y + ly) is Solved));
        }
    }
}

/// Propagation decides nothing: a position is solved after the pass exactly
/// when it was solved before.
proof fn lemma_solved_count_propagate(g: GridModel, n: int)
    requires
        g.cells.len() == 36,
        0 <= n <= 36,
    ensures
        solved_count(propagate_spec(g), n) == solved_count(g, n),
    decreases n,
{
    if n > 0 {
        lemma_solved_count_propagate(g, n - 1);
        let i = n - 1;
        vstd::arithmetic::div_mod::lemma_fundamental_div_mod(i, 6);
        vstd::arithmetic::div_mod::lemma_mod_bound(i, 6);
        assert(propagate_spec(g).cells[i] == propagated_state(g, i % 6, i / 6));
        assert(state_at(g, i % 6, i / 6) == g.cells[i]);
    }
}

/// Two boards solved at exactly the same positions count the same.
proof fn lemma_solved_count_same(g1: GridModel, g2: GridModel, n: int)
    requires
        0 <= n,
        forall|i: int|
            0 <= i < n ==> ((#[trigger] g1.cells[i]) is Solved <==> g2.cells[i] is Solved),
    ensures
        solved_count(g1, n) == solved_count(g2, n),
    decreases n,
{
    if n > 0 {
        lemma_solved_count_same(g1, g2, n - 1);
    }
}

/// Removing the (unique) piece with the given id takes exactly its cell
/// count out of the remaining area.
pub proof fn lemma_pieces_area_remove(ps: Seq<PieceModel>, id: int, k: int)
    requires
        0 <= k < ps.len(),
        ps[k].id == id,
        forall|i: int, j: int| 0 <= i < j < ps.len() ==> ps[i].id != ps[j].id,
    ensures
        pieces_area(remove_pieces_with_id(ps, id)) == pieces_area(ps) - ps[k].width
            * ps[k].height,
    decreases ps.len(),
{
    reveal(Seq::filter);
    let rest = ps.drop_last();
    let last = ps.last();
    let out = remove_pieces_with_id(ps, id);
    let rout = remove_pieces_with_id(rest, id);
    if keep_pred(id)(last) {
        assert(out == rout.push(last));
        assert(k < ps.len() - 1);
        assert forall|i: int, j: int| 0 <= i < j < rest.len() implies rest[i].id != rest[j].id by {
            assert(rest[i] == ps[i] && rest[j] == ps[j]);
        }
        assert(rest[k] == ps[k]);
        lemma_pieces_area_remove(rest, id, k);
        assert(rout.push(last).drop_last() =~= rout);
        assert(pieces_area(out) == pieces_area(rout) + last.width * last.height);
    } else {
        assert(out == rout);
        assert forall|i: int| 0 <= i < rest.len() implies (#[trigger] rest[i]).id != id by {
            assert(rest[i] == ps[i] && last == ps[ps.len() - 1]);
        }
        assert(k == ps.len() - 1);
        lemma_remove_pieces_props(rest, id);
        assert(rout == rest);
    }
}

/// Placement preserves the conservation law: the newly solved footprint has
/// exactly as many cells as the piece that leaves the remaining list.
pub proof fn lemma_place_unchecked_area(g: GridModel, p: PieceModel, x: int, y: int, k: int)
    requires
        g.cells.len() == 36,
        piece_wf(p),
        footprint_in_bounds(p, x, y),
        !covers_solved(g, p, x, y),
        0 <= k < g.pieces.len(),
        g.pieces[k].id == p.id,
        g.pieces[k].width * g.pieces[k].height == p.width * p.height,
        forall|i: int, j: int| 0 <= i < j < g.pieces.len() ==> g.pieces[i].id != g.pieces[j].id,
        area_balanced(g),
    ensures
        area_balanced(place_unchecked_spec(g, p, x, y)),
{
    let mid = with_piece_cells(g, p, x, y);
    let placed = place_unchecked_spec(g, p, x, y);
    lemma_solved_count_with_piece(g, p, x, y, 36);
    lemma_covered_count_full(p, x, y);
    lemma_solved_count_propagate(mid, 36);
    lemma_solved_count_same(placed, propagate_spec(mid), 36);
    lemma_pieces_area_remove(g.pieces, p.id, k);
}

/// The board after an unchecked placement: the piece's cells written, one
/// propagation pass, the piece removed by id, and its visual tiles written.
pub open spec fn place_unchecked_spec(g: GridModel, p: PieceModel, x: int, y: int) -> GridModel {
    GridModel {
        cells: propagate_spec(with_piece_cells(g, p, x, y)).cells,
        visuals: with_piece_visuals(g.visuals, p, x, y),
        pieces: remove_pieces_with_id(g.pieces, p.id),
    }
}

/// What `place_piece` returns: out-of-bounds and overwrite are rejected up
/// front; otherwise the placement is applied and rejected only if the board
/// fails the consistency check afterwards.
pub open spec fn place_result(g: GridModel, p: PieceModel, x: int, y: int) -> Result<
    (),
    PlaceError,
> {
    if !footprint_in_bounds(p, x, y) {
        Err(PlaceError::OutOfBounds)
    } else if covers_solved(g, p, x, y) {
        Err(PlaceError::Overwrite)
    } else if !check_spec(propagate_spec(with_piece_cells(g, p, x, y))) {
        Err(PlaceError::InconsistentAfterPlacement)
    } else {
        Ok(())
    }
}

/// The board `place_piece` leaves behind. A rejected placement leaves the
/// board untouched, except that an inconsistent placement is not rolled
/// back: its cells and the propagation stay, while the remaining-pieces list
/// and the visual layer are untouched. Callers that need transactional
/// behaviour work on a snapshot and discard it, which is exactly what the
/// solver's grid stack does.
pub open spec fn place_after(g: GridModel, p: PieceModel, x: int, y: int) -> GridModel {
    if !footprint_in_bounds(p, x, y) || covers_solved(g, p, x, y) {
        g
    } else if !check_spec(propagate_spec(with_piece_cells(g, p, x, y))) {
        propagate_spec(with_piece_cells(g, p, x, y))
    } else {
        place_unchecked_spec(g, p, x, y)
    }
}

/// Attempting to place any piece over a position that is already solved
/// fails with `Overwrite` and changes nothing, no matter whether the new
/// cell values would have matched.
pub proof fn lemma_overwrite_rejected(g: GridModel, p: PieceModel, x: int, y: int)
    requires
        footprint_in_bounds(p, x, y),
        covers_solved(g, p, x, y),
    ensures
        place_result(g, p, x, y) == Err::<(), PlaceError>(PlaceError::Overwrite),
        place_after(g, p, x, y) == g,
{
}

/// Placement is atomic with respect to the remaining-pieces list: after a
/// successful placement the piece's id is absent from the list (one entry,
/// the piece's own, was removed when the ids were distinct), and after any
/// failed placement the list is exactly what it was.
pub proof fn lemma_placement_atomicity(g: GridModel, p: PieceModel, x: int, y: int)
    ensures
        place_result(g, p, x, y) is Ok ==> forall|i: int|
            0 <= i < place_after(g, p, x, y).pieces.len() ==> (#[trigger] place_after(
                g,
                p,
                x,
                y,
            ).pieces[i]).id != p.id,
        (place_result(g, p, x, y) is Ok && (exists|k: int|
            0 <= k < g.pieces.len() && (#[trigger] g.pieces[k]).id == p.id) && (forall|
            i: int,
            j: int,
        |
            0 <= i < j < g.pieces.len() ==> g.pieces[i].id != g.pieces[j].id)) ==> place_after(
            g,
            p,
            x,
            y,
        ).pieces.len() == g.pieces.len() - 1,
        place_result(g, p, x, y) is Err ==> place_after(g, p, x, y).pieces == g.pieces,
{
    lemma_remove_pieces_props(g.pieces, p.id);
}

fn cell_agrees(
    c: Cell,
    nr: Option<Cell>,
    nt: Option<Cell>,
    nl: Option<Cell>,
    nb: Option<Cell>,
) -> (r: bool)
    ensures
        r == cell_ok(c, nr, nt, nl, nb),
{
    if let Some(o) = nr {
        if c.right != o.left {
            return false;
        }
    }
    if let Some(o) = nt {
        if c.top != o.bottom {
            return false;
        }
    }
    if let Some(o) = nl {
        if c.left != o.right {
            return false;
        }
    }
    if let Some(o) = nb {
        if c.bottom != o.top {
            return false;
        }
    }
    true
}

fn filter_domain(
    d: &Vec<Cell>,
    nr: Option<Cell>,
    nt: Option<Cell>,
    nl: Option<Cell>,
    nb: Option<Cell>,
) -> (out: Vec<Cell>)
    ensures
        out@ == filtered_domain(d@, nr, nt, nl, nb),
{
    let mut out: Vec<Cell> = Vec::new();
    let mut i: usize = 0;
    while i < d.len()
        invariant
            i <= d@.len(),
            out@ == filtered_domain(d@.subrange(0, i as int), nr, nt, nl, nb),
        decreases d@.len() - i,
    {
        let c = d[i];
        proof {
            broadcast use vstd::prelude::Seq::lemma_filter_push;

            assert(d@.subrange(0, i as int + 1) =~= d@.subrange(0, i as int).push(d@[i as int]));
        }
        if cell_agrees(c, nr, nt, nl, nb) {
            out.push(c);
        }
        i = i + 1;
    }
    proof {
        assert(d@.subrange(0, d@.len() as int) =~= d@);
    }
    out
}

impl Default for Grid {
    /// The starting board: every position unsolved with the full cell
    /// domain, every visual tile empty, and the whole catalog unplaced. On
    /// this board every domain is non-empty and holds exactly the full cell
    /// domain.
    fn default() -> (g: Grid)
        ensures
            grid_wf(g@),
            g@.pieces == catalog(),
            forall|i: int| 0 <= i < 36 ==> g@.visuals[i] == VisualCell::CellEmpty,
            forall|x: int, y: int|
                0 <= x < 6 && 0 <= y < 6 ==> {
                    &&& #[trigger] state_at(g@, x, y) is Unsolved
                    &&& state_at(g@, x, y)->Unsolved_0.len() >= 1
                    &&& state_at(g@, x, y)->Unsolved_0.no_duplicates()
                    &&& forall|c: Cell|
                        state_at(g@, x, y)->Unsolved_0.contains(c) <==> in_full_domain(c)
                },
            forall|i: int, j: int| 0 <= i < 36 && 0 <= j < 36 ==> g@.cells[i] == g@.cells[j],
            check_spec(g@),
    {
        let full = get_full_cell_domain();
        let mut states: Vec<CellSolveState> = Vec::new();
        let mut i: usize = 0;
        while i < 36
            invariant
                i <= 36,
                states@.len() == i,
                forall|j: int|
                    0 <= j < i ==> (#[trigger] states@[j])@ == CellStateModel::Unsolved(full@),
            decreases 36 - i,
        {
            states.push(CellSolveState::Unsolved(copy_cells(&full)));
            i = i + 1;
        }
        let mut visuals: Vec<VisualCell> = Vec::new();
        let mut i: usize = 0;
        while i < 36
            invariant
                i <= 36,
                visuals@.len() == i,
                forall|j: int| 0 <= j < i ==> visuals@[j] == VisualCell::CellEmpty,
            decreases 36 - i,
        {
            visuals.push(VisualCell::CellEmpty);
            i = i + 1;
        }
        let g = Grid { grid: states, visual_grid: visuals, pieces_left: get_piece_domain() };
        proof {
            lemma_catalog_wf();
            lemma_full_domain_nonempty();
            assert(g@.pieces =~= catalog());
            assert(full@.contains(cell_empty()));
        }
        g
    }
}

impl Grid {
    /// The constraint seen from `(x, y)` looking in `direction`.
    pub fn get_neighbor_cell(&self, x: usize, y: usize, direction: Direction) -> (r: Option<Cell>)
        requires
            self@.cells.len() == 36,
            x < 6,
            y < 6,
        ensures
            r == neighbor(self@, x as int, y as int, direction),
    {
        match direction {
            Direction::Right => {
                if x >= 5 {
                    Some(Cell::default())
                } else {
                    self.solved_cell_at(x + 1, y)
                }
            },
            Direction::Up => {
                if y == 0 {
                    Some(Cell::default())
                } else {
                    self.solved_cell_at(x, y - 1)
                }
            },
            Direction::Left => {
                if x == 0 {
                    Some(Cell::default())
                } else {
                    self.solved_cell_at(x - 1, y)
                }
            },
            Direction::Down => {
                if y >= 5 {
                    Some(Cell::default())
                } else {
                    self.solved_cell_at(x, y + 1)
                }
            },
        }
    }

    fn solved_cell_at(&self, x: usize, y: usize) -> (r: Option<Cell>)
        requires
            self@.cells.len() == 36,
            x < 6,
            y < 6,
        ensures
            r == solved_at(self@, x as int, y as int),
    {
        if let CellSolveState::Solved(c) = &self.grid[y * 6 + x] {
            Some(*c)
        } else {
            None
        }
    }

    /// The four constraints around `(x, y)`, in the order right, up, left,
    /// down.
    fn neighbors_around(&self, x: usize, y: usize) -> (r: (
        Option<Cell>,
        Option<Cell>,
        Option<Cell>,
        Option<Cell>,
    ))
        requires
            self@.cells.len() == 36,
            x < 6,
            y < 6,
        ensures
            r.0 == neighbor(self@, x as int, y as int, Direction::Right),
            r.1 == neighbor(self@, x as int, y as int, Direction::Up),
            r.2 == neighbor(self@, x as int, y as int, Direction::Left),
            r.3 == neighbor(self@, x as int, y as int, Direction::Down),
    {
        (
            self.get_neighbor_cell(x, y, Direction::Right),
            self.get_neighbor_cell(x, y, Direction::Up),
            self.get_neighbor_cell(x, y, Direction::Left),
            self.get_neighbor_cell(x, y, Direction::Down),
        )
    }

    /// One constraint-propagation pass: for every unsolved position, drops
    /// the domain values that disagree with a solved neighbor or with the
    /// board edge on some side. Solved positions are untouched.
    pub fn do_constraint_propagation(&mut self)
        requires
            old(self)@.cells.len() == 36,
        ensures
            final(self)@ == propagate_spec(old(self)@),
    {
        let ghost g0 = self@;
        let mut y: usize = 0;
        while y < 6
            invariant
                self@.cells.len() == 36,
                g0.cells.len() == 36,
                self@.visuals == g0.visuals,
                self@.pieces == g0.pieces,
                y <= 6,
                forall|i: int| y * 6 <= i < 36 ==> #[trigger] self@.cells[i] == g0.cells[i],
                forall|i: int|
                    0 <= i < y * 6 ==> #[trigger] self@.cells[i] == propagated_state(
                        g0,
                        i % 6,
                        i / 6,
                    ),
                forall|x2: int, y2: int|
                    0 <= x2 < 6 && 0 <= y2 < 6 ==> #[trigger] solved_at(self@, x2, y2) == solved_at(
                        g0,
                        x2,
                        y2,
                    ),
            decreases 6 - y,
        {
            let mut x: usize = 0;
            while x < 6
                invariant
                    self@.cells.len() == 36,
                    g0.cells.len() == 36,
                    self@.visuals == g0.visuals,
                    self@.pieces == g0.pieces,
                    y < 6,
                    x <= 6,
                    forall|i: int| y * 6 + x <= i < 36 ==> #[trigger] self@.cells[i] == g0.cells[i],
                    forall|i: int|
                        0 <= i < y * 6 + x ==> #[trigger] self@.cells[i] == propagated_state(
                            g0,
                            i % 6,
                            i / 6,
                        ),
                    forall|x2: int, y2: int|
                        0 <= x2 < 6 && 0 <= y2 < 6 ==> #[trigger] solved_at(self@, x2, y2)
                            == solved_at(g0, x2, y2),
                decreases 6 - x,
            {
                let idx = y * 6 + x;
                let (nr, nt, nl, nb) = self.neighbors_around(x, y);
                proof {
                    assert(neighbor(self@, x as int, y as int, Direction::Right) == neighbor(
                        g0,
                        x as int,
                        y as int,
                        Direction::Right,
                    ));
                    assert(neighbor(self@, x as int, y as int, Direction::Up) == neighbor(
                        g0,
                        x as int,
                        y as int,
                        Direction::Up,
                    ));
                    assert(neighbor(self@, x as int, y as int, Direction::Left) == neighbor(
                        g0,
                        x as int,
                        y as int,
                        Direction::Left,
                    ));
                    assert(neighbor(self@, x as int, y as int, Direction::Down) == neighbor(
                        g0,
                        x as int,
                        y as int,
                        Direction::Down,
                    ));
                }
                let ghost pre = self@;
                let replacement = match &self.grid[idx] {
                    CellSolveState::Unsolved(dom) => Some(
                        CellSolveState::Unsolved(filter_domain(dom, nr, nt, nl, nb)),
                    ),
                    CellSolveState::Solved(_) => None,
                };
                if let Some(ns) = replacement {
                    self.grid.set(idx, ns);
                }
                proof {
                    vstd::arithmetic::div_mod::lemma_fundamental_div_mod_converse(
                        idx as int,
                        6,
                        y as int,
                        x as int,
                    );
                    assert(pre.cells[idx as int] == g0.cells[idx as int]);
                    assert(g0.cells[idx as int] == state_at(g0, x as int, y as int));
                    if pre.cells[idx as int] is Unsolved {
                        let d0 = pre.cells[idx as int]->Unsolved_0;
                        assert(self@.cells[idx as int] == CellStateModel::Unsolved(
                            filtered_domain(d0, nr, nt, nl, nb),
                        ));
                    } else {
                        assert(self@.cells[idx as int] == pre.cells[idx as int]);
                    }
                    assert(self@.cells[idx as int] == propagated_state(g0, x as int, y as int));
                    assert forall|i: int| y * 6 + x + 1 <= i < 36 implies #[trigger] self@.cells[i]
                        == g0.cells[i] by {
                        assert(self@.cells[i] == pre.cells[i]);
                    }
                    assert forall|i: int| 0 <= i < y * 6 + x implies #[trigger] self@.cells[i]
                        == propagated_state(g0, i % 6, i / 6) by {
                        assert(self@.cells[i] == pre.cells[i]);
                    }
                    assert forall|x2: int, y2: int|
                        0 <= x2 < 6 && 0 <= y2 < 6 implies #[trigger] solved_at(self@, x2, y2)
                        == solved_at(g0, x2, y2) by {
                        if y2 * 6 + x2 != idx {
                            assert(self@.cells[y2 * 6 + x2] == pre.cells[y2 * 6 + x2]);
                        }
                    }
                }
                x = x + 1;
            }
            y = y + 1;
        }
        proof {
            assert(self@.cells =~= propagate_spec(g0).cells);
            assert(self@ =~= propagate_spec(g0));
        }
    }

    /// A fully independent copy with the same value: the snapshot that the
    /// solver's stack keeps for backtracking.
    pub fn snapshot(&self) -> (g: Grid)
        ensures
            g@ == self@,
    {
        let mut states: Vec<CellSolveState> = Vec::new();
        let mut i: usize = 0;
        while i < self.grid.len()
            invariant
                i <= self.grid@.len(),
                states@.len() == i,
                forall|j: int| 0 <= j < i ==> (#[trigger] states@[j])@ == self.grid@[j]@,
            decreases self.grid@.len() - i,
        {
            let copy = match &self.grid[i] {
                CellSolveState::Solved(c) => CellSolveState::Solved(*c),
                CellSolveState::Unsolved(d) => CellSolveState::Unsolved(copy_cells(d)),
            };
            states.push(copy);
            i = i + 1;
        }
        let mut pieces: Vec<PieceDefinition> = Vec::new();
        let mut i: usize = 0;
        while i < self.pieces_left.len()
            invariant
                i <= self.pieces_left@.len(),
                pieces@.len() == i,
                forall|j: int| 0 <= j < i ==> (#[trigger] pieces@[j])@ == self.pieces_left@[j]@,
            decreases self.pieces_left@.len() - i,
        {
            pieces.push(self.pieces_left[i].clone_piece());
            i = i + 1;
        }
        let g = Grid {
            grid: states,
            visual_grid: crate::piece::copy_visuals(&self.visual_grid),
            pieces_left: pieces,
        };
        proof {
            assert(g@.cells =~= self@.cells);
            assert(g@.pieces =~= self@.pieces);
            assert(g@ =~= self@);
        }
        g
    }

    fn write_cells(&mut self, piece: &PieceDefinition, x: usize, y: usize)
        requires
            old(self)@.cells.len() == 36,
            piece_wf(piece@),
            footprint_in_bounds(piece@, x as int, y as int),
        ensures
            final(self)@ == with_piece_cells(old(self)@, piece@, x as int, y as int),
    {
        let ghost g0 = self@;
        let ghost p = piece@;
        let width = piece.width;
        let height = piece.height;
        let mut lx: usize = 0;
        while lx < width
            invariant
                self@.cells.len() == 36,
                g0.cells.len() == 36,
                self@.visuals == g0.visuals,
                self@.pieces == g0.pieces,
                piece_wf(p),
                p == piece@,
                width == p.width,
                height == p.height,
                footprint_in_bounds(p, x as int, y as int),
                lx <= width,
                forall|i: int|
                    0 <= i < 36 ==> #[trigger] self@.cells[i] == (if covered_by(
                        i,
                        p,
                        x as int,
                        y as int,
                    ) && i % 6 < x + lx {
                        CellStateModel::Solved(p.cell_at(i % 6 - x, i / 6 - y))
                    } else {
                        g0.cells[i]
                    }),
            decreases width - lx,
        {
            let mut ly: usize = 0;
            while ly < height
                invariant
                    self@.cells.len() == 36,
                    g0.cells.len() == 36,
                    self@.visuals == g0.visuals,
                    self@.pieces == g0.pieces,
                    piece_wf(p),
                    p == piece@,
                    width == p.width,
                    height == p.height,
                    footprint_in_bounds(p, x as int, y as int),
                    lx < width,
                    ly <= height,
                    forall|i: int|
                        0 <= i < 36 ==> #[trigger] self@.cells[i] == (if covered_by(
                            i,
                            p,
                            x as int,
                            y as int,
                        ) && (i % 6 < x + lx || (i % 6 == x + lx && i / 6 < y + ly)) {
                            CellStateModel::Solved(p.cell_at(i % 6 - x, i / 6 - y))
                        } else {
                            g0.cells[i]
                        }),
                decreases height - ly,
            {
                let idx = (y + ly) * 6 + (x + lx);
                proof {
                    vstd::arithmetic::div_mod::lemma_fundamental_div_mod_converse(
                        idx as int,
                        6,
                        (y + ly) as int,
                        (x + lx) as int,
                    );
                    assert(ly * width + lx < width * height && ly * width + lx < 36)
                        by (nonlinear_arith)
                        requires
                            ly < height,
                            lx < width,
                            1 <= width <= 6,
                            height <= 6,
                    ;
                    assert(p.cell_at(lx as int, ly as int) == p.cells[ly * width + lx]);
                }
                let src = ly * width + lx;
                let ghost pre = self@;
                self.grid.set(idx, CellSolveState::Solved(piece.logical_cells[src]));
                proof {
                    assert(self@.cells[idx as int] == CellStateModel::Solved(
                        p.cell_at(lx as int, ly as int),
                    ));
                    assert forall|i: int| 0 <= i < 36 && i != idx implies #[trigger] self@.cells[i]
                        == pre.cells[i] by {}
                }
                ly = ly + 1;
            }
            lx = lx + 1;
        }
        proof {
            assert(self@.cells =~= with_piece_cells(g0, p, x as int, y as int).cells);
            assert(self@ =~= with_piece_cells(g0, p, x as int, y as int));
        }
    }

    fn write_visuals(&mut self, piece: &PieceDefinition, x: usize, y: usize)
        requires
            old(self)@.visuals.len() == 36,
            piece_wf(piece@),
            footprint_in_bounds(piece@, x as int, y as int),
        ensures
            final(self)@.visuals == with_piece_visuals(
                old(self)@.visuals,
                piece@,
                x as int,
                y as int,
            ),
            final(self)@.cells == old(self)@.cells,
            final(self)@.pieces == old(self)@.pieces,
    {
        let ghost g0 = self@;
        let ghost p = piece@;
        let width = piece.width;
        let height = piece.height;
        let mut lx: usize = 0;
        while lx < width
            invariant
                self@.visuals.len() == 36,
                g0.visuals.len() == 36,
                self@.cells == g0.cells,
                self@.pieces == g0.pieces,
                piece_wf(p),
                p == piece@,
                width == p.width,
                height == p.height,
                footprint_in_bounds(p, x as int, y as int),
                lx <= width,
                forall|i: int|
                    0 <= i < 36 ==> #[trigger] self@.visuals[i] == (if covered_by(
                        i,
                        p,
                        x as int,
                        y as int,
                    ) && i % 6 < x + lx {
                        p.visual_at(i % 6 - x, i / 6 - y)
                    } else {
                        g0.visuals[i]
                    }),
            decreases width - lx,
        {
            let mut ly: usize = 0;
            while ly < height
                invariant
                    self@.visuals.len() == 36,
                    g0.visuals.len() == 36,
                    self@.cells == g0.cells,
                    self@.pieces == g0.pieces,
                    piece_wf(p),
                    p == piece@,
                    width == p.width,
                    height == p.height,
                    footprint_in_bounds(p, x as int, y as int),
                    lx < width,
                    ly <= height,
                    forall|i: int|
                        0 <= i < 36 ==> #[trigger] self@.visuals[i] == (if covered_by(
                            i,
                            p,
                            x as int,
                            y as int,
                        ) && (i % 6 < x + lx || (i % 6 == x + lx && i / 6 < y + ly)) {
                            p.visual_at(i % 6 - x, i / 6 - y)
                        } else {
                            g0.visuals[i]
                        }),
                decreases height - ly,
            {
                let idx = (y + ly) * 6 + (x + lx);
                proof {
                    vstd::arithmetic::div_mod::lemma_fundamental_div_mod_converse(
                        idx as int,
                        6,
                        (y + ly) as int,
                        (x + lx) as int,
                    );
                    assert(ly * width + lx < width * height && ly * width + lx < 36)
                        by (nonlinear_arith)
                        requires
                            ly < height,
                            lx < width,
                            1 <= width <= 6,
                            height <= 6,
                    ;
                    assert(p.visual_at(lx as int, ly as int) == p.visuals[ly * width + lx]);
                }
                let src = ly * width + lx;
                let ghost pre = self@;
                self.visual_grid.set(idx, piece.visual_cells[src]);
                proof {
                    assert(self@.visuals[idx as int] == p.visual_at(lx as int, ly as int));
                    assert forall|i: int|
                        0 <= i < 36 && i != idx implies #[trigger] self@.visuals[i]
                        == pre.visuals[i] by {}
                }
                ly = ly + 1;
            }
            lx = lx + 1;
        }
        proof {
            assert(self@.visuals =~= with_piece_visuals(g0.visuals, p, x as int, y as int));
        }
    }

    fn remove_piece_by_id(&mut self, id: usize)
        ensures
            final(self)@.pieces == remove_pieces_with_id(old(self)@.pieces, id as int),
            final(self)@.cells == old(self)@.cells,
            final(self)@.visuals == old(self)@.visuals,
    {
        let ghost ps = self@.pieces;
        let mut kept: Vec<PieceDefinition> = Vec::new();
        let mut i: usize = 0;
        while i < self.pieces_left.len()
            invariant
                ps == self@.pieces,
                i <= self.pieces_left@.len(),
                ps.len() == self.pieces_left@.len(),
                kept@.map_values(|q: PieceDefinition| q@) == remove_pieces_with_id(
                    ps.subrange(0, i as int),
                    id as int,
                ),
            decreases self.pieces_left@.len() - i,
        {
            let ghost prefix = ps.subrange(0, i as int);
            proof {
                broadcast use vstd::prelude::Seq::lemma_filter_push;

                assert(ps.subrange(0, i as int + 1) =~= prefix.push(ps[i as int]));
            }
            let p = &self.pieces_left[i];
            let ghost kept_models = kept@.map_values(|q: PieceDefinition| q@);
            if p.piece_id != id {
                let copy = p.clone_piece();
                kept.push(copy);
                proof {
                    assert(kept@.map_values(|q: PieceDefinition| q@) =~= kept_models.push(p@));
                }
            }
            i = i + 1;
        }
        proof {
            assert(ps.subrange(0, ps.len() as int) =~= ps);
        }
        self.pieces_left = kept;
    }

    /// Whether `piece` anchored at `(x, y)` could be placed now: its
    /// footprint fits on the board, covers no solved position, and the board
    /// currently passes the consistency check. The solver asks this before
    /// committing to a placement.
    pub fn can_place_piece(&self, piece: &PieceDefinition, x: usize, y: usize) -> (r: bool)
        requires
            self@.cells.len() == 36,
            piece_wf(piece@),
        ensures
            r == can_place_spec(self@, piece@, x as int, y as int),
    {
        let width = piece.width;
        let height = piece.height;
        if x > 6 - width || y > 6 - height {
            return false;
        }
        let mut lx: usize = 0;
        while lx < width
            invariant
                self@.cells.len() == 36,
                piece_wf(piece@),
                width == piece@.width,
                height == piece@.height,
                footprint_in_bounds(piece@, x as int, y as int),
                lx <= width,
                forall|lx2: int, ly2: int|
                    0 <= lx2 < lx && 0 <= ly2 < height ==> !(#[trigger] state_at(
                        self@,
                        x + lx2,
                        y + ly2,
                    ) is Solved),
            decreases width - lx,
        {
            let mut ly: usize = 0;
            while ly < height
                invariant
                    self@.cells.len() == 36,
                    piece_wf(piece@),
                    width == piece@.width,
                    height == piece@.height,
                    footprint_in_bounds(piece@, x as int, y as int),
                    lx < width,
                    ly <= height,
                    forall|lx2: int, ly2: int|
                        0 <= lx2 < lx && 0 <= ly2 < height ==> !(#[trigger] state_at(
                            self@,
                            x + lx2,
                            y + ly2,
                        ) is Solved),
                    forall|ly2: int|
                        0 <= ly2 < ly ==> !(#[trigger] state_at(
                            self@,
                            x + lx as int,
                            y + ly2,
                        ) is Solved),
                decreases height - ly,
            {
                let idx = (y + ly) * 6 + (x + lx);
                if let CellSolveState::Solved(_) = &self.grid[idx] {
                    proof {
                        assert(state_at(self@, x + lx as int, y + ly as int) is Solved);
                    }
                    return false;
                }
                ly = ly + 1;
            }
            lx = lx + 1;
        }
        self.check()
    }

    /// Writes the piece over its footprint without any precondition checks
    /// beyond bounds, then propagates, removes the piece from the
    /// remaining-pieces list and records its visual tiles. The caller is
    /// expected to have gated the placement with `can_place_piece`.
    pub fn place_piece_unchecked(&mut self, piece: &PieceDefinition, x: usize, y: usize)
        requires
            grid_wf(old(self)@),
            piece_wf(piece@),
            footprint_in_bounds(piece@, x as int, y as int),
        ensures
            final(self)@ == place_unchecked_spec(old(self)@, piece@, x as int, y as int),
            grid_wf(final(self)@),
    {
        let ghost g0 = self@;
        self.write_cells(piece, x, y);
        self.do_constraint_propagation();
        self.remove_piece_by_id(piece.piece_id);
        self.write_visuals(piece, x, y);
        proof {
            assert(self@ =~= place_unchecked_spec(g0, piece@, x as int, y as int));
            lemma_remove_pieces_props(g0.pieces, piece@.id);
            let out = remove_pieces_with_id(g0.pieces, piece@.id);
            assert forall|i: int| 0 <= i < out.len() implies catalog_like(#[trigger] out[i]) by {
                let k = choose|k: int| 0 <= k < g0.pieces.len() && g0.pieces[k] == out[i];
                assert(catalog_like(g0.pieces[k]));
            }
        }
    }

    /// Places `piece` with its top-left cell at `(x, y)`. Rejects a
    /// footprint off the board and any overlap with a solved position
    /// without changing the board; otherwise writes the cells, propagates,
    /// and accepts exactly when the board still passes the consistency
    /// check. An inconsistent placement is not rolled back, but the piece is
    /// only removed from the remaining-pieces list (and its tiles recorded)
    /// on success.
    pub fn place_piece(&mut self, piece: &PieceDefinition, x: usize, y: usize) -> (r: Result<
        (),
        PlaceError,
    >)
        requires
            grid_wf(old(self)@),
            piece_wf(piece@),
        ensures
            r == place_result(old(self)@, piece@, x as int, y as int),
            final(self)@ == place_after(old(self)@, piece@, x as int, y as int),
            grid_wf(final(self)@),
    {
        let ghost g0 = self@;
        let width = piece.width;
        let height = piece.height;
        if x > 6 - width || y > 6 - height {
            return Err(PlaceError::OutOfBounds);
        }
        let mut lx: usize = 0;
        while lx < width
            invariant
                self@ == g0,
                grid_wf(g0),
                piece_wf(piece@),
                width == piece@.width,
                height == piece@.height,
                footprint_in_bounds(piece@, x as int, y as int),
                lx <= width,
                forall|lx2: int, ly2: int|
                    0 <= lx2 < lx && 0 <= ly2 < height ==> !(#[trigger] state_at(
                        self@,
                        x + lx2,
                        y + ly2,
                    ) is Solved),
            decreases width - lx,
        {
            let mut ly: usize = 0;
            while ly < height
                invariant
                    self@ == g0,
                    grid_wf(g0),
                    piece_wf(piece@),
                    width == piece@.width,
                    height == piece@.height,
                    footprint_in_bounds(piece@, x as int, y as int),
                    lx < width,
                    ly <= height,
                    forall|lx2: int, ly2: int|
                        0 <= lx2 < lx && 0 <= ly2 < height ==> !(#[trigger] state_at(
                            self@,
                            x + lx2,
                            y + ly2,
                        ) is Solved),
                    forall|ly2: int|
                        0 <= ly2 < ly ==> !(#[trigger] state_at(
                            self@,
                            x + lx as int,
                            y + ly2,
                        ) is Solved),
                decreases height - ly,
            {
                let idx = (y + ly) * 6 + (x + lx);
                if let CellSolveState::Solved(_) = &self.grid[idx] {
                    proof {
                        assert(state_at(self@, x + lx as int, y + ly as int) is Solved);
                    }
                    return Err(PlaceError::Overwrite);
                }
                ly = ly + 1;
            }
            lx = lx + 1;
        }
        self.write_cells(piece, x, y);
        self.do_constraint_propagation();
        if !self.check() {
            return Err(PlaceError::InconsistentAfterPlacement);
        }
        self.remove_piece_by_id(piece.piece_id);
        self.write_visuals(piece, x, y);
        proof {
            assert(self@ =~= place_unchecked_spec(g0, piece@, x as int, y as int));
            lemma_remove_pieces_props(g0.pieces, piece@.id);
            let out = remove_pieces_with_id(g0.pieces, piece@.id);
            assert forall|i: int| 0 <= i < out.len() implies catalog_like(#[trigger] out[i]) by {
                let k = choose|k: int| 0 <= k < g0.pieces.len() && g0.pieces[k] == out[i];
                assert(catalog_like(g0.pieces[k]));
            }
        }
        Ok(())
    }

    /// Re-checks the whole board; placement is accepted only when this
    /// passes afterwards.
    pub fn check(&self) -> (r: bool)
        requires
            self@.cells.len() == 36,
        ensures
            r == check_spec(self@),
    {
        let mut y: usize = 0;
        while y < 6
            invariant
                self@.cells.len() == 36,
                y <= 6,
                forall|x2: int, y2: int|
                    0 <= x2 < 6 && 0 <= y2 < y ==> match #[trigger] state_at(self@, x2, y2) {
                        CellStateModel::Unsolved(d) => d.len() > 0,
                        CellStateModel::Solved(_) => true,
                    },
            decreases 6 - y,
        {
            let mut x: usize = 0;
            while x < 6
                invariant
                    self@.cells.len() == 36,
                    y < 6,
                    x <= 6,
                    forall|x2: int, y2: int|
                        0 <= x2 < 6 && 0 <= y2 < y ==> match #[trigger] state_at(self@, x2, y2) {
                            CellStateModel::Unsolved(d) => d.len() > 0,
                            CellStateModel::Solved(_) => true,
                        },
                    forall|x2: int|
                        0 <= x2 < x ==> match #[trigger] state_at(self@, x2, y as int) {
                            CellStateModel::Unsolved(d) => d.len() > 0,
                            CellStateModel::Solved(_) => true,
                        },
                decreases 6 - x,
            {
                if let CellSolveState::Unsolved(domain) = &self.grid[y * 6 + x] {
                    if domain.len() == 0 {
                        proof {
                            assert(state_at(self@, x as int, y as int) == CellStateModel::Unsolved(
                                domain@,
                            ));
                        }
                        return false;
                    }
                }
                x = x + 1;
            }
            y = y + 1;
        }
        let mut y: usize = 0;
        while y < 6
            invariant
                self@.cells.len() == 36,
                y <= 6,
                forall|x2: int, y2: int|
                    0 <= x2 < 6 && 0 <= y2 < 6 ==> match #[trigger] state_at(self@, x2, y2) {
                        CellStateModel::Unsolved(d) => d.len() > 0,
                        CellStateModel::Solved(_) => true,
                    },
                forall|x2: int, y2: int|
                    0 <= x2 < 6 && 0 <= y2 < y ==> match #[trigger] state_at(self@, x2, y2) {
                        CellStateModel::Solved(c) => cell_fits(self@, x2, y2, c),
                        CellStateModel::Unsolved(_) => true,
                    },
            decreases 6 - y,
        {
            let mut x: usize = 0;
            while x < 6
                invariant
                    self@.cells.len() == 36,
                    y < 6,
                    x <= 6,
                    forall|x2: int, y2: int|
                        0 <= x2 < 6 && 0 <= y2 < 6 ==> match #[trigger] state_at(self@, x2, y2) {
                            CellStateModel::Unsolved(d) => d.len() > 0,
                            CellStateModel::Solved(_) => true,
                        },
                    forall|x2: int, y2: int|
                        0 <= x2 < 6 && 0 <= y2 < y ==> match #[trigger] state_at(self@, x2, y2) {
                            CellStateModel::Solved(c) => cell_fits(self@, x2, y2, c),
                            CellStateModel::Unsolved(_) => true,
                        },
                    forall|x2: int|
                        0 <= x2 < x ==> match #[trigger] state_at(self@, x2, y as int) {
                            CellStateModel::Solved(c) => cell_fits(self@, x2, y as int, c),
                            CellStateModel::Unsolved(_) => true,
                        },
                decreases 6 - x,
            {
                if let CellSolveState::Solved(curr) = &self.grid[y * 6 + x] {
                    let curr = *curr;
                    let (nr, nt, nl, nb) = self.neighbors_around(x, y);
                    if let Some(other) = nr {
                        if curr.right != other.left {
                            return false;
                        }
                    }
                    if let Some(other) = nt {
                        if curr.top != other.bottom {
                            return false;
                        }
                    }
                    if let Some(other) = nl {
                        if curr.left != other.right {
                            return false;
                        }
                    }
                    if let Some(other) = nb {
                        if curr.bottom != other.top {
                            return false;
                        }
                    }
                }
                x = x + 1;
            }
            y = y + 1;
        }
        true
    }
}

} // verus!
