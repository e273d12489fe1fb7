//! The backtracking solver: a stack of grid snapshots plus, per depth, the
//! moves already tried and rejected at that depth. Each step either places
//! one piece (pushing a frame) or backtracks (popping one); the per-depth
//! memo of tried moves is what makes the search terminate.

use crate::catalog::{catalog_like, contains_cell, in_full_domain, lemma_no_duplicates_push};
use crate::grid::{
    area_balanced, can_place_spec, check_spec, grid_wf, lemma_place_unchecked_area,
    lemma_remove_pieces_props, lemma_solved_count_bounds, lemma_solved_count_none,
    place_unchecked_spec, solved_count, state_at, CellSolveState, Grid, GridModel,
};
use crate::piece::{copy_cells, lemma_piece_rot_id, piece_rot, Cell, VisualCell};
use vstd::prelude::*;
use vstd::set_lib::{lemma_int_range, lemma_len_subset, set_int_range};

verus! {

/// A discrete rotation of a piece, in counterclockwise quarter turns.
#[derive(Debug, Clone, Copy, PartialEq, Eq, Structural)]
pub enum PieceRotation {
    CCW0,
    CCW90,
    CCW180,
    CCW270,
}

impl PieceRotation {
    /// How many quarter turns this rotation applies.
    pub open spec fn steps(self) -> nat {
        match self {
            PieceRotation::CCW0 => 0,
            PieceRotation::CCW90 => 1,
            PieceRotation::CCW180 => 2,
            PieceRotation::CCW270 => 3,
        }
    }
}

/// The four rotations in the order the search tries them.
pub fn rotation_of_index(i: usize) -> (r: PieceRotation)
    requires
        i < 4,
    ensures
        r.steps() == i,
{
    if i == 0 {
        PieceRotation::CCW0
    } else if i == 1 {
        PieceRotation::CCW90
    } else if i == 2 {
        PieceRotation::CCW180
    } else {
        PieceRotation::CCW270
    }
}

/// A candidate action: place the piece with this id, under this rotation,
/// with its top-left cell at `(x, y)`. Also the memo key for "already tried
/// and failed at this depth".
#[derive(Debug, Clone, Copy, PartialEq, Eq, Structural)]
pub struct SolverMove {
    pub piece_id: usize,
    pub rotation: PieceRotation,
    pub x: usize,
    pub y: usize,
}

/// Every move the search can ever build: a catalog piece id and an anchor on
/// the board. There are at most 15 * 4 * 36 = 2160 such moves.
pub open spec fn move_in_universe(m: SolverMove) -> bool {
    &&& m.piece_id <= 14
    &&& m.x < 6
    &&& m.y < 6
}

/// An injective encoding of the move universe into `0 .. 2160`.
pub open spec fn move_enc(m: SolverMove) -> int {
    m.piece_id * 144 + m.rotation.steps() * 36 + m.x * 6 + m.y
}

proof fn lemma_move_enc_injective(a: SolverMove, b: SolverMove)
    requires
        move_in_universe(a),
        move_in_universe(b),
        a != b,
    ensures
        move_enc(a) != move_enc(b),
{
    if a.rotation != b.rotation {
        assert(a.rotation.steps() != b.rotation.steps());
    }
}

/// A duplicate-free list of moves from the universe has at most 2160
/// entries: the pigeonhole bound behind the termination argument.
pub proof fn lemma_tried_bounded(t: Seq<SolverMove>)
    requires
        t.no_duplicates(),
        forall|j: int| 0 <= j < t.len() ==> move_in_universe(#[trigger] t[j]),
    ensures
        t.len() <= 2160,
{
    broadcast use vstd::seq_lib::seq_to_set_is_finite;
    broadcast use vstd::set::group_set_axioms;

    let encs = t.map_values(|m: SolverMove| move_enc(m));
    assert forall|i: int, j: int|
        0 <= i < encs.len() && 0 <= j < encs.len() && i != j implies encs[i] != encs[j] by {
        lemma_move_enc_injective(t[i], t[j]);
    }
    encs.unique_seq_to_set();
    let range = set_int_range(0, 2160);
    lemma_int_range(0, 2160);
    assert forall|e: int| encs.to_set().contains(e) implies range.contains(e) by {
        let w = choose|w: int| 0 <= w < encs.len() && encs[w] == e;
        assert(move_in_universe(t[w]));
        assert(t[w].rotation.steps() <= 3);
    }
    lemma_len_subset(encs.to_set(), range);
}

/// Whether every board position is already decided.
pub open spec fn no_unsolved(g: GridModel) -> bool {
    forall|i: int| 0 <= i < 36 ==> !((#[trigger] g.cells[i]) is Unsolved)
}

/// The mathematical value of the solver: the stack of board snapshots and
/// the parallel stack of per-depth tried-move memos.
#[verifier::ext_equal]
pub ghost struct SolverModel {
    pub grids: Seq<GridModel>,
    pub tried: Seq<Seq<SolverMove>>,
}

/// The search state: the grid stack (top of stack is the working board), the
/// tried-move memo per stack depth, and a seeded random source that is
/// reserved for future tie-breaking and never consulted — the scan order is
/// deterministic.
pub struct SolverState {
    pub grid_stack: Vec<Grid>,
    pub tried_branches: Vec<Vec<SolverMove>>,
    rng: rand::rngs::SmallRng,
}

#[verifier::external_type_specification]
#[verifier::external_body]
pub struct ExSmallRng(rand::rngs::SmallRng);

/// Relies on rand's `SmallRng::seed_from_u64` for the solver's reserved
/// random source; nothing is assumed about the generator it returns.
#[verifier::external_body]
fn seeded_rng(seed: u64) -> rand::rngs::SmallRng {
    <rand::rngs::SmallRng as rand::SeedableRng>::seed_from_u64(seed)
}

impl View for SolverState {
    type V = SolverModel;

    closed spec fn view(&self) -> SolverModel {
        SolverModel {
            grids: self.grid_stack@.map_values(|g: Grid| g@),
            tried: self.tried_branches@.map_values(|t: Vec<SolverMove>| t@),
        }
    }
}

/// The solver's well-formedness: at least the root frame, one memo per
/// frame, well-formed boards that each satisfy the area conservation law,
/// duplicate-free in-universe memos, and the stack discipline — each frame
/// up the stack has exactly one piece fewer than the root, which has at most
/// the 13 catalog pieces.
pub open spec fn solver_wf(s: SolverModel) -> bool {
    &&& 1 <= s.grids.len()
    &&& s.tried.len() == s.grids.len()
    &&& forall|i: int| 0 <= i < s.grids.len() ==> grid_wf(#[trigger] s.grids[i])
    &&& forall|i: int| 0 <= i < s.grids.len() ==> area_balanced(#[trigger] s.grids[i])
    &&& forall|i: int| 0 <= i < s.tried.len() ==> (#[trigger] s.tried[i]).no_duplicates()
    &&& forall|i: int, j: int|
        0 <= i < s.tried.len() && 0 <= j < s.tried[i].len() ==> move_in_universe(
            #[trigger] s.tried[i][j],
        )
    &&& s.grids[0].pieces.len() <= 13
    &&& forall|i: int|
        0 <= i < s.grids.len() ==> (#[trigger] s.grids[i]).pieces.len() + i == s.grids[0].pieces.len()
}

/// Whether `(tx, ty)` is the position the search aims at: unsolved, with a
/// domain no larger than any other unsolved position's ("lowest entropy"),
/// and first in row-major order among those of that size.
pub open spec fn mrv_target(g: GridModel, tx: int, ty: int) -> bool {
    &&& 0 <= tx < 6 && 0 <= ty < 6
    &&& state_at(g, tx, ty) is Unsolved
    &&& forall|x2: int, y2: int|
        0 <= x2 < 6 && 0 <= y2 < 6 && #[trigger] state_at(g, x2, y2) is Unsolved ==> state_at(
            g,
            x2,
            y2,
        )->Unsolved_0.len() >= state_at(g, tx, ty)->Unsolved_0.len()
    &&& forall|x2: int, y2: int|
        0 <= x2 < 6 && 0 <= y2 < 6 && y2 * 6 + x2 < ty * 6 + tx && #[trigger] state_at(
            g,
            x2,
            y2,
        ) is Unsolved ==> state_at(g, x2, y2)->Unsolved_0.len() > state_at(
            g,
            tx,
            ty,
        )->Unsolved_0.len()
}

/// There is at most one lowest-entropy target.
pub proof fn lemma_mrv_target_unique(g: GridModel, tx1: int, ty1: int, tx2: int, ty2: int)
    requires
        mrv_target(g, tx1, ty1),
        mrv_target(g, tx2, ty2),
    ensures
        tx1 == tx2,
        ty1 == ty2,
{
    if ty1 * 6 + tx1 < ty2 * 6 + tx2 {
        assert(state_at(g, tx1, ty1)->Unsolved_0.len() > state_at(g, tx2, ty2)->Unsolved_0.len());
        assert(state_at(g, tx1, ty1)->Unsolved_0.len() >= state_at(g, tx2, ty2)->Unsolved_0.len());
    } else if ty2 * 6 + tx2 < ty1 * 6 + tx1 {
        assert(state_at(g, tx2, ty2)->Unsolved_0.len() > state_at(g, tx1, ty1)->Unsolved_0.len());
        assert(state_at(g, tx2, ty2)->Unsolved_0.len() >= state_at(g, tx1, ty1)->Unsolved_0.len());
    }
}

/// Two rotations that apply the same number of quarter turns are the same
/// rotation.
pub proof fn lemma_rotation_steps_injective(a: PieceRotation, b: PieceRotation)
    requires
        a.steps() == b.steps(),
    ensures
        a == b,
{
}

/// Whether the search could place move `m` built from piece `pi` right now:
/// `pi` names a remaining piece with `m`'s id; `m` is not yet memoized at
/// the current depth; the rotated footprint covers the lowest-entropy target
/// and supplies at least one cell of the target's domain; and the placement
/// passes `can_place_spec`. A step may pop or report `Err` only when no such
/// move exists.
pub open spec fn placeable(s0: SolverModel, m: SolverMove, pi: int) -> bool {
    let d = s0.tried.len() - 1;
    let top = s0.grids.last();
    let rotated = piece_rot(top.pieces[pi], m.rotation.steps());
    &&& s0.grids.len() >= 1
    &&& s0.tried.len() == s0.grids.len()
    &&& 0 <= pi < top.pieces.len()
    &&& top.pieces[pi].id == m.piece_id
    &&& !s0.tried[d].contains(m)
    &&& move_in_universe(m)
    &&& exists|tx: int, ty: int|
        #[trigger] mrv_target(top, tx, ty) && m.x <= tx < m.x + rotated.width && m.y <= ty < m.y
            + rotated.height && exists|i: int|
            0 <= i < state_at(top, tx, ty)->Unsolved_0.len() && rotated.cells.contains(
                #[trigger] state_at(top, tx, ty)->Unsolved_0[i],
            )
    &&& can_place_spec(top, rotated, m.x as int, m.y as int)
}

/// The search's enumeration order on candidates: piece index first, then
/// rotation, then anchor offsets under the target (larger anchor coordinate
/// means smaller offset, hence earlier).
pub open spec fn candidate_precedes(m1: SolverMove, pi1: int, m2: SolverMove, pi2: int) -> bool {
    ||| pi1 < pi2
    ||| (pi1 == pi2 && m1.rotation.steps() < m2.rotation.steps())
    ||| (pi1 == pi2 && m1.rotation.steps() == m2.rotation.steps() && m1.x > m2.x)
    ||| (pi1 == pi2 && m1.rotation.steps() == m2.rotation.steps() && m1.x == m2.x && m1.y > m2.y)
}

/// A placeable move anchors under the (unique) lowest-entropy target and
/// supplies a cell of its domain.
proof fn lemma_placeable_at_target(s0: SolverModel, m2: SolverMove, pi2: int, bx: int, by: int)
    requires
        placeable(s0, m2, pi2),
        mrv_target(s0.grids.last(), bx, by),
    ensures
        m2.x <= bx < m2.x + piece_rot(s0.grids.last().pieces[pi2], m2.rotation.steps()).width,
        m2.y <= by < m2.y + piece_rot(s0.grids.last().pieces[pi2], m2.rotation.steps()).height,
        exists|i: int|
            0 <= i < state_at(s0.grids.last(), bx, by)->Unsolved_0.len() && piece_rot(
                s0.grids.last().pieces[pi2],
                m2.rotation.steps(),
            ).cells.contains(#[trigger] state_at(s0.grids.last(), bx, by)->Unsolved_0[i]),
{
    let top = s0.grids.last();
    let rotated = piece_rot(top.pieces[pi2], m2.rotation.steps());
    let (tx, ty): (int, int) = choose|tx: int, ty: int|
        #[trigger] mrv_target(top, tx, ty) && m2.x <= tx < m2.x + rotated.width && m2.y <= ty
            < m2.y + rotated.height && exists|i: int|
            0 <= i < state_at(top, tx, ty)->Unsolved_0.len() && rotated.cells.contains(
                #[trigger] state_at(top, tx, ty)->Unsolved_0[i],
            );
    lemma_mrv_target_unique(top, tx, ty, bx, by);
}

/// One step placed a piece: the placeable move `m`, built from piece `pi` of
/// the top board, comes before every other placeable candidate in the
/// enumeration order (so the step is deterministic); the move was recorded,
/// and a new frame was pushed holding the top board with that rotated piece
/// placed.
pub open spec fn step_placed(s0: SolverModel, s1: SolverModel, m: SolverMove, pi: int) -> bool {
    let d = s0.tried.len() - 1;
    let top = s0.grids.last();
    let rotated = piece_rot(top.pieces[pi], m.rotation.steps());
    &&& placeable(s0, m, pi)
    &&& forall|m2: SolverMove, pi2: int|
        placeable(s0, m2, pi2) && !(m2 == m && pi2 == pi) ==> #[trigger] candidate_precedes(
            m,
            pi,
            m2,
            pi2,
        )
    &&& s1.tried == s0.tried.update(d, s0.tried[d].push(m)).push(Seq::<SolverMove>::empty())
    &&& s1.grids == s0.grids.push(place_unchecked_spec(top, rotated, m.x as int, m.y as int))
}

/// One step backtracked: the top frame and its memo were discarded.
pub open spec fn step_popped(s0: SolverModel, s1: SolverModel) -> bool {
    &&& s0.grids.len() >= 2
    &&& s1.grids == s0.grids.drop_last()
    &&& s1.tried == s0.tried.drop_last()
}

/// The termination measure, most significant component first: how many
/// in-universe moves depth `i` has not yet tried (plus one for the frame
/// itself), or zero where the stack is shallower than `i`.
pub open spec fn untried_comp(s: SolverModel, i: int) -> int {
    if 0 <= i < s.tried.len() {
        2161 - s.tried[i].len()
    } else {
        0
    }
}

/// Both step outcomes shrink the measure lexicographically: a placement
/// consumes one untried move at the then-top depth, and a backtrack zeroes
/// the popped depth out.
pub proof fn lemma_step_decreases(s0: SolverModel, s1: SolverModel)
    requires
        solver_wf(s0),
        ((exists|m: SolverMove, pi: int| step_placed(s0, s1, m, pi)) || step_popped(s0, s1)),
    ensures
        exists|d: int|
            0 <= d <= 13 && (forall|i: int|
                0 <= i < d ==> untried_comp(s1, i) == untried_comp(s0, i)) && 0 <= #[trigger] untried_comp(
                s1,
                d,
            ) < untried_comp(s0, d),
{
    if exists|m: SolverMove, pi: int| step_placed(s0, s1, m, pi) {
        let (m, pi): (SolverMove, int) = choose|m: SolverMove, pi: int| step_placed(s0, s1, m, pi);
        let d = s0.tried.len() - 1;
        assert(s0.grids[d].pieces.len() + d == s0.grids[0].pieces.len());
        assert(0 <= d <= 13);
        lemma_tried_bounded(s0.tried[d].push(m));
        assert(untried_comp(s1, d) == 2161 - (s0.tried[d].len() + 1));
        assert(forall|i: int| 0 <= i < d ==> untried_comp(s1, i) == untried_comp(s0, i));
        assert(0 <= untried_comp(s1, d) < untried_comp(s0, d));
    } else {
        let d = s0.tried.len() - 1;
        assert(s0.grids[d].pieces.len() + d == s0.grids[0].pieces.len());
        assert(1 <= d <= 13);
        lemma_tried_bounded(s0.tried[d]);
        assert(untried_comp(s1, d) == 0);
        assert(forall|i: int| 0 <= i < d ==> untried_comp(s1, i) == untried_comp(s0, i));
        assert(0 <= untried_comp(s1, d) < untried_comp(s0, d));
    }
}

fn contains_move(v: &Vec<SolverMove>, m: SolverMove) -> (r: bool)
    ensures
        r == v@.contains(m),
{
    let mut i: usize = 0;
    while i < v.len()
        invariant
            i <= v@.len(),
            forall|j: int| 0 <= j < i ==> v@[j] != m,
        decreases v@.len() - i,
    {
        if v[i] == m {
            return true;
        }
        i = i + 1;
    }
    false
}

/// Whether some cell of the target's domain appears in the rotated piece:
/// the cheap rejection test for an orientation that cannot supply any
/// acceptable value at the target position.
fn any_common_cell(domain: &Vec<Cell>, cells: &Vec<Cell>) -> (r: bool)
    ensures
        r == exists|i: int| 0 <= i < domain@.len() && cells@.contains(#[trigger] domain@[i]),
{
    let mut i: usize = 0;
    while i < domain.len()
        invariant
            i <= domain@.len(),
            forall|j: int| 0 <= j < i ==> !cells@.contains(#[trigger] domain@[j]),
        decreases domain@.len() - i,
    {
        if contains_cell(cells, domain[i]) {
            return true;
        }
        i = i + 1;
    }
    false
}

/// Scans the board in row-major order for the next target: the unsolved
/// position with the smallest domain, ties broken by scan order. `None`
/// means every position is already decided.
fn select_target(g: &Grid) -> (r: Option<(usize, usize)>)
    requires
        g@.cells.len() == 36,
    ensures
        r is None ==> no_unsolved(g@),
        r matches Some(pos) ==> mrv_target(g@, pos.0 as int, pos.1 as int),
{
    let mut found = false;
    let mut best_x: usize = 0;
    let mut best_y: usize = 0;
    let mut best_len: usize = 0;
    let mut y: usize = 0;
    while y < 6
        invariant
            g@.cells.len() == 36,
            y <= 6,
            !found ==> forall|x2: int, y2: int|
                0 <= x2 < 6 && 0 <= y2 < 6 && y2 * 6 + x2 < y * 6 ==> !(#[trigger] state_at(
                    g@,
                    x2,
                    y2,
                ) is Unsolved),
            found ==> best_x < 6 && best_y < 6 && best_y * 6 + best_x < y * 6 && state_at(
                g@,
                best_x as int,
                best_y as int,
            ) is Unsolved && best_len == state_at(
                g@,
                best_x as int,
                best_y as int,
            )->Unsolved_0.len(),
            found ==> forall|x2: int, y2: int|
                0 <= x2 < 6 && 0 <= y2 < 6 && y2 * 6 + x2 < y * 6 && #[trigger] state_at(
                    g@,
                    x2,
                    y2,
                ) is Unsolved ==> state_at(g@, x2, y2)->Unsolved_0.len() >= best_len,
            found ==> forall|x2: int, y2: int|
                0 <= x2 < 6 && 0 <= y2 < 6 && y2 * 6 + x2 < best_y * 6 + best_x
                    && #[trigger] state_at(g@, x2, y2) is Unsolved ==> state_at(
                    g@,
                    x2,
                    y2,
                )->Unsolved_0.len() > best_len,
        decreases 6 - y,
    {
        let mut x: usize = 0;
        while x < 6
            invariant
                g@.cells.len() == 36,
                y < 6,
                x <= 6,
                !found ==> forall|x2: int, y2: int|
                    0 <= x2 < 6 && 0 <= y2 < 6 && y2 * 6 + x2 < y * 6 + x ==> !(#[trigger] state_at(
                        g@,
                        x2,
                        y2,
                    ) is Unsolved),
                found ==> best_x < 6 && best_y < 6 && best_y * 6 + best_x < y * 6 + x && state_at(
                    g@,
                    best_x as int,
                    best_y as int,
                ) is Unsolved && best_len == state_at(
                    g@,
                    best_x as int,
                    best_y as int,
                )->Unsolved_0.len(),
                found ==> forall|x2: int, y2: int|
                    0 <= x2 < 6 && 0 <= y2 < 6 && y2 * 6 + x2 < y * 6 + x && #[trigger] state_at(
                        g@,
                        x2,
                        y2,
                    ) is Unsolved ==> state_at(g@, x2, y2)->Unsolved_0.len() >= best_len,
                found ==> forall|x2: int, y2: int|
                    0 <= x2 < 6 && 0 <= y2 < 6 && y2 * 6 + x2 < best_y * 6 + best_x
                        && #[trigger] state_at(g@, x2, y2) is Unsolved ==> state_at(
                        g@,
                        x2,
                        y2,
                    )->Unsolved_0.len() > best_len,
            decreases 6 - x,
        {
            if let CellSolveState::Unsolved(d) = &g.grid[y * 6 + x] {
                if !found || d.len() < best_len {
                    found = true;
                    best_x = x;
                    best_y = y;
                    best_len = d.len();
                }
            }
            x = x + 1;
        }
        y = y + 1;
    }
    if found {
        Some((best_x, best_y))
    } else {
        proof {
            assert forall|i: int| 0 <= i < 36 implies !((#[trigger] g@.cells[i]) is Unsolved) by {
                broadcast use vstd::arithmetic::div_mod::lemma_fundamental_div_mod;
                broadcast use vstd::arithmetic::div_mod::lemma_mod_bound;

                assert(i == 6 * (i / 6) + i % 6);
                assert(!(state_at(g@, i % 6, i / 6) is Unsolved));
            }
        }
        None
    }
}

impl SolverState {
    /// A fresh search: one frame holding the starting board, one empty memo,
    /// and the reserved random source with its fixed seed.
    pub fn new() -> (s: SolverState)
        ensures
            solver_wf(s@),
            s@.grids.len() == 1,
            s@.tried.len() == 1,
            s@.tried[0] == Seq::<SolverMove>::empty(),
            s@.grids[0].pieces == crate::catalog::catalog(),
            forall|i: int| 0 <= i < 36 ==> s@.grids[0].visuals[i] == VisualCell::CellEmpty,
            forall|x: int, y: int|
                0 <= x < 6 && 0 <= y < 6 ==> {
                    &&& #[trigger] state_at(s@.grids[0], x, y) is Unsolved
                    &&& state_at(s@.grids[0], x, y)->Unsolved_0.len() >= 1
                    &&& state_at(s@.grids[0], x, y)->Unsolved_0.no_duplicates()
                    &&& forall|c: Cell|
                        state_at(s@.grids[0], x, y)->Unsolved_0.contains(c) <==> in_full_domain(c)
                },
            forall|i: int, j: int|
                0 <= i < 36 && 0 <= j < 36 ==> s@.grids[0].cells[i] == s@.grids[0].cells[j],
            check_spec(s@.grids[0]),
    {
        let starting_grid = Grid::default();
        let mut grid_stack: Vec<Grid> = Vec::new();
        grid_stack.push(starting_grid);
        let mut tried_branches: Vec<Vec<SolverMove>> = Vec::new();
        tried_branches.push(Vec::new());
        let s = SolverState { grid_stack, tried_branches, rng: seeded_rng(69) };
        proof {
            crate::catalog::lemma_catalog_wf();
            crate::catalog::lemma_catalog_area();
            assert(s@.tried[0] =~= Seq::<SolverMove>::empty());
            assert forall|i: int| 0 <= i < 36 implies !((#[trigger] s@.grids[0].cells[i])
                is Solved) by {
                broadcast use vstd::arithmetic::div_mod::lemma_fundamental_div_mod;
                broadcast use vstd::arithmetic::div_mod::lemma_mod_bound;

                assert(i == 6 * (i / 6) + i % 6);
                assert(state_at(s@.grids[0], i % 6, i / 6) is Unsolved);
            }
            lemma_solved_count_none(s@.grids[0], 36);
        }
        s
    }

    /// The working board: the top of the stack.
    pub fn current_grid(&self) -> (g: &Grid)
        requires
            self@.grids.len() >= 1,
        ensures
            g@ == self@.grids.last(),
    {
        let i = self.grid_stack.len() - 1;
        &self.grid_stack[i]
    }

    /// Mutable access to the working board; whatever the caller writes
    /// through it replaces the top of the stack.
    pub fn current_grid_mut(&mut self) -> (g: &mut Grid)
        requires
            old(self)@.grids.len() >= 1,
        ensures
            (*g)@ == old(self)@.grids.last(),
            final(self)@.grids == old(self)@.grids.update(
                old(self)@.grids.len() - 1,
                (*final(g))@,
            ),
            final(self)@.tried == old(self)@.tried,
    {
        let i = self.grid_stack.len() - 1;
        &mut self.grid_stack[i]
    }

    /// Pushes a snapshot of the working board with a fresh memo.
    pub fn push_state(&mut self)
        requires
            old(self)@.grids.len() >= 1,
        ensures
            final(self)@.grids == old(self)@.grids.push(old(self)@.grids.last()),
            final(self)@.tried == old(self)@.tried.push(Seq::<SolverMove>::empty()),
    {
        let i = self.grid_stack.len() - 1;
        let snap = self.grid_stack[i].snapshot();
        self.grid_stack.push(snap);
        self.tried_branches.push(Vec::new());
        proof {
            assert(self@.grids =~= old(self)@.grids.push(old(self)@.grids.last()));
            assert(self@.tried =~= old(self)@.tried.push(Seq::<SolverMove>::empty()));
        }
    }

    /// One search transition. Picks the unsolved position with the smallest
    /// domain (first in row-major order on ties); tries the remaining pieces
    /// in catalog order, each rotation in turn, at every anchor that lets
    /// the rotated piece cover the target, skipping rotations that cannot
    /// supply any value in the target's domain and moves already memoized at
    /// this depth. The first candidate that passes `can_place_piece` is
    /// memoized and placed on a fresh stack frame; a backtrack (pop) happens
    /// only when no placeable candidate is left, and `Err` means the state
    /// did not change: either the board has no unsolved position left, or
    /// the root frame itself has no placeable candidate left.
    #[verifier::loop_isolation(false)]
    pub fn step_propagate(&mut self) -> (r: Result<(), ()>)
        requires
            solver_wf(old(self)@),
        ensures
            solver_wf(final(self)@),
            r is Err ==> final(self)@ == old(self)@ && (no_unsolved(old(self)@.grids.last())
                || old(self)@.grids.len() == 1),
            r is Ok ==> ((exists|m: SolverMove, pi: int|
                step_placed(old(self)@, final(self)@, m, pi)) || step_popped(
                old(self)@,
                final(self)@,
            )),
            (r is Err || step_popped(old(self)@, final(self)@)) ==> forall|
                m2: SolverMove,
                pi2: int,
            | !placeable(old(self)@, m2, pi2),
            no_unsolved(old(self)@.grids.last()) ==> r is Err,
    {
        let ghost s0 = self@;
        let ghost top0 = s0.grids.last();
        proof {
            assert(grid_wf(s0.grids[s0.grids.len() - 1]));
        }
        let top = self.current_grid();
        let target = select_target(top);
        let (best_x, best_y) = match target {
            Some(pos) => {
                proof {
                    assert(top0.cells[pos.1 * 6 + pos.0] is Unsolved);
                    assert(!no_unsolved(top0));
                }
                pos
            },
            None => {
                proof {
                    assert forall|m2: SolverMove, pi2: int| !placeable(s0, m2, pi2) by {
                        if placeable(s0, m2, pi2) {
                            let rotated = piece_rot(top0.pieces[pi2], m2.rotation.steps());
                            let (tx, ty): (int, int) = choose|tx: int, ty: int|
                                #[trigger] mrv_target(top0, tx, ty) && m2.x <= tx < m2.x
                                    + rotated.width && m2.y <= ty < m2.y + rotated.height && exists|
                                    i: int,
                                |
                                    0 <= i < state_at(top0, tx, ty)->Unsolved_0.len()
                                        && rotated.cells.contains(
                                        #[trigger] state_at(top0, tx, ty)->Unsolved_0[i],
                                    );
                            assert(top0.cells[ty * 6 + tx] is Unsolved);
                        }
                    }
                }
                return Err(());
            },
        };
        let target_domain = {
            let idx = best_y * 6 + best_x;
            match &top.grid[idx] {
                CellSolveState::Unsolved(d) => copy_cells(d),
                CellSolveState::Solved(_) => {
                    proof {
                        assert(false);
                    }
                    Vec::new()
                },
            }
        };
        proof {
            assert(target_domain@ == state_at(
                top0,
                best_x as int,
                best_y as int,
            )->Unsolved_0);
            assert forall|tx: int, ty: int| #[trigger] mrv_target(top0, tx, ty) implies tx
                == best_x && ty == best_y by {
                lemma_mrv_target_unique(top0, tx, ty, best_x as int, best_y as int);
            }
        }
        let piece_count = self.current_grid().pieces_left.len();
        proof {
            assert(piece_count == top0.pieces.len());
        }
        let mut pi: usize = 0;
        while pi < piece_count
            invariant
                self@ == s0,
                forall|m2: SolverMove, pj: int|
                    0 <= pj < pi ==> !(#[trigger] placeable(s0, m2, pj)),
            decreases piece_count - pi,
        {
            let piece = {
                let cur = self.current_grid();
                cur.pieces_left[pi].clone_piece()
            };
            proof {
                assert(catalog_like(top0.pieces[pi as int]));
                assert(piece@ == top0.pieces[pi as int]);
            }
            let mut ri: usize = 0;
            while ri < 4
                invariant
                    self@ == s0,
                    pi < piece_count,
                    ri <= 4,
                    piece@ == top0.pieces[pi as int],
                    forall|m2: SolverMove|
                        m2.rotation.steps() < ri ==> !(#[trigger] placeable(s0, m2, pi as int)),
                decreases 4 - ri,
            {
                let rotation = rotation_of_index(ri);
                let perm = piece.rotate(rotation);
                proof {
                    lemma_piece_rot_id(piece@, rotation.steps());
                }
                if any_common_cell(&target_domain, &perm.logical_cells) {
                    proof {
                        assert forall|m2: SolverMove|
                            m2.rotation.steps() == ri && best_x - m2.x < 0 implies !(
                        #[trigger] placeable(s0, m2, pi as int)) by {
                            if placeable(s0, m2, pi as int) {
                                lemma_placeable_at_target(
                                    s0,
                                    m2,
                                    pi as int,
                                    best_x as int,
                                    best_y as int,
                                );
                            }
                        }
                    }
                    let mut lx: usize = 0;
                    while lx < perm.width
                        invariant
                            self@ == s0,
                            pi < piece_count,
                            piece@ == top0.pieces[pi as int],
                            perm@ == piece_rot(top0.pieces[pi as int], rotation.steps()),
                            crate::piece::piece_wf(perm@),
                            perm@.id == top0.pieces[pi as int].id,
                            lx <= perm.width,
                            forall|m2: SolverMove|
                                m2.rotation.steps() == ri && best_x - m2.x < lx ==> !(
                                #[trigger] placeable(s0, m2, pi as int)),
                        decreases perm.width - lx,
                    {
                        proof {
                            assert forall|m2: SolverMove|
                                m2.rotation.steps() == ri && best_x - m2.x == lx && best_y - m2.y
                                    < 0 implies !(#[trigger] placeable(s0, m2, pi as int)) by {
                                if placeable(s0, m2, pi as int) {
                                    lemma_placeable_at_target(
                                        s0,
                                        m2,
                                        pi as int,
                                        best_x as int,
                                        best_y as int,
                                    );
                                }
                            }
                        }
                        let mut ly: usize = 0;
                        while ly < perm.height
                            invariant
                                self@ == s0,
                                pi < piece_count,
                                piece@ == top0.pieces[pi as int],
                                perm@ == piece_rot(top0.pieces[pi as int], rotation.steps()),
                                crate::piece::piece_wf(perm@),
                                perm@.id == top0.pieces[pi as int].id,
                                lx < perm.width,
                                ly <= perm.height,
                                forall|m2: SolverMove|
                                    m2.rotation.steps() == ri && best_x - m2.x < lx ==> !(
                                    #[trigger] placeable(s0, m2, pi as int)),
                                forall|m2: SolverMove|
                                    m2.rotation.steps() == ri && best_x - m2.x == lx && best_y
                                        - m2.y < ly ==> !(#[trigger] placeable(s0, m2, pi as int)),
                            decreases perm.height - ly,
                        {
                            if lx <= best_x && ly <= best_y {
                                let mv = SolverMove {
                                    piece_id: piece.piece_id,
                                    rotation,
                                    x: best_x - lx,
                                    y: best_y - ly,
                                };
                                let ti = self.tried_branches.len() - 1;
                                let already = contains_move(&self.tried_branches[ti], mv);
                                let can_place = if already {
                                    false
                                } else {
                                    let cur = self.current_grid();
                                    cur.can_place_piece(&perm, mv.x, mv.y)
                                };
                                {
                                    if can_place {
                                        let ghost d = s0.tried.len() - 1;
                                        proof {
                                            lemma_no_duplicates_push(s0.tried[d], mv);
                                        }
                                        match self.tried_branches.pop() {
                                            Some(mut memo) => {
                                                memo.push(mv);
                                                self.tried_branches.push(memo);
                                            },
                                            None => {
                                                proof {
                                                    assert(false);
                                                }
                                            },
                                        }
                                        proof {
                                            assert(self@.grids == s0.grids);
                                            assert(self@.tried =~~= s0.tried.update(
                                                d,
                                                s0.tried[d].push(mv),
                                            ));
                                        }
                                        let mut new_top = {
                                            let i = self.grid_stack.len() - 1;
                                            self.grid_stack[i].snapshot()
                                        };
                                        proof {
                                            assert(new_top@ == top0);
                                        }
                                        new_top.place_piece_unchecked(&perm, mv.x, mv.y);
                                        self.grid_stack.push(new_top);
                                        self.tried_branches.push(Vec::new());
                                        proof {
                                            let s1 = self@;
                                            let placed = place_unchecked_spec(
                                                top0,
                                                perm@,
                                                mv.x as int,
                                                mv.y as int,
                                            );
                                            assert(s1.grids =~~= s0.grids.push(placed));
                                            assert(s1.tried =~~= s0.tried.update(
                                                d,
                                                s0.tried[d].push(mv),
                                            ).push(Seq::<SolverMove>::empty()));
                                            let w = choose|i: int|
                                                0 <= i < target_domain@.len()
                                                    && perm.logical_cells@.contains(
                                                    target_domain@[i],
                                                );
                                            assert(perm@.cells.contains(
                                                state_at(
                                                    top0,
                                                    best_x as int,
                                                    best_y as int,
                                                )->Unsolved_0[w],
                                            ));
                                            assert(mrv_target(
                                                top0,
                                                best_x as int,
                                                best_y as int,
                                            ));
                                            assert(mv.x <= best_x < mv.x + perm@.width);
                                            assert(mv.y <= best_y < mv.y + perm@.height);
                                            assert(placeable(s0, mv, pi as int));
                                            assert forall|m2: SolverMove, pi2: int|
                                                placeable(s0, m2, pi2) && !(m2 == mv && pi2
                                                    == pi) implies #[trigger] candidate_precedes(
                                                mv,
                                                pi as int,
                                                m2,
                                                pi2,
                                            ) by {
                                                if placeable(s0, m2, pi2) && pi2 == pi {
                                                    if m2.rotation.steps() == ri {
                                                        if best_x - m2.x == lx && best_y - m2.y
                                                            == ly {
                                                            lemma_rotation_steps_injective(
                                                                m2.rotation,
                                                                rotation,
                                                            );
                                                            assert(m2 == mv);
                                                        }
                                                    }
                                                }
                                            }
                                            assert(step_placed(s0, s1, mv, pi as int));
                                            lemma_remove_pieces_props(top0.pieces, perm@.id);
                                            assert(top0.pieces[pi as int].id == perm@.id);
                                            assert(placed.pieces.len() == top0.pieces.len() - 1);
                                            let n = s0.grids.len();
                                            assert(top0 == s0.grids[n - 1]);
                                            assert(top0.pieces.len() + (n - 1)
                                                == s0.grids[0].pieces.len());
                                            assert forall|i: int|
                                                0 <= i < s1.grids.len() implies grid_wf(
                                                #[trigger] s1.grids[i],
                                            ) by {
                                                if i < n {
                                                    assert(s1.grids[i] == s0.grids[i]);
                                                }
                                            }
                                            assert forall|i: int|
                                                0 <= i < s1.tried.len() implies (
                                            #[trigger] s1.tried[i]).no_duplicates() by {
                                                if i < d {
                                                    assert(s1.tried[i] == s0.tried[i]);
                                                }
                                            }
                                            crate::piece::lemma_piece_rot_area(
                                                piece@,
                                                rotation.steps(),
                                            );
                                            lemma_place_unchecked_area(
                                                top0,
                                                perm@,
                                                mv.x as int,
                                                mv.y as int,
                                                pi as int,
                                            );
                                            assert forall|i: int|
                                                0 <= i < s1.grids.len() implies area_balanced(
                                                #[trigger] s1.grids[i],
                                            ) by {
                                                if i < n {
                                                    assert(s1.grids[i] == s0.grids[i]);
                                                }
                                            }
                                            assert(solver_wf(s1));
                                        }
                                        return Ok(());
                                    }
                                }
                                proof {
                                    assert forall|m2: SolverMove|
                                        m2.rotation.steps() == ri && best_x - m2.x == lx && best_y
                                            - m2.y == ly implies !(#[trigger] placeable(
                                        s0,
                                        m2,
                                        pi as int,
                                    )) by {
                                        if placeable(s0, m2, pi as int) {
                                            lemma_rotation_steps_injective(m2.rotation, rotation);
                                            assert(m2.piece_id == top0.pieces[pi as int].id);
                                            assert(m2 == mv);
                                            if already {
                                                assert(s0.tried[s0.tried.len() - 1].contains(mv));
                                            } else {
                                                assert(!can_place_spec(
                                                    top0,
                                                    perm@,
                                                    mv.x as int,
                                                    mv.y as int,
                                                ));
                                            }
                                        }
                                    }
                                }
                            }
                            proof {
                                assert forall|m2: SolverMove|
                                    m2.rotation.steps() == ri && best_x - m2.x == lx && best_y
                                        - m2.y == ly implies !(#[trigger] placeable(
                                    s0,
                                    m2,
                                    pi as int,
                                )) by {
                                    if placeable(s0, m2, pi as int) {
                                        assert(lx <= best_x && ly <= best_y);
                                    }
                                }
                            }
                            ly = ly + 1;
                        }
                        proof {
                            assert forall|m2: SolverMove|
                                m2.rotation.steps() == ri && best_x - m2.x == lx implies !(
                            #[trigger] placeable(s0, m2, pi as int)) by {
                                if placeable(s0, m2, pi as int) {
                                    lemma_placeable_at_target(
                                        s0,
                                        m2,
                                        pi as int,
                                        best_x as int,
                                        best_y as int,
                                    );
                                    assert(best_y - m2.y < perm@.height);
                                }
                            }
                        }
                        lx = lx + 1;
                    }
                    proof {
                        assert forall|m2: SolverMove| m2.rotation.steps() == ri implies !(
                        #[trigger] placeable(s0, m2, pi as int)) by {
                            if placeable(s0, m2, pi as int) {
                                lemma_placeable_at_target(
                                    s0,
                                    m2,
                                    pi as int,
                                    best_x as int,
                                    best_y as int,
                                );
                                assert(best_x - m2.x < perm@.width);
                            }
                        }
                    }
                } else {
                    proof {
                        assert forall|m2: SolverMove| m2.rotation.steps() == ri implies !(
                        #[trigger] placeable(s0, m2, pi as int)) by {
                            if placeable(s0, m2, pi as int) {
                                lemma_placeable_at_target(
                                    s0,
                                    m2,
                                    pi as int,
                                    best_x as int,
                                    best_y as int,
                                );
                                let i = choose|i: int|
                                    0 <= i < state_at(
                                        top0,
                                        best_x as int,
                                        best_y as int,
                                    )->Unsolved_0.len() && piece_rot(
                                        top0.pieces[pi as int],
                                        m2.rotation.steps(),
                                    ).cells.contains(
                                        #[trigger] state_at(
                                            top0,
                                            best_x as int,
                                            best_y as int,
                                        )->Unsolved_0[i],
                                    );
                                assert(perm.logical_cells@.contains(target_domain@[i]));
                            }
                        }
                    }
                }
                ri = ri + 1;
            }
            proof {
                assert forall|m2: SolverMove| !(#[trigger] placeable(s0, m2, pi as int)) by {
                    if placeable(s0, m2, pi as int) {
                        assert(m2.rotation.steps() < 4);
                    }
                }
            }
            pi = pi + 1;
        }
        proof {
            assert forall|m2: SolverMove, pi2: int| !(#[trigger] placeable(s0, m2, pi2)) by {
                if placeable(s0, m2, pi2) {
                    assert(0 <= pi2 < piece_count);
                }
            }
        }
        if self.grid_stack.len() == 1 {
            return Err(());
        }
        self.pop_state();
        proof {
            let s1 = self@;
            assert(step_popped(s0, s1));
            assert forall|i: int| 0 <= i < s1.grids.len() implies grid_wf(#[trigger] s1.grids[i])
                && area_balanced(#[trigger] s1.grids[i]) by {
                assert(s1.grids[i] == s0.grids[i]);
            }
            assert forall|i: int| 0 <= i < s1.tried.len() implies (
            #[trigger] s1.tried[i]).no_duplicates() by {
                assert(s1.tried[i] == s0.tried[i]);
            }
            assert(solver_wf(s1));
        }
        Ok(())
    }

    /// Drives `step_propagate` until no transition is left, then reports
    /// success exactly when the working board has no unplaced piece. The
    /// search stopped for a reason: no placement step applies to the final
    /// state. On success the board is fully decided (the area conservation
    /// law turns "no pieces left" into "every position solved"); on failure
    /// only the root frame remains, with every candidate tried and rejected.
    /// Termination is proved, not assumed: every step either consumes one
    /// untried move at its depth or discards a frame, the stack is never
    /// deeper than the catalog allows, and each depth has at most 2160
    /// distinct moves to try.
    pub fn solve(&mut self) -> (r: bool)
        requires
            solver_wf(old(self)@),
        ensures
            solver_wf(final(self)@),
            r == (final(self)@.grids.last().pieces.len() == 0),
            no_unsolved(final(self)@.grids.last()) || final(self)@.grids.len() == 1,
            forall|m: SolverMove, pi: int| !placeable(final(self)@, m, pi),
            r ==> no_unsolved(final(self)@.grids.last()),
            !r ==> final(self)@.grids.len() == 1,
    {
        loop
            invariant
                solver_wf(self@),
            ensures
                solver_wf(self@),
                no_unsolved(self@.grids.last()) || self@.grids.len() == 1,
                forall|m: SolverMove, pi: int| !placeable(self@, m, pi),
            decreases
                    untried_comp(self@, 0),
                    untried_comp(self@, 1),
                    untried_comp(self@, 2),
                    untried_comp(self@, 3),
                    untried_comp(self@, 4),
                    untried_comp(self@, 5),
                    untried_comp(self@, 6),
                    untried_comp(self@, 7),
                    untried_comp(self@, 8),
                    untried_comp(self@, 9),
                    untried_comp(self@, 10),
                    untried_comp(self@, 11),
                    untried_comp(self@, 12),
                    untried_comp(self@, 13),
        {
            let ghost s_head = self@;
            let res = self.step_propagate();
            if res.is_err() {
                break;
            }
            proof {
                lemma_step_decreases(s_head, self@);
            }
        }
        let i = self.grid_stack.len() - 1;
        let solved = self.grid_stack[i].pieces_left.len() == 0;
        proof {
            let top = self@.grids.last();
            lemma_solved_count_bounds(top, 36);
            if solved {
                assert(crate::piece::pieces_area(top.pieces) == 0);
                assert(solved_count(top, 36) == 36);
                assert forall|j: int| 0 <= j < 36 implies !((#[trigger] top.cells[j])
                    is Unsolved) by {
                    assert(top.cells[j] is Solved);
                }
            } else {
                assert forall|j: int| 0 <= j < top.pieces.len() implies crate::piece::piece_wf(
                    #[trigger] top.pieces[j],
                ) by {
                    assert(catalog_like(top.pieces[j]));
                }
                crate::piece::lemma_pieces_area_at_least(top.pieces);
                assert(solved_count(top, 36) <= 35);
                let w = choose|j: int| 0 <= j < 36 && !((#[trigger] top.cells[j]) is Solved);
                assert(top.cells[w] is Unsolved);
                assert(!no_unsolved(top));
            }
        }
        solved
    }

    /// Discards the top frame and its memo: one forced backtrack.
    pub fn pop_state(&mut self)
        requires
            old(self)@.grids.len() >= 1,
            old(self)@.tried.len() >= 1,
        ensures
            final(self)@.grids == old(self)@.grids.drop_last(),
            final(self)@.tried == old(self)@.tried.drop_last(),
    {
        let _popped_grid = self.grid_stack.pop();
        let _popped_memo = self.tried_branches.pop();
        proof {
            assert(self@.grids =~= old(self)@.grids.drop_last());
            assert(self@.tried =~= old(self)@.tried.drop_last());
        }
    }
}

} // verus!
