//! The connector/cell vocabulary, visual tiles, and the piece catalog.

use crate::solver::PieceRotation;
use vstd::arithmetic::div_mod::lemma_fundamental_div_mod_converse;
use vstd::prelude::*;

verus! {

/// The kind of connector a cell side presents. Two touching sides match
/// exactly when they carry the same connector type.
#[derive(Debug, Clone, Copy, PartialEq, Eq, Structural, Hash)]
pub enum ConnectionType {
    NoConnection,
    Straight,
    Double,
}

/// One unit cell: a connector type on each of its four sides.
#[derive(Debug, Clone, Copy, PartialEq, Eq, Structural, Hash)]
pub struct Cell {
    pub right: ConnectionType,
    pub top: ConnectionType,
    pub left: ConnectionType,
    pub bottom: ConnectionType,
}

/// The all-`NoConnection` cell, used for every board-boundary edge.
pub open spec fn cell_empty() -> Cell {
    Cell {
        right: ConnectionType::NoConnection,
        top: ConnectionType::NoConnection,
        left: ConnectionType::NoConnection,
        bottom: ConnectionType::NoConnection,
    }
}

impl Cell {
    /// A quarter turn counterclockwise: each side takes the value of the
    /// side that rotates onto it.
    pub open spec fn spec_rotate_90_ccw(self) -> Cell {
        Cell { right: self.bottom, top: self.right, left: self.top, bottom: self.left }
    }

    pub fn rotate_90_ccw(&self) -> (r: Cell)
        ensures
            r == self.spec_rotate_90_ccw(),
    {
        Cell { right: self.bottom, top: self.right, left: self.top, bottom: self.left }
    }
}

impl Default for Cell {
    fn default() -> (c: Cell)
        ensures
            c == cell_empty(),
    {
        Cell {
            right: ConnectionType::NoConnection,
            top: ConnectionType::NoConnection,
            left: ConnectionType::NoConnection,
            bottom: ConnectionType::NoConnection,
        }
    }
}

/// `c` rotated counterclockwise `k` quarter turns.
pub open spec fn cell_rot(c: Cell, k: nat) -> Cell
    decreases k,
{
    if k == 0 {
        c
    } else {
        cell_rot(c, (k - 1) as nat).spec_rotate_90_ccw()
    }
}

/// Rotating a cell is periodic with order four: four quarter turns are the
/// identity, and so a half turn is its own inverse.
pub proof fn lemma_cell_rotation_order_four(c: Cell)
    ensures
        cell_rot(c, 4) == c,
        cell_rot(cell_rot(c, 2), 2) == c,
{
    reveal_with_fuel(cell_rot, 5);
}

/// A visual tile: which image a cell is drawn with, plus the draw-time
/// rotation angle in degrees. Rendering itself lives outside this crate;
/// the solver only carries these values along.
#[derive(Debug, Clone, Copy, PartialEq)]
pub enum VisualCell {
    CellEmpty,
    CellNCenter(u32),
    CellNLeft(u32),
    CellNRight(u32),
    CellStraight(u32),
    CellWeird1(u32),
    CellWeird2(u32),
    Other(&'static str, u32),
}

impl VisualCell {
    /// The rotation angle carried by the tile; the empty tile is never rotated.
    pub open spec fn spec_angle(self) -> u32 {
        match self {
            VisualCell::CellEmpty => 0,
            VisualCell::CellNCenter(angle) => angle,
            VisualCell::CellNLeft(angle) => angle,
            VisualCell::CellNRight(angle) => angle,
            VisualCell::CellStraight(angle) => angle,
            VisualCell::CellWeird1(angle) => angle,
            VisualCell::CellWeird2(angle) => angle,
            VisualCell::Other(_, angle) => angle,
        }
    }

    /// A quarter turn counterclockwise: the angle grows by 90 degrees and the
    /// image stays the same.
    pub open spec fn spec_rotate_90_ccw(self) -> VisualCell {
        match self {
            VisualCell::CellEmpty => VisualCell::CellEmpty,
            VisualCell::CellNCenter(angle) => VisualCell::CellNCenter((angle + 90) as u32),
            VisualCell::CellNLeft(angle) => VisualCell::CellNLeft((angle + 90) as u32),
            VisualCell::CellNRight(angle) => VisualCell::CellNRight((angle + 90) as u32),
            VisualCell::CellStraight(angle) => VisualCell::CellStraight((angle + 90) as u32),
            VisualCell::CellWeird1(angle) => VisualCell::CellWeird1((angle + 90) as u32),
            VisualCell::CellWeird2(angle) => VisualCell::CellWeird2((angle + 90) as u32),
            VisualCell::Other(path, angle) => VisualCell::Other(path, (angle + 90) as u32),
        }
    }

    pub fn angle(&self) -> (r: u32)
        ensures
            r == self.spec_angle(),
    {
        match self {
            VisualCell::CellEmpty => 0,
            VisualCell::CellNCenter(angle) => *angle,
            VisualCell::CellNLeft(angle) => *angle,
            VisualCell::CellNRight(angle) => *angle,
            VisualCell::CellStraight(angle) => *angle,
            VisualCell::CellWeird1(angle) => *angle,
            VisualCell::CellWeird2(angle) => *angle,
            VisualCell::Other(_, angle) => *angle,
        }
    }

    pub fn rotate_90_ccw(self) -> (r: VisualCell)
        requires
            self.spec_angle() + 90 <= u32::MAX,
        ensures
            r == self.spec_rotate_90_ccw(),
    {
        match self {
            VisualCell::CellEmpty => VisualCell::CellEmpty,
            VisualCell::CellNCenter(angle) => VisualCell::CellNCenter(angle + 90),
            VisualCell::CellNLeft(angle) => VisualCell::CellNLeft(angle + 90),
            VisualCell::CellNRight(angle) => VisualCell::CellNRight(angle + 90),
            VisualCell::CellStraight(angle) => VisualCell::CellStraight(angle + 90),
            VisualCell::CellWeird1(angle) => VisualCell::CellWeird1(angle + 90),
            VisualCell::CellWeird2(angle) => VisualCell::CellWeird2(angle + 90),
            VisualCell::Other(path, angle) => VisualCell::Other(path, angle + 90),
        }
    }

    /// The image resource a tile of this kind is drawn with.
    pub fn get_image_path(&self) -> (r: &'static str)
        ensures
            self is CellEmpty ==> r@ == "resources/cell_empty.png"@,
            self is CellNCenter ==> r@ == "resources/cell_n_center.png"@,
            self is CellNLeft ==> r@ == "resources/cell_n_left.png"@,
            self is CellNRight ==> r@ == "resources/cell_n_right.png"@,
            self is CellStraight ==> r@ == "resources/cell_straight.png"@,
            self is CellWeird1 ==> r@ == "resources/cell_weird_1.png"@,
            self is CellWeird2 ==> r@ == "resources/cell_weird_2.png"@,
            forall|path: &'static str, angle: u32|
                self == VisualCell::Other(path, angle) ==> r@ == path@,
    {
        match self {
            VisualCell::CellEmpty => "resources/cell_empty.png",
            VisualCell::CellNCenter(_) => "resources/cell_n_center.png",
            VisualCell::CellNLeft(_) => "resources/cell_n_left.png",
            VisualCell::CellNRight(_) => "resources/cell_n_right.png",
            VisualCell::CellStraight(_) => "resources/cell_straight.png",
            VisualCell::CellWeird1(_) => "resources/cell_weird_1.png",
            VisualCell::CellWeird2(_) => "resources/cell_weird_2.png",
            VisualCell::Other(path, _) => path,
        }
    }
}

/// `v` rotated counterclockwise `k` quarter turns (angles accumulate).
pub open spec fn visual_rot(v: VisualCell, k: nat) -> VisualCell
    decreases k,
{
    if k == 0 {
        v
    } else {
        visual_rot(v, (k - 1) as nat).spec_rotate_90_ccw()
    }
}

/// The mathematical value of a piece: its id, its dimensions, and its two
/// cell layers as row-major sequences.
#[verifier::ext_equal]
pub ghost struct PieceModel {
    pub id: int,
    pub width: int,
    pub height: int,
    pub cells: Seq<Cell>,
    pub visuals: Seq<VisualCell>,
}

impl PieceModel {
    /// The logical cell in column `x` of row `y`.
    pub open spec fn cell_at(self, x: int, y: int) -> Cell {
        self.cells[y * self.width + x]
    }

    /// The visual tile in column `x` of row `y`.
    pub open spec fn visual_at(self, x: int, y: int) -> VisualCell {
        self.visuals[y * self.width + x]
    }
}

/// Both cell layers are rectangular arrays of the stated dimensions, which
/// fit on the 6x6 board.
pub open spec fn piece_wf(p: PieceModel) -> bool {
    &&& 1 <= p.width <= 6
    &&& 1 <= p.height <= 6
    &&& p.cells.len() == p.width * p.height
    &&& p.visuals.len() == p.width * p.height
}

/// A piece of the catalog: a rigid rectangular group of cells. The two cell
/// layers are stored flattened in row-major order, `width * height` entries
/// each. Rotation produces a new piece value; two pieces stand for the same
/// catalog entry exactly when their ids match.
#[derive(Debug, Clone)]
pub struct PieceDefinition {
    pub piece_id: usize,
    pub width: usize,
    pub height: usize,
    pub logical_cells: Vec<Cell>,
    pub visual_cells: Vec<VisualCell>,
}

impl View for PieceDefinition {
    type V = PieceModel;

    open spec fn view(&self) -> PieceModel {
        PieceModel {
            id: self.piece_id as int,
            width: self.width as int,
            height: self.height as int,
            cells: self.logical_cells@,
            visuals: self.visual_cells@,
        }
    }
}

/// One counterclockwise quarter turn of a whole piece: the dimensions swap,
/// the arrays are transposed and reversed, and every cell is itself rotated.
/// The cell in column `x` of row `y` of the result is the cell in column
/// `width - 1 - y` of row `x` of the original, rotated a quarter turn.
pub open spec fn piece_rot90(p: PieceModel) -> PieceModel {
    PieceModel {
        id: p.id,
        width: p.height,
        height: p.width,
        cells: Seq::new(
            (p.width * p.height) as nat,
            |i: int| p.cell_at(p.width - 1 - i / p.height, i % p.height).spec_rotate_90_ccw(),
        ),
        visuals: Seq::new(
            (p.width * p.height) as nat,
            |i: int| p.visual_at(p.width - 1 - i / p.height, i % p.height).spec_rotate_90_ccw(),
        ),
    }
}

/// `p` rotated counterclockwise `k` quarter turns.
pub open spec fn piece_rot(p: PieceModel, k: nat) -> PieceModel
    decreases k,
{
    if k == 0 {
        p
    } else {
        piece_rot90(piece_rot(p, (k - 1) as nat))
    }
}

/// Every visual tile of `p` carries an angle of at most `bound` degrees.
pub open spec fn piece_angles_at_most(p: PieceModel, bound: int) -> bool {
    forall|i: int| 0 <= i < p.visuals.len() ==> (#[trigger] p.visuals[i]).spec_angle() <= bound
}

impl PieceDefinition {
    pub fn new(
        piece_id: usize,
        width: usize,
        height: usize,
        logical_cells: Vec<Cell>,
        visual_cells: Vec<VisualCell>,
    ) -> (p: PieceDefinition)
        ensures
            p@ == (PieceModel {
                id: piece_id as int,
                width: width as int,
                height: height as int,
                cells: logical_cells@,
                visuals: visual_cells@,
            }),
    {
        PieceDefinition { piece_id, width, height, logical_cells, visual_cells }
    }

    /// An equivalent copy of this piece.
    pub fn clone_piece(&self) -> (r: PieceDefinition)
        ensures
            r@ == self@,
    {
        let r = PieceDefinition {
            piece_id: self.piece_id,
            width: self.width,
            height: self.height,
            logical_cells: copy_cells(&self.logical_cells),
            visual_cells: copy_visuals(&self.visual_cells),
        };
        proof {
            assert(r@ =~= self@);
        }
        r
    }

    /// One counterclockwise quarter turn, as a new piece.
    pub fn rotate_90(&self) -> (r: PieceDefinition)
        requires
            piece_wf(self@),
            piece_angles_at_most(self@, u32::MAX - 90),
        ensures
            r@ == piece_rot90(self@),
            piece_wf(r@),
            piece_angles_at_most(r@, u32::MAX as int),
    {
        let w = self.width;
        let h = self.height;
        let ghost target = piece_rot90(self@);
        let mut cells: Vec<Cell> = Vec::new();
        let mut visuals: Vec<VisualCell> = Vec::new();
        let mut ny: usize = 0;
        while ny < w
            invariant
                piece_wf(self@),
                piece_angles_at_most(self@, u32::MAX - 90),
                w == self.width,
                h == self.height,
                target == piece_rot90(self@),
                ny <= w,
                cells@.len() == ny * h,
                visuals@.len() == ny * h,
                forall|j: int| 0 <= j < ny * h ==> cells@[j] == target.cells[j],
                forall|j: int| 0 <= j < ny * h ==> visuals@[j] == target.visuals[j],
            decreases w - ny,
        {
            let mut nx: usize = 0;
            proof {
                assert(ny * h + h <= w * h) by (nonlinear_arith)
                    requires
                        ny < w,
                        h >= 1,
                ;
            }
            while nx < h
                invariant
                    piece_wf(self@),
                    piece_angles_at_most(self@, u32::MAX - 90),
                    w == self.width,
                    h == self.height,
                    target == piece_rot90(self@),
                    ny < w,
                    nx <= h,
                    ny * h + h <= w * h,
                    cells@.len() == ny * h + nx,
                    visuals@.len() == ny * h + nx,
                    forall|j: int| 0 <= j < ny * h + nx ==> cells@[j] == target.cells[j],
                    forall|j: int| 0 <= j < ny * h + nx ==> visuals@[j] == target.visuals[j],
                decreases h - nx,
            {
                proof {
                    assert(nx * w + (w - 1 - ny) < w * h && nx * w + (w - 1 - ny) < 36)
                        by (nonlinear_arith)
                        requires
                            nx < h,
                            ny < w,
                            1 <= w <= 6,
                            h <= 6,
                    ;
                    assert(self@.cells.len() == w * h);
                    lemma_fundamental_div_mod_converse(
                        ny * h + nx,
                        h as int,
                        ny as int,
                        nx as int,
                    );
                    assert(target.cells[ny * h + nx]
                        == self@.cell_at(w - 1 - ny, nx as int).spec_rotate_90_ccw());
                    assert(target.visuals[ny * h + nx]
                        == self@.visual_at(w - 1 - ny, nx as int).spec_rotate_90_ccw());
                }
                let src = nx * w + (w - 1 - ny);
                let c = self.logical_cells[src].rotate_90_ccw();
                let v = self.visual_cells[src].rotate_90_ccw();
                cells.push(c);
                visuals.push(v);
                nx = nx + 1;
            }
            proof {
                assert((ny + 1) * h == ny * h + h) by (nonlinear_arith);
            }
            ny = ny + 1;
        }
        let r = PieceDefinition {
            piece_id: self.piece_id,
            width: h,
            height: w,
            logical_cells: cells,
            visual_cells: visuals,
        };
        proof {
            assert(w * h == h * w) by (nonlinear_arith);
            assert(r@.cells =~= target.cells);
            assert(r@.visuals =~= target.visuals);
            assert(r@ =~= target);
            assert forall|i: int| 0 <= i < r@.visuals.len() implies (#[trigger] r@.visuals[i])
                .spec_angle() <= u32::MAX by {
                let sv = self@.visual_at(self@.width - 1 - i / self@.height, i % self@.height);
                assert(r@.visuals[i] == sv.spec_rotate_90_ccw());
            }
        }
        r
    }

    /// `rotation` applied as that many counterclockwise quarter turns;
    /// zero turns yields an equivalent copy.
    pub fn rotate(&self, rotation: PieceRotation) -> (r: PieceDefinition)
        requires
            piece_wf(self@),
            piece_angles_at_most(self@, u32::MAX - 270),
        ensures
            r@ == piece_rot(self@, rotation.steps()),
            piece_wf(r@),
    {
        proof {
            reveal_with_fuel(piece_rot, 4);
            lemma_piece_rot90_wf(self@, u32::MAX - 270);
        }
        match rotation {
            PieceRotation::CCW0 => self.clone_piece(),
            PieceRotation::CCW90 => self.rotate_90(),
            PieceRotation::CCW180 => {
                let once = self.rotate_90();
                proof {
                    lemma_piece_rot90_wf(once@, u32::MAX - 180);
                }
                once.rotate_90()
            },
            PieceRotation::CCW270 => {
                let once = self.rotate_90();
                proof {
                    lemma_piece_rot90_wf(once@, u32::MAX - 180);
                }
                let twice = once.rotate_90();
                proof {
                    lemma_piece_rot90_wf(twice@, u32::MAX - 90);
                }
                twice.rotate_90()
            },
        }
    }
}

/// A quarter turn keeps a piece well formed.
pub proof fn lemma_piece_rot90_dims(p: PieceModel)
    requires
        piece_wf(p),
    ensures
        piece_wf(piece_rot90(p)),
{
    let q = piece_rot90(p);
    assert(q.cells.len() == q.width * q.height && q.visuals.len() == q.width * q.height)
        by (nonlinear_arith)
        requires
            q.cells.len() == p.width * p.height,
            q.visuals.len() == p.width * p.height,
            q.width == p.height,
            q.height == p.width,
    ;
}

/// A quarter turn keeps a piece well formed, and raises its largest visual
/// angle by at most 90 degrees.
pub proof fn lemma_piece_rot90_wf(p: PieceModel, bound: int)
    requires
        piece_wf(p),
        piece_angles_at_most(p, bound),
        0 <= bound,
        bound + 90 <= u32::MAX,
    ensures
        piece_wf(piece_rot90(p)),
        piece_angles_at_most(piece_rot90(p), bound + 90),
{
    lemma_piece_rot90_dims(p);
    let q = piece_rot90(p);
    assert forall|i: int| 0 <= i < q.visuals.len() implies (#[trigger] q.visuals[i]).spec_angle()
        <= bound + 90 by {
        let sv = p.visual_at(p.width - 1 - i / p.height, i % p.height);
        assert(q.visuals[i] == sv.spec_rotate_90_ccw());
        assert(0 <= (i % p.height) * p.width + (p.width - 1 - i / p.height)
            < p.width * p.height) by (nonlinear_arith)
            requires
                0 <= i < p.width * p.height,
                1 <= p.width,
                1 <= p.height,
        ;
    }
}

/// Where each entry of a quarter-turned piece comes from: the cell in column
/// `x` of row `y` of the result is the cell in column `width - 1 - y` of row
/// `x` of the original, rotated a quarter turn (and likewise for the tiles).
pub proof fn lemma_piece_rot90_at(p: PieceModel, x: int, y: int)
    requires
        piece_wf(p),
        0 <= x < p.height,
        0 <= y < p.width,
    ensures
        piece_rot90(p).cell_at(x, y) == p.cell_at(p.width - 1 - y, x).spec_rotate_90_ccw(),
        piece_rot90(p).visual_at(x, y) == p.visual_at(p.width - 1 - y, x).spec_rotate_90_ccw(),
{
    let h = p.height;
    let i = y * h + x;
    assert(0 <= i < p.width * p.height) by (nonlinear_arith)
        requires
            0 <= x < p.height,
            0 <= y < p.width,
            h == p.height,
            i == y * h + x,
    ;
    lemma_fundamental_div_mod_converse(i, h, y, x);
}

/// A full turn: the dimensions and the logical cells come back exactly, and
/// each visual tile keeps its image, with four more quarter turns on its
/// angle.
pub proof fn lemma_piece_rot4(p: PieceModel)
    requires
        piece_wf(p),
    ensures
        piece_rot(p, 4).id == p.id,
        piece_rot(p, 4).width == p.width,
        piece_rot(p, 4).height == p.height,
        piece_rot(p, 4).cells == p.cells,
        piece_rot(p, 4).visuals.len() == p.visuals.len(),
        forall|i: int| 0 <= i < p.visuals.len()
            ==> piece_rot(p, 4).visuals[i] == visual_rot(#[trigger] p.visuals[i], 4),
{
    reveal_with_fuel(piece_rot, 5);
    let q1 = piece_rot90(p);
    let q2 = piece_rot90(q1);
    let q3 = piece_rot90(q2);
    let q4 = piece_rot90(q3);
    lemma_piece_rot90_dims(p);
    lemma_piece_rot90_dims(q1);
    lemma_piece_rot90_dims(q2);
    lemma_piece_rot90_dims(q3);
    let w = p.width;
    let h = p.height;
    assert forall|x: int, y: int| 0 <= x < w && 0 <= y < h implies q4.cell_at(x, y)
        == cell_rot(p.cell_at(x, y), 4) && q4.visual_at(x, y) == visual_rot(
        p.visual_at(x, y),
        4,
    ) by {
        lemma_piece_rot90_at(q3, x, y);
        lemma_piece_rot90_at(q2, h - 1 - y, x);
        lemma_piece_rot90_at(q1, w - 1 - x, h - 1 - y);
        lemma_piece_rot90_at(p, y, w - 1 - x);
        reveal_with_fuel(cell_rot, 5);
        reveal_with_fuel(visual_rot, 5);
    }
    assert forall|i: int| 0 <= i < p.cells.len() implies #[trigger] q4.cells[i] == p.cells[i]
        && q4.visuals[i] == visual_rot(p.visuals[i], 4) by {
        broadcast use vstd::arithmetic::div_mod::lemma_fundamental_div_mod;
        broadcast use vstd::arithmetic::div_mod::lemma_mod_bound;

        let x = i % w;
        let y = i / w;
        assert(i == w * (i / w) + i % w);
        assert(0 <= x < w);
        assert(0 <= y < h) by (nonlinear_arith)
            requires
                0 <= i < w * h,
                0 <= x < w,
                i == w * y + x,
                1 <= w,
        ;
        assert(y * w == w * y) by (nonlinear_arith);
        assert(y * w + x == i);
        assert(q4.cell_at(x, y) == cell_rot(p.cell_at(x, y), 4));
        lemma_cell_rotation_order_four(p.cell_at(x, y));
    }
    assert(h * w == w * h) by (nonlinear_arith);
    assert(q4.cells =~= p.cells);
    assert forall|i: int| 0 <= i < p.visuals.len() implies piece_rot(p, 4).visuals[i] == visual_rot(
        #[trigger] p.visuals[i],
        4,
    ) by {
        assert(q4.cells[i] == p.cells[i]);
    }
}

/// Rotation never changes a piece's identity.
pub proof fn lemma_piece_rot_id(p: PieceModel, k: nat)
    ensures
        piece_rot(p, k).id == p.id,
    decreases k,
{
    if k > 0 {
        lemma_piece_rot_id(p, (k - 1) as nat);
    }
}

/// Rotation never changes how many cells a piece covers.
pub proof fn lemma_piece_rot_area(p: PieceModel, k: nat)
    ensures
        piece_rot(p, k).width * piece_rot(p, k).height == p.width * p.height,
    decreases k,
{
    if k > 0 {
        lemma_piece_rot_area(p, (k - 1) as nat);
        let q = piece_rot(p, (k - 1) as nat);
        assert(q.height * q.width == q.width * q.height) by (nonlinear_arith);
    }
}

/// The total number of board cells the pieces in `ps` cover.
pub open spec fn pieces_area(ps: Seq<PieceModel>) -> int
    decreases ps.len(),
{
    if ps.len() == 0 {
        0
    } else {
        pieces_area(ps.drop_last()) + ps.last().width * ps.last().height
    }
}

/// Every well-formed piece covers at least one cell.
pub proof fn lemma_pieces_area_at_least(ps: Seq<PieceModel>)
    requires
        forall|i: int| 0 <= i < ps.len() ==> piece_wf(#[trigger] ps[i]),
    ensures
        pieces_area(ps) >= ps.len(),
    decreases ps.len(),
{
    if ps.len() > 0 {
        let rest = ps.drop_last();
        assert forall|i: int| 0 <= i < rest.len() implies piece_wf(#[trigger] rest[i]) by {
            assert(rest[i] == ps[i]);
        }
        lemma_pieces_area_at_least(rest);
        assert(ps.last().width * ps.last().height >= 1) by (nonlinear_arith)
            requires
                ps.last().width >= 1,
                ps.last().height >= 1,
        ;
    }
}

/// Rotations compose additively.
pub proof fn lemma_piece_rot_adds(p: PieceModel, a: nat, b: nat)
    ensures
        piece_rot(piece_rot(p, a), b) == piece_rot(p, a + b),
    decreases b,
{
    if b > 0 {
        lemma_piece_rot_adds(p, a, (b - 1) as nat);
        assert(piece_rot(p, a + b) == piece_rot90(piece_rot(p, (a + b - 1) as nat)));
    }
}

/// Rotating a piece by `k` quarter turns and then by `4 - k` more restores
/// its dimensions and its logical content exactly; every visual tile comes
/// back with the same image and a full extra turn (360 degrees) on its
/// recorded angle.
pub proof fn lemma_piece_rotation_round_trip(p: PieceModel, k: nat)
    requires
        piece_wf(p),
        k <= 4,
    ensures
        piece_rot(piece_rot(p, k), (4 - k) as nat).id == p.id,
        piece_rot(piece_rot(p, k), (4 - k) as nat).width == p.width,
        piece_rot(piece_rot(p, k), (4 - k) as nat).height == p.height,
        piece_rot(piece_rot(p, k), (4 - k) as nat).cells == p.cells,
        piece_rot(piece_rot(p, k), (4 - k) as nat).visuals.len() == p.visuals.len(),
        forall|i: int| 0 <= i < p.visuals.len()
            ==> piece_rot(piece_rot(p, k), (4 - k) as nat).visuals[i] == visual_rot(
                #[trigger] p.visuals[i],
                4,
            ),
{
    lemma_piece_rot_adds(p, k, (4 - k) as nat);
    lemma_piece_rot4(p);
}

pub(crate) fn copy_cells(src: &Vec<Cell>) -> (out: Vec<Cell>)
    ensures
        out@ == src@,
{
    let mut out: Vec<Cell> = Vec::new();
    let mut i: usize = 0;
    while i < src.len()
        invariant
            i <= src.len(),
            out@ =~= src@.subrange(0, i as int),
        decreases src.len() - i,
    {
        out.push(src[i]);
        i = i + 1;
    }
    proof {
        assert(out@ =~= src@);
    }
    out
}

pub(crate) fn copy_visuals(src: &Vec<VisualCell>) -> (out: Vec<VisualCell>)
    ensures
        out@ == src@,
{
    let mut out: Vec<VisualCell> = Vec::new();
    let mut i: usize = 0;
    while i < src.len()
        invariant
            i <= src.len(),
            out@ =~= src@.subrange(0, i as int),
        decreases src.len() - i,
    {
        out.push(src[i]);
        i = i + 1;
    }
    proof {
        assert(out@ =~= src@);
    }
    out
}

} // verus!
