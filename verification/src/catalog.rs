//! The fixed piece catalog: thirteen pieces with ids 1 through 14 (the 2x2
//! piece stands for both 10 and 11), and the full cell domain derived from
//! them.

use crate::piece::ConnectionType::{Double, NoConnection, Straight};
use crate::piece::{
    cell_empty, cell_rot, piece_angles_at_most, piece_wf, Cell, ConnectionType, PieceDefinition,
    PieceModel, VisualCell,
};
use vstd::arithmetic::div_mod::lemma_fundamental_div_mod_converse;
use vstd::prelude::*;

verus! {

/// A cell from its four connector types, in the order right, top, left,
/// bottom.
pub open spec fn conn_cell(
    right: ConnectionType,
    top: ConnectionType,
    left: ConnectionType,
    bottom: ConnectionType,
) -> Cell {
    Cell { right, top, left, bottom }
}

fn cell_new(
    right: ConnectionType,
    top: ConnectionType,
    left: ConnectionType,
    bottom: ConnectionType,
) -> (c: Cell)
    ensures
        c == conn_cell(right, top, left, bottom),
{
    Cell { right, top, left, bottom }
}

pub open spec fn piece_model_01() -> PieceModel {
    PieceModel {
        id: 1,
        width: 4,
        height: 1,
        cells: seq![
            cell_empty(),
            cell_empty(),
            conn_cell(NoConnection, NoConnection, NoConnection, Double),
            conn_cell(NoConnection, NoConnection, NoConnection, Double),
        ],
        visuals: seq![
            VisualCell::CellEmpty,
            VisualCell::CellEmpty,
            VisualCell::CellNRight(0),
            VisualCell::CellNLeft(0),
        ],
    }
}

pub open spec fn piece_model_02() -> PieceModel {
    PieceModel {
        id: 2,
        width: 1,
        height: 3,
        cells: seq![
            conn_cell(NoConnection, Double, NoConnection, NoConnection),
            conn_cell(NoConnection, NoConnection, Double, NoConnection),
            conn_cell(Double, NoConnection, NoConnection, Straight),
        ],
        visuals: seq![
            VisualCell::CellNCenter(180),
            VisualCell::CellNLeft(270),
            VisualCell::CellNLeft(90),
        ],
    }
}

pub open spec fn piece_model_03() -> PieceModel {
    PieceModel {
        id: 3,
        width: 1,
        height: 3,
        cells: seq![
            conn_cell(NoConnection, Double, Straight, NoConnection),
            cell_empty(),
            cell_empty(),
        ],
        visuals: seq![VisualCell::CellNRight(180), VisualCell::CellEmpty, VisualCell::CellEmpty],
    }
}

pub open spec fn piece_model_04() -> PieceModel {
    PieceModel {
        id: 4,
        width: 1,
        height: 3,
        cells: seq![
            conn_cell(Double, NoConnection, NoConnection, NoConnection),
            cell_empty(),
            conn_cell(NoConnection, NoConnection, NoConnection, Double),
        ],
        visuals: seq![
            VisualCell::CellNLeft(90),
            VisualCell::CellStraight(0),
            VisualCell::CellNCenter(0),
        ],
    }
}

pub open spec fn piece_model_05() -> PieceModel {
    PieceModel {
        id: 5,
        width: 3,
        height: 1,
        cells: seq![
            conn_cell(NoConnection, NoConnection, NoConnection, Double),
            conn_cell(NoConnection, Double, NoConnection, NoConnection),
            cell_empty(),
        ],
        visuals: seq![
            VisualCell::CellNRight(0),
            VisualCell::CellNRight(180),
            VisualCell::CellEmpty,
        ],
    }
}

pub open spec fn piece_model_06() -> PieceModel {
    PieceModel {
        id: 6,
        width: 3,
        height: 1,
        cells: seq![
            conn_cell(NoConnection, Double, NoConnection, NoConnection),
            conn_cell(NoConnection, NoConnection, NoConnection, Double),
            cell_empty(),
        ],
        visuals: seq![VisualCell::CellNLeft(180), VisualCell::CellNLeft(0), VisualCell::CellEmpty],
    }
}

pub open spec fn piece_model_07() -> PieceModel {
    PieceModel {
        id: 7,
        width: 2,
        height: 1,
        cells: seq![
            conn_cell(NoConnection, Straight, Double, NoConnection),
            conn_cell(NoConnection, Straight, NoConnection, Double),
        ],
        visuals: seq![VisualCell::CellNLeft(270), VisualCell::CellNCenter(0)],
    }
}

pub open spec fn piece_model_08() -> PieceModel {
    PieceModel {
        id: 8,
        width: 1,
        height: 3,
        cells: seq![
            conn_cell(NoConnection, Double, NoConnection, NoConnection),
            cell_empty(),
            conn_cell(NoConnection, NoConnection, Straight, NoConnection),
        ],
        visuals: seq![
            VisualCell::CellNCenter(180),
            VisualCell::CellNCenter(0),
            VisualCell::CellNRight(180),
        ],
    }
}

pub open spec fn piece_model_09() -> PieceModel {
    PieceModel {
        id: 9,
        width: 2,
        height: 1,
        cells: seq![cell_empty(), cell_empty()],
        visuals: seq![VisualCell::CellEmpty, VisualCell::CellEmpty],
    }
}

/// The 2x2 piece labeled "10/11" in the catalog artwork; it carries the
/// single id 10.
pub open spec fn piece_model_10() -> PieceModel {
    PieceModel {
        id: 10,
        width: 2,
        height: 2,
        cells: seq![
            conn_cell(NoConnection, Double, NoConnection, NoConnection),
            conn_cell(Straight, NoConnection, NoConnection, NoConnection),
            cell_empty(),
            cell_empty(),
        ],
        visuals: seq![
            VisualCell::CellWeird1(0),
            VisualCell::CellNRight(0),
            VisualCell::CellEmpty,
            VisualCell::CellWeird2(0),
        ],
    }
}

pub open spec fn piece_model_12() -> PieceModel {
    PieceModel {
        id: 12,
        width: 1,
        height: 2,
        cells: seq![
            conn_cell(NoConnection, NoConnection, Straight, NoConnection),
            conn_cell(Straight, NoConnection, NoConnection, NoConnection),
        ],
        visuals: seq![VisualCell::CellNLeft(0), VisualCell::CellNLeft(180)],
    }
}

pub open spec fn piece_model_13() -> PieceModel {
    PieceModel {
        id: 13,
        width: 2,
        height: 1,
        cells: seq![
            conn_cell(NoConnection, Straight, NoConnection, NoConnection),
            conn_cell(Straight, NoConnection, NoConnection, NoConnection),
        ],
        visuals: seq![VisualCell::CellNRight(90), VisualCell::CellNCenter(270)],
    }
}

pub open spec fn piece_model_14() -> PieceModel {
    PieceModel {
        id: 14,
        width: 2,
        height: 1,
        cells: seq![
            conn_cell(NoConnection, Straight, NoConnection, NoConnection),
            conn_cell(NoConnection, Straight, NoConnection, NoConnection),
        ],
        visuals: seq![VisualCell::CellNRight(90), VisualCell::CellNLeft(270)],
    }
}

/// The catalog in search order.
pub open spec fn catalog() -> Seq<PieceModel> {
    seq![
        piece_model_01(),
        piece_model_02(),
        piece_model_03(),
        piece_model_04(),
        piece_model_05(),
        piece_model_06(),
        piece_model_07(),
        piece_model_08(),
        piece_model_09(),
        piece_model_10(),
        piece_model_12(),
        piece_model_13(),
        piece_model_14(),
    ]
}

/// What every piece drawn from the catalog looks like: well formed, with an
/// id between 1 and 14, and with every visual angle at most 270 degrees.
pub open spec fn catalog_like(p: PieceModel) -> bool {
    &&& piece_wf(p)
    &&& 1 <= p.id <= 14
    &&& piece_angles_at_most(p, 270)
}

/// The product of two small concrete dimensions, spelled out so that the
/// catalog proofs need no nonlinear reasoning of their own.
proof fn lemma_dims_product(w: int, h: int)
    requires
        1 <= w <= 6,
        1 <= h <= 6,
    ensures
        h == 1 ==> w * h == w,
        w == 1 ==> w * h == h,
        w == 2 && h == 2 ==> w * h == 4,
{
    assert((h == 1 ==> w * h == w) && (w == 1 ==> w * h == h) && (w == 2 && h == 2 ==> w * h
        == 4)) by (nonlinear_arith);
}

proof fn lemma_catalog_like_01_07()
    ensures
        catalog_like(piece_model_01()),
        catalog_like(piece_model_02()),
        catalog_like(piece_model_03()),
        catalog_like(piece_model_04()),
        catalog_like(piece_model_05()),
        catalog_like(piece_model_06()),
        catalog_like(piece_model_07()),
{
    lemma_dims_product(4, 1);
    lemma_dims_product(1, 3);
    lemma_dims_product(3, 1);
    lemma_dims_product(2, 1);
}

proof fn lemma_catalog_like_08_14()
    ensures
        catalog_like(piece_model_08()),
        catalog_like(piece_model_09()),
        catalog_like(piece_model_10()),
        catalog_like(piece_model_12()),
        catalog_like(piece_model_13()),
        catalog_like(piece_model_14()),
{
    lemma_dims_product(1, 3);
    lemma_dims_product(2, 1);
    lemma_dims_product(2, 2);
    lemma_dims_product(1, 2);
}

fn build_piece_01() -> (p: PieceDefinition)
    ensures
        p@ == piece_model_01(),
{
    let mut cells: Vec<Cell> = Vec::new();
    cells.push(cell_new(NoConnection, NoConnection, NoConnection, NoConnection));
    cells.push(cell_new(NoConnection, NoConnection, NoConnection, NoConnection));
    cells.push(cell_new(NoConnection, NoConnection, NoConnection, Double));
    cells.push(cell_new(NoConnection, NoConnection, NoConnection, Double));
    let mut vis: Vec<VisualCell> = Vec::new();
    vis.push(VisualCell::CellEmpty);
    vis.push(VisualCell::CellEmpty);
    vis.push(VisualCell::CellNRight(0));
    vis.push(VisualCell::CellNLeft(0));
    let p = PieceDefinition::new(1, 4, 1, cells, vis);
    proof {
        assert(p@.cells =~= piece_model_01().cells);
        assert(p@.visuals =~= piece_model_01().visuals);
        assert(p@ =~= piece_model_01());
    }
    p
}

fn build_piece_02() -> (p: PieceDefinition)
    ensures
        p@ == piece_model_02(),
{
    let mut cells: Vec<Cell> = Vec::new();
    cells.push(cell_new(NoConnection, Double, NoConnection, NoConnection));
    cells.push(cell_new(NoConnection, NoConnection, Double, NoConnection));
    cells.push(cell_new(Double, NoConnection, NoConnection, Straight));
    let mut vis: Vec<VisualCell> = Vec::new();
    vis.push(VisualCell::CellNCenter(180));
    vis.push(VisualCell::CellNLeft(270));
    vis.push(VisualCell::CellNLeft(90));
    let p = PieceDefinition::new(2, 1, 3, cells, vis);
    proof {
        assert(p@.cells =~= piece_model_02().cells);
        assert(p@.visuals =~= piece_model_02().visuals);
        assert(p@ =~= piece_model_02());
    }
    p
}

fn build_piece_03() -> (p: PieceDefinition)
    ensures
        p@ == piece_model_03(),
{
    let mut cells: Vec<Cell> = Vec::new();
    cells.push(cell_new(NoConnection, Double, Straight, NoConnection));
    cells.push(cell_new(NoConnection, NoConnection, NoConnection, NoConnection));
    cells.push(cell_new(NoConnection, NoConnection, NoConnection, NoConnection));
    let mut vis: Vec<VisualCell> = Vec::new();
    vis.push(VisualCell::CellNRight(180));
    vis.push(VisualCell::CellEmpty);
    vis.push(VisualCell::CellEmpty);
    let p = PieceDefinition::new(3, 1, 3, cells, vis);
    proof {
        assert(p@.cells =~= piece_model_03().cells);
        assert(p@.visuals =~= piece_model_03().visuals);
        assert(p@ =~= piece_model_03());
    }
    p
}

fn build_piece_04() -> (p: PieceDefinition)
    ensures
        p@ == piece_model_04(),
{
    let mut cells: Vec<Cell> = Vec::new();
    cells.push(cell_new(Double, NoConnection, NoConnection, NoConnection));
    cells.push(cell_new(NoConnection, NoConnection, NoConnection, NoConnection));
    cells.push(cell_new(NoConnection, NoConnection, NoConnection, Double));
    let mut vis: Vec<VisualCell> = Vec::new();
    vis.push(VisualCell::CellNLeft(90));
    vis.push(VisualCell::CellStraight(0));
    vis.push(VisualCell::CellNCenter(0));
    let p = PieceDefinition::new(4, 1, 3, cells, vis);
    proof {
        assert(p@.cells =~= piece_model_04().cells);
        assert(p@.visuals =~= piece_model_04().visuals);
        assert(p@ =~= piece_model_04());
    }
    p
}

fn build_piece_05() -> (p: PieceDefinition)
    ensures
        p@ == piece_model_05(),
{
    let mut cells: Vec<Cell> = Vec::new();
    cells.push(cell_new(NoConnection, NoConnection, NoConnection, Double));
    cells.push(cell_new(NoConnection, Double, NoConnection, NoConnection));
    cells.push(cell_new(NoConnection, NoConnection, NoConnection, NoConnection));
    let mut vis: Vec<VisualCell> = Vec::new();
    vis.push(VisualCell::CellNRight(0));
    vis.push(VisualCell::CellNRight(180));
    vis.push(VisualCell::CellEmpty);
    let p = PieceDefinition::new(5, 3, 1, cells, vis);
    proof {
        assert(p@.cells =~= piece_model_05().cells);
        assert(p@.visuals =~= piece_model_05().visuals);
        assert(p@ =~= piece_model_05());
    }
    p
}

fn build_piece_06() -> (p: PieceDefinition)
    ensures
        p@ == piece_model_06(),
{
    let mut cells: Vec<Cell> = Vec::new();
    cells.push(cell_new(NoConnection, Double, NoConnection, NoConnection));
    cells.push(cell_new(NoConnection, NoConnection, NoConnection, Double));
    cells.push(cell_new(NoConnection, NoConnection, NoConnection, NoConnection));
    let mut vis: Vec<VisualCell> = Vec::new();
    vis.push(VisualCell::CellNLeft(180));
    vis.push(VisualCell::CellNLeft(0));
    vis.push(VisualCell::CellEmpty);
    let p = PieceDefinition::new(6, 3, 1, cells, vis);
    proof {
        assert(p@.cells =~= piece_model_06().cells);
        assert(p@.visuals =~= piece_model_06().visuals);
        assert(p@ =~= piece_model_06());
    }
    p
}

fn build_piece_07() -> (p: PieceDefinition)
    ensures
        p@ == piece_model_07(),
{
    let mut cells: Vec<Cell> = Vec::new();
    cells.push(cell_new(NoConnection, Straight, Double, NoConnection));
    cells.push(cell_new(NoConnection, Straight, NoConnection, Double));
    let mut vis: Vec<VisualCell> = Vec::new();
    vis.push(VisualCell::CellNLeft(270));
    vis.push(VisualCell::CellNCenter(0));
    let p = PieceDefinition::new(7, 2, 1, cells, vis);
    proof {
        assert(p@.cells =~= piece_model_07().cells);
        assert(p@.visuals =~= piece_model_07().visuals);
        assert(p@ =~= piece_model_07());
    }
    p
}

fn build_piece_08() -> (p: PieceDefinition)
    ensures
        p@ == piece_model_08(),
{
    let mut cells: Vec<Cell> = Vec::new();
    cells.push(cell_new(NoConnection, Double, NoConnection, NoConnection));
    cells.push(cell_new(NoConnection, NoConnection, NoConnection, NoConnection));
    cells.push(cell_new(NoConnection, NoConnection, Straight, NoConnection));
    let mut vis: Vec<VisualCell> = Vec::new();
    vis.push(VisualCell::CellNCenter(180));
    vis.push(VisualCell::CellNCenter(0));
    vis.push(VisualCell::CellNRight(180));
    let p = PieceDefinition::new(8, 1, 3, cells, vis);
    proof {
        assert(p@.cells =~= piece_model_08().cells);
        assert(p@.visuals =~= piece_model_08().visuals);
        assert(p@ =~= piece_model_08());
    }
    p
}

fn build_piece_09() -> (p: PieceDefinition)
    ensures
        p@ == piece_model_09(),
{
    let mut cells: Vec<Cell> = Vec::new();
    cells.push(cell_new(NoConnection, NoConnection, NoConnection, NoConnection));
    cells.push(cell_new(NoConnection, NoConnection, NoConnection, NoConnection));
    let mut vis: Vec<VisualCell> = Vec::new();
    vis.push(VisualCell::CellEmpty);
    vis.push(VisualCell::CellEmpty);
    let p = PieceDefinition::new(9, 2, 1, cells, vis);
    proof {
        assert(p@.cells =~= piece_model_09().cells);
        assert(p@.visuals =~= piece_model_09().visuals);
        assert(p@ =~= piece_model_09());
    }
    p
}

fn build_piece_10() -> (p: PieceDefinition)
    ensures
        p@ == piece_model_10(),
{
    let mut cells: Vec<Cell> = Vec::new();
    cells.push(cell_new(NoConnection, Double, NoConnection, NoConnection));
    cells.push(cell_new(Straight, NoConnection, NoConnection, NoConnection));
    cells.push(cell_new(NoConnection, NoConnection, NoConnection, NoConnection));
    cells.push(cell_new(NoConnection, NoConnection, NoConnection, NoConnection));
    let mut vis: Vec<VisualCell> = Vec::new();
    vis.push(VisualCell::CellWeird1(0));
    vis.push(VisualCell::CellNRight(0));
    vis.push(VisualCell::CellEmpty);
    vis.push(VisualCell::CellWeird2(0));
    let p = PieceDefinition::new(10, 2, 2, cells, vis);
    proof {
        assert(p@.cells =~= piece_model_10().cells);
        assert(p@.visuals =~= piece_model_10().visuals);
        assert(p@ =~= piece_model_10());
    }
    p
}

fn build_piece_12() -> (p: PieceDefinition)
    ensures
        p@ == piece_model_12(),
{
    let mut cells: Vec<Cell> = Vec::new();
    cells.push(cell_new(NoConnection, NoConnection, Straight, NoConnection));
    cells.push(cell_new(Straight, NoConnection, NoConnection, NoConnection));
    let mut vis: Vec<VisualCell> = Vec::new();
    vis.push(VisualCell::CellNLeft(0));
    vis.push(VisualCell::CellNLeft(180));
    let p = PieceDefinition::new(12, 1, 2, cells, vis);
    proof {
        assert(p@.cells =~= piece_model_12().cells);
        assert(p@.visuals =~= piece_model_12().visuals);
        assert(p@ =~= piece_model_12());
    }
    p
}

fn build_piece_13() -> (p: PieceDefinition)
    ensures
        p@ == piece_model_13(),
{
    let mut cells: Vec<Cell> = Vec::new();
    cells.push(cell_new(NoConnection, Straight, NoConnection, NoConnection));
    cells.push(cell_new(Straight, NoConnection, NoConnection, NoConnection));
    let mut vis: Vec<VisualCell> = Vec::new();
    vis.push(VisualCell::CellNRight(90));
    vis.push(VisualCell::CellNCenter(270));
    let p = PieceDefinition::new(13, 2, 1, cells, vis);
    proof {
        assert(p@.cells =~= piece_model_13().cells);
        assert(p@.visuals =~= piece_model_13().visuals);
        assert(p@ =~= piece_model_13());
    }
    p
}

fn build_piece_14() -> (p: PieceDefinition)
    ensures
        p@ == piece_model_14(),
{
    let mut cells: Vec<Cell> = Vec::new();
    cells.push(cell_new(NoConnection, Straight, NoConnection, NoConnection));
    cells.push(cell_new(NoConnection, Straight, NoConnection, NoConnection));
    let mut vis: Vec<VisualCell> = Vec::new();
    vis.push(VisualCell::CellNRight(90));
    vis.push(VisualCell::CellNLeft(270));
    let p = PieceDefinition::new(14, 2, 1, cells, vis);
    proof {
        assert(p@.cells =~= piece_model_14().cells);
        assert(p@.visuals =~= piece_model_14().visuals);
        assert(p@ =~= piece_model_14());
    }
    p
}

/// The full catalog, freshly built, in catalog order.
pub fn get_piece_domain() -> (v: Vec<PieceDefinition>)
    ensures
        v@.len() == catalog().len(),
        forall|i: int| 0 <= i < v@.len() ==> (#[trigger] v@[i])@ == catalog()[i],
{
    let mut v: Vec<PieceDefinition> = Vec::new();
    v.push(build_piece_01());
    v.push(build_piece_02());
    v.push(build_piece_03());
    v.push(build_piece_04());
    v.push(build_piece_05());
    v.push(build_piece_06());
    v.push(build_piece_07());
    v.push(build_piece_08());
    v.push(build_piece_09());
    v.push(build_piece_10());
    v.push(build_piece_12());
    v.push(build_piece_13());
    v.push(build_piece_14());
    v
}

/// The logical cells of the first `n` catalog pieces, concatenated in
/// catalog order.
pub open spec fn catalog_cells_prefix(n: int) -> Seq<Cell>
    decreases n,
{
    if n <= 0 {
        Seq::empty()
    } else {
        catalog_cells_prefix(n - 1) + catalog()[n - 1].cells
    }
}

/// Every logical cell that appears in some catalog piece.
pub open spec fn catalog_cells() -> Seq<Cell> {
    catalog_cells_prefix(catalog().len() as int)
}

/// The `k`-quarter-turn rotation of the `j`-th catalog cell.
pub open spec fn rot_of_catalog(j: int, k: int) -> Cell {
    cell_rot(catalog_cells()[j], k as nat)
}

/// Whether `c` is some rotation of some cell of some catalog piece: the
/// membership test of the full cell domain.
pub open spec fn in_full_domain(c: Cell) -> bool {
    exists|j: int, k: int|
        0 <= j < catalog_cells().len() && 0 <= k < 4 && c == #[trigger] rot_of_catalog(j, k)
}

/// The full cell domain holds the empty cell (the two-cell blank piece is
/// made of nothing else).
pub proof fn lemma_full_domain_nonempty()
    ensures
        in_full_domain(cell_empty()),
{
    reveal_with_fuel(catalog_cells_prefix, 14);
    assert(catalog_cells_prefix(8).len() == 24);
    assert(catalog_cells()[24] == cell_empty());
    assert(0 <= 24 < catalog_cells().len());
    assert(cell_empty() == rot_of_catalog(24, 0));
}

/// Appending a fresh element keeps a sequence duplicate-free.
pub(crate) proof fn lemma_no_duplicates_push<A>(s: Seq<A>, x: A)
    requires
        s.no_duplicates(),
        !s.contains(x),
    ensures
        s.push(x).no_duplicates(),
{
    let t = s.push(x);
    assert forall|i: int, j: int| 0 <= i < t.len() && 0 <= j < t.len() && i != j implies t[i]
        != t[j] by {
        if i < s.len() && j < s.len() {
            assert(s[i] == t[i] && s[j] == t[j]);
        } else if j == s.len() && i < s.len() {
            assert(s.contains(s[i]));
        } else if i == s.len() && j < s.len() {
            assert(s.contains(s[j]));
        }
    }
}

pub(crate) fn contains_cell(v: &Vec<Cell>, c: Cell) -> (r: bool)
    ensures
        r == v@.contains(c),
{
    let mut i: usize = 0;
    while i < v.len()
        invariant
            i <= v@.len(),
            forall|j: int| 0 <= j < i ==> v@[j] != c,
        decreases v@.len() - i,
    {
        if v[i] == c {
            return true;
        }
        i = i + 1;
    }
    false
}

/// The set of all distinct cell values that can ever stand on the board:
/// every rotation of every cell of every catalog piece, deduplicated. This
/// seeds the domain of every unsolved position.
pub fn get_full_cell_domain() -> (v: Vec<Cell>)
    ensures
        v@.no_duplicates(),
        forall|c: Cell| v@.contains(c) <==> in_full_domain(c),
        v@.len() >= 1,
{
    let pieces = get_piece_domain();
    let mut all_cells: Vec<Cell> = Vec::new();
    let mut i: usize = 0;
    while i < pieces.len()
        invariant
            pieces@.len() == catalog().len(),
            forall|t: int| 0 <= t < pieces@.len() ==> (#[trigger] pieces@[t])@ == catalog()[t],
            i <= pieces@.len(),
            all_cells@ == catalog_cells_prefix(i as int),
        decreases pieces@.len() - i,
    {
        let p = &pieces[i];
        let ghost before = all_cells@;
        let mut j: usize = 0;
        while j < p.logical_cells.len()
            invariant
                p@ == catalog()[i as int],
                0 <= i < catalog().len(),
                j <= p.logical_cells@.len(),
                all_cells@ == before + p.logical_cells@.subrange(0, j as int),
            decreases p.logical_cells@.len() - j,
        {
            proof {
                assert(all_cells@.push(p.logical_cells@[j as int]) =~= before
                    + p.logical_cells@.subrange(0, j as int + 1));
            }
            all_cells.push(p.logical_cells[j]);
            j = j + 1;
        }
        proof {
            assert(before + p.logical_cells@.subrange(0, p.logical_cells@.len() as int)
                =~= catalog_cells_prefix(i as int + 1));
        }
        i = i + 1;
    }
    proof {
        assert(all_cells@ == catalog_cells());
    }
    let n = all_cells.len();
    let mut rots: Vec<Cell> = Vec::new();
    let mut j: usize = 0;
    while j < n
        invariant
            all_cells@ == catalog_cells(),
            n == all_cells@.len(),
            j <= n,
            rots@.len() == 4 * j,
            forall|m: int|
                0 <= m < rots@.len() ==> #[trigger] rots@[m] == cell_rot(
                    all_cells@[m / 4],
                    (m % 4) as nat,
                ),
        decreases n - j,
    {
        let c0 = all_cells[j];
        let c1 = c0.rotate_90_ccw();
        let c2 = c1.rotate_90_ccw();
        let c3 = c2.rotate_90_ccw();
        rots.push(c0);
        rots.push(c1);
        rots.push(c2);
        rots.push(c3);
        proof {
            reveal_with_fuel(cell_rot, 5);
            assert forall|m: int| 4 * j <= m < 4 * j + 4 implies #[trigger] rots@[m] == cell_rot(
                all_cells@[m / 4],
                (m % 4) as nat,
            ) by {
                lemma_fundamental_div_mod_converse(m, 4, j as int, m - 4 * j);
            }
        }
        j = j + 1;
    }
    let mut out: Vec<Cell> = Vec::new();
    let mut m: usize = 0;
    while m < rots.len()
        invariant
            m <= rots@.len(),
            out@.no_duplicates(),
            forall|c: Cell| out@.contains(c) <==> rots@.subrange(0, m as int).contains(c),
        decreases rots@.len() - m,
    {
        let c = rots[m];
        let ghost seen = rots@.subrange(0, m as int);
        let ghost old_out = out@;
        proof {
            broadcast use vstd::seq_lib::lemma_seq_contains_after_push;

            assert(rots@.subrange(0, m as int + 1) =~= seen.push(rots@[m as int]));
        }
        if !contains_cell(&out, c) {
            proof {
                lemma_no_duplicates_push(out@, c);
            }
            out.push(c);
        }
        proof {
            broadcast use vstd::seq_lib::lemma_seq_contains_after_push;

            assert(out@ == old_out || out@ == old_out.push(c));
            assert forall|c2: Cell| out@.contains(c2) <==> #[trigger] seen.push(
                rots@[m as int],
            ).contains(c2) by {
                if out@ == old_out.push(c) {
                    assert(out@.contains(c2) <==> c2 == c || old_out.contains(c2));
                }
            }
        }
        m = m + 1;
    }
    proof {
        assert(rots@.subrange(0, rots@.len() as int) =~= rots@);
        assert forall|c: Cell| out@.contains(c) <==> in_full_domain(c) by {
            if out@.contains(c) {
                let w = choose|w: int| 0 <= w < rots@.len() && rots@[w] == c;
                vstd::arithmetic::div_mod::lemma_mod_bound(w, 4);
                assert(0 <= w / 4 && 4 * (w / 4) <= w) by (nonlinear_arith)
                    requires
                        w >= 0,
                ;
                assert(w / 4 < n) by (nonlinear_arith)
                    requires
                        w < 4 * n,
                        4 * (w / 4) <= w,
                        w / 4 >= 0,
                ;
                assert(c == rot_of_catalog(w / 4, w % 4));
            }
            if in_full_domain(c) {
                let (jj, kk): (int, int) = choose|jj: int, kk: int|
                    0 <= jj < catalog_cells().len() && 0 <= kk < 4 && c == #[trigger] rot_of_catalog(
                        jj,
                        kk,
                    );
                let w = 4 * jj + kk;
                lemma_fundamental_div_mod_converse(w, 4, jj, kk);
                assert(w < 4 * n) by (nonlinear_arith)
                    requires
                        jj < n,
                        kk < 4,
                        w == 4 * jj + kk,
                ;
                assert(rots@[w] == c);
                assert(rots@.contains(c));
            }
        }
        lemma_full_domain_nonempty();
        let w = choose|w: int| 0 <= w < out@.len() && out@[w] == cell_empty();
    }
    out
}

/// The catalog covers the whole board: its pieces' cell counts sum to 36.
pub proof fn lemma_catalog_area()
    ensures
        crate::piece::pieces_area(catalog()) == 36,
{
    reveal_with_fuel(crate::piece::pieces_area, 15);
    lemma_dims_product(4, 1);
    lemma_dims_product(1, 3);
    lemma_dims_product(3, 1);
    lemma_dims_product(2, 1);
    lemma_dims_product(2, 2);
    lemma_dims_product(1, 2);
}

/// Shape facts about the catalog that the grid and the solver rely on.
pub proof fn lemma_catalog_wf()
    ensures
        catalog().len() == 13,
        forall|i: int| 0 <= i < 13 ==> catalog_like(#[trigger] catalog()[i]),
        forall|i: int, j: int| 0 <= i < j < 13 ==> catalog()[i].id != catalog()[j].id,
{
    lemma_catalog_like_01_07();
    lemma_catalog_like_08_14();
}

} // verus!
