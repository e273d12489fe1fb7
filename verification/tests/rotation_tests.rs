use wave_function_collapse::catalog::get_piece_domain;
use wave_function_collapse::piece::ConnectionType::{Double, NoConnection, Straight};
use wave_function_collapse::piece::{Cell, VisualCell};
use wave_function_collapse::solver::PieceRotation;

fn sample_cell() -> Cell {
    Cell { right: Double, top: Straight, left: NoConnection, bottom: Double }
}

#[test]
fn cell_rotation_has_order_four() {
    let c = sample_cell();
    let once = c.rotate_90_ccw();
    assert_eq!(once, Cell { right: Double, top: Double, left: Straight, bottom: NoConnection });
    let four = once.rotate_90_ccw().rotate_90_ccw().rotate_90_ccw();
    assert_eq!(four, c);
    let twice = c.rotate_90_ccw().rotate_90_ccw();
    assert_eq!(twice.rotate_90_ccw().rotate_90_ccw(), c);
}

#[test]
fn default_cell_is_all_no_connection() {
    let c = Cell::default();
    assert_eq!(c.right, NoConnection);
    assert_eq!(c.top, NoConnection);
    assert_eq!(c.left, NoConnection);
    assert_eq!(c.bottom, NoConnection);
    assert_eq!(c.rotate_90_ccw(), c);
}

#[test]
fn visual_cell_rotation_adds_ninety_and_keeps_image() {
    let v = VisualCell::CellNCenter(180);
    let r = v.rotate_90_ccw();
    assert_eq!(r.angle(), 270);
    assert_eq!(r.get_image_path(), v.get_image_path());
    let o = VisualCell::Other("resources/custom.png", 90);
    let ro = o.rotate_90_ccw();
    assert_eq!(ro.angle(), 180);
    assert_eq!(ro.get_image_path(), "resources/custom.png");
    assert_eq!(VisualCell::CellEmpty.rotate_90_ccw().angle(), 0);
}

#[test]
fn image_paths_match_tile_kinds() {
    assert_eq!(VisualCell::CellEmpty.get_image_path(), "resources/cell_empty.png");
    assert_eq!(VisualCell::CellNCenter(0).get_image_path(), "resources/cell_n_center.png");
    assert_eq!(VisualCell::CellNLeft(90).get_image_path(), "resources/cell_n_left.png");
    assert_eq!(VisualCell::CellNRight(180).get_image_path(), "resources/cell_n_right.png");
    assert_eq!(VisualCell::CellStraight(270).get_image_path(), "resources/cell_straight.png");
    assert_eq!(VisualCell::CellWeird1(0).get_image_path(), "resources/cell_weird_1.png");
    assert_eq!(VisualCell::CellWeird2(0).get_image_path(), "resources/cell_weird_2.png");
}

#[test]
fn piece_rotation_swaps_dimensions_and_maps_cells() {
    let pieces = get_piece_domain();
    // The first catalog piece is 4 wide and 1 tall.
    let p = &pieces[0];
    assert_eq!(p.width, 4);
    assert_eq!(p.height, 1);
    let r = p.rotate(PieceRotation::CCW90);
    assert_eq!(r.width, 1);
    assert_eq!(r.height, 4);
    assert_eq!(r.piece_id, p.piece_id);
    // New cell in row y is the old cell in column (width - 1 - y), rotated.
    for ny in 0..4 {
        let expected = p.logical_cells[3 - ny].rotate_90_ccw();
        assert_eq!(r.logical_cells[ny], expected);
    }
}

#[test]
fn piece_rotation_round_trip_restores_logical_content() {
    let pieces = get_piece_domain();
    let turns = [
        (PieceRotation::CCW90, PieceRotation::CCW270),
        (PieceRotation::CCW180, PieceRotation::CCW180),
        (PieceRotation::CCW270, PieceRotation::CCW90),
    ];
    for p in pieces.iter() {
        for (there, back) in turns.iter() {
            let round = p.rotate(*there).rotate(*back);
            assert_eq!(round.piece_id, p.piece_id);
            assert_eq!(round.width, p.width);
            assert_eq!(round.height, p.height);
            assert_eq!(round.logical_cells, p.logical_cells);
            assert_eq!(round.visual_cells.len(), p.visual_cells.len());
            for (rv, pv) in round.visual_cells.iter().zip(p.visual_cells.iter()) {
                // The image comes back unchanged; the recorded angle gained
                // one full turn, except on the empty tile, which carries no
                // angle at all.
                assert_eq!(rv.get_image_path(), pv.get_image_path());
                if matches!(pv, VisualCell::CellEmpty) {
                    assert_eq!(rv.angle(), 0);
                } else {
                    assert_eq!(rv.angle(), pv.angle() + 360);
                }
            }
        }
    }
}

#[test]
fn rotation_by_zero_steps_is_an_equal_copy() {
    let pieces = get_piece_domain();
    for p in pieces.iter() {
        let copy = p.rotate(PieceRotation::CCW0);
        assert_eq!(copy.piece_id, p.piece_id);
        assert_eq!(copy.width, p.width);
        assert_eq!(copy.height, p.height);
        assert_eq!(copy.logical_cells, p.logical_cells);
        for (cv, pv) in copy.visual_cells.iter().zip(p.visual_cells.iter()) {
            assert_eq!(cv.get_image_path(), pv.get_image_path());
            assert_eq!(cv.angle(), pv.angle());
        }
    }
}
