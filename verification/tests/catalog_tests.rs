use wave_function_collapse::catalog::{get_full_cell_domain, get_piece_domain};
use wave_function_collapse::piece::Cell;
use wave_function_collapse::piece::ConnectionType::NoConnection;

#[test]
fn catalog_has_thirteen_pieces_with_the_fixed_ids() {
    let pieces = get_piece_domain();
    assert_eq!(pieces.len(), 13);
    let ids: Vec<usize> = pieces.iter().map(|p| p.piece_id).collect();
    assert_eq!(ids, vec![1, 2, 3, 4, 5, 6, 7, 8, 9, 10, 12, 13, 14]);
    // The merged "10/11" piece is the single 2x2 entry.
    let p10 = &pieces[9];
    assert_eq!(p10.width, 2);
    assert_eq!(p10.height, 2);
    // Every piece covers as many cells as its dimensions say, and the
    // catalog covers the whole 36-cell board exactly.
    let mut total = 0;
    for p in pieces.iter() {
        assert_eq!(p.logical_cells.len(), p.width * p.height);
        assert_eq!(p.visual_cells.len(), p.width * p.height);
        total += p.logical_cells.len();
    }
    assert_eq!(total, 36);
}

#[test]
fn full_cell_domain_has_no_duplicates_and_holds_the_empty_cell() {
    let domain = get_full_cell_domain();
    assert!(!domain.is_empty());
    for (i, a) in domain.iter().enumerate() {
        for b in domain.iter().skip(i + 1) {
            assert_ne!(a, b);
        }
    }
    let empty = Cell {
        right: NoConnection,
        top: NoConnection,
        left: NoConnection,
        bottom: NoConnection,
    };
    assert!(domain.contains(&empty));
}

#[test]
fn full_cell_domain_is_closed_under_rotation() {
    let domain = get_full_cell_domain();
    for c in domain.iter() {
        assert!(domain.contains(&c.rotate_90_ccw()));
    }
}

#[test]
fn full_cell_domain_holds_every_catalog_cell() {
    let domain = get_full_cell_domain();
    for p in get_piece_domain().iter() {
        for c in p.logical_cells.iter() {
            assert!(domain.contains(c));
        }
    }
}
