use tanakh_solver::board::Board;
use tanakh_solver::cell::Cell;
use tanakh_solver::visibility::pass_cells;

#[test]
fn test_pass_cells() {
    assert_eq!(pass_cells(0, 0, -1, 1), vec![(-1, 1), (0, 0)]);
    assert_eq!(pass_cells(0, 0, 1, 1), vec![(0, 0), (1, 1)]);

    assert_eq!(
        pass_cells(0, 0, -2, 1),
        vec![(-2, 1), (-1, 0), (-1, 1), (0, 0)]
    );
    assert_eq!(
        pass_cells(0, 0, -3, 1),
        vec![(-3, 1), (-2, 1), (-1, 0), (0, 0)]
    );

    assert_eq!(pass_cells(0, 0, 1, 2), vec![(0, 0), (0, 1), (1, 1), (1, 2)]);
    assert_eq!(pass_cells(0, 0, 1, 3), vec![(0, 0), (0, 1), (1, 2), (1, 3)]);
}

#[test]
fn pass_cells_of_upright_and_level_segments() {
    assert_eq!(pass_cells(2, 5, 2, 3), vec![(2, 3), (2, 4), (2, 5)]);
    assert_eq!(pass_cells(2, 3, 2, 3), vec![(2, 3)]);
    assert_eq!(pass_cells(0, 7, 3, 7), vec![(0, 7), (1, 7), (2, 7), (3, 7)]);
    assert_eq!(pass_cells(3, 7, 0, 7), vec![(0, 7), (1, 7), (2, 7), (3, 7)]);
}

#[test]
fn pass_cells_gives_the_same_cells_each_time() {
    let a = pass_cells(-5, 9, 12, -4);
    let b = pass_cells(-5, 9, 12, -4);
    assert_eq!(a, b);
    assert_eq!(a.first(), Some(&(-5, 9)));
    assert_eq!(a.last(), Some(&(12, -4)));
    for &(x, y) in a.iter() {
        assert!(-5 <= x && x <= 12 && -4 <= y && y <= 9);
    }
}

#[test]
fn pass_cells_at_the_limit() {
    let far = 0x1000_0000;
    assert_eq!(pass_cells(far - 1, far, far, far - 1), vec![(far - 1, far), (far, far - 1)]);
    let steep = pass_cells(-far, -far, -far + 1, -far + 4);
    assert_eq!(steep.len(), 6);
}

#[test]
fn can_see_stops_at_walls() {
    let mut bd = Board::walls(4, 3).unwrap();
    for y in 0..3 {
        for x in 0..4 {
            bd.set(x, y, Cell::new_empty());
        }
    }
    bd.set(1, 1, Cell::new_wall());
    assert!(bd.can_see(0, 0, 1, 0));
    assert!(bd.can_see(0, 0, 3, 0));
    assert!(!bd.can_see(0, 0, 1, 1));
    assert!(!bd.can_see(1, 1, 1, 2));
    assert!(!bd.can_see(0, 1, 2, 1));
    assert!(!bd.can_see(0, 0, 2, 2));
    assert!(bd.can_see(0, 2, 3, 2));
    // a corner is no wall in the way of a neighbour
    bd.set(1, 0, Cell::new_wall());
    assert!(bd.can_see(0, 0, 0, 1));
    assert!(bd.can_see(2, 0, 3, 1));
}
