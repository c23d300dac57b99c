use tanakh_solver::board::{Board, Pos};
use tanakh_solver::cell::{Booster, Cell};
use tanakh_solver::frame::{can_normalize, normalize};
use tanakh_solver::raster::{build_map, map_fault, Input, MapError};

fn task(map: Vec<Pos>, obstacles: Vec<Vec<Pos>>, boosters: Vec<(Booster, Pos)>) -> Input {
    Input {
        map,
        init_pos: (0, 0),
        obstacles,
        boosters,
    }
}

fn rows(bd: &Board) -> Vec<String> {
    let mut out = Vec::new();
    for y in (0..bd.height()).rev() {
        let mut s = String::new();
        for x in 0..bd.width() {
            s.push(bd.get(x, y).to_char());
        }
        out.push(s);
    }
    out
}

#[test]
fn a_square_room_is_open_everywhere() {
    let input = task(vec![(0, 0), (3, 0), (3, 3), (0, 3)], vec![], vec![]);
    let bd = build_map(&input, 3, 3);
    assert_eq!(bd.width(), 3);
    assert_eq!(bd.height(), 3);
    assert_eq!(rows(&bd), vec!["   ", "   ", "   "]);
    assert!(bd.contains(2, 2) && !bd.contains(3, 0) && !bd.contains(0, -1));
}

#[test]
fn an_l_shaped_room_with_an_obstacle_and_boosters() {
    let input = task(
        vec![(0, 0), (4, 0), (4, 2), (2, 2), (2, 4), (0, 4)],
        vec![vec![(1, 1), (2, 1), (2, 2), (1, 2)]],
        vec![(Booster::B, (0, 0)), (Booster::X, (3, 1)), (Booster::C, (0, 0))],
    );
    let bd = build_map(&input, 4, 4);
    assert_eq!(rows(&bd), vec!["  ##", "  ##", " # X", "C   "]);
    assert!(bd.get(1, 1).is_wall());
    assert!(bd.get(1, 1) == Cell::new_wall());
    assert_eq!(bd.get(0, 0).item(), Some(6));
}

#[test]
fn an_outline_that_is_not_closed_is_refused() {
    // the two upright edges on the left of row 1 coincide, so the row is
    // crossed three times
    let input = task(
        vec![(0, 0), (4, 0), (4, 2), (2, 2), (2, 1), (0, 1), (0, 2), (0, 0)],
        vec![],
        vec![],
    );
    assert_eq!(map_fault(&input, 4, 2), Some(MapError::OddCrossings));
    let open = task(vec![(0, 0), (2, 0), (2, 2), (1, 2)], vec![], vec![]);
    assert_eq!(map_fault(&open, 2, 2), Some(MapError::OddCrossings));
    // one upright edge alone crosses the rows
    let bent = task(vec![(0, 0), (0, 2), (2, 2)], vec![], vec![]);
    assert_eq!(map_fault(&bent, 2, 2), Some(MapError::OddCrossings));
    // a task of which a board can be made has no fault
    let room = task(vec![(0, 0), (2, 0), (2, 2), (0, 2)], vec![], vec![]);
    assert_eq!(map_fault(&room, 2, 2), None);
}

#[test]
fn what_does_not_fit_the_board_is_refused() {
    let room = vec![(0, 0), (3, 0), (3, 3), (0, 3)];
    let far = task(room.clone(), vec![], vec![(Booster::F, (3, 0))]);
    assert_eq!(map_fault(&far, 3, 3), Some(MapError::OutOfRange));
    let wide = task(room.clone(), vec![], vec![]);
    assert_eq!(map_fault(&wide, 2, 3), Some(MapError::OutOfRange));
    let block = task(room.clone(), vec![vec![(2, 1), (5, 1), (5, 2), (2, 2)]], vec![]);
    assert_eq!(map_fault(&block, 3, 3), Some(MapError::OutOfRange));
    let none = task(room, vec![], vec![]);
    assert_eq!(map_fault(&none, 0, 3), Some(MapError::BadSize));
    assert_eq!(map_fault(&none, 3, -1), Some(MapError::BadSize));
    assert_eq!(map_fault(&none, 0x100_0001, 1), Some(MapError::BadSize));
}

#[test]
fn normalize_leaves_a_task_at_the_origin_where_it_is() {
    let mut input = task(vec![(0, 0), (7, 0), (7, 2), (3, 2), (3, 5), (0, 5)], vec![], vec![]);
    assert!(can_normalize(&input));
    assert_eq!(normalize(&mut input), (7, 5));
    assert_eq!(input.map, vec![(0, 0), (7, 0), (7, 2), (3, 2), (3, 5), (0, 5)]);
}

#[test]
fn normalize_moves_a_task_to_the_origin() {
    let mut input = Input {
        map: vec![(3, -2), (7, -2), (7, 1), (3, 1)],
        init_pos: (4, -1),
        obstacles: vec![vec![(5, -1), (6, -1), (6, 0), (5, 0)]],
        boosters: vec![(Booster::F, (3, 0)), (Booster::X, (6, -2))],
    };
    assert!(can_normalize(&input));
    assert_eq!(normalize(&mut input), (4, 3));
    assert_eq!(input.map, vec![(0, 0), (4, 0), (4, 3), (0, 3)]);
    assert_eq!(input.init_pos, (1, 1));
    assert_eq!(input.obstacles, vec![vec![(2, 1), (3, 1), (3, 2), (2, 2)]]);
    assert_eq!(input.boosters, vec![(Booster::F, (0, 2)), (Booster::X, (3, 0))]);
    // the board is that of the same room at the origin
    assert_eq!(map_fault(&input, 4, 3), None);
    let bd = build_map(&input, 4, 3);
    assert_eq!(rows(&bd), vec!["F   ", "  # ", "   X"]);
    // a second move changes nothing
    assert_eq!(normalize(&mut input), (4, 3));
    assert_eq!(input.init_pos, (1, 1));
}

#[test]
fn a_task_that_cannot_be_moved_is_told() {
    let none = task(vec![], vec![], vec![]);
    assert!(!can_normalize(&none));
    let wide = task(vec![(i64::MIN, 0), (i64::MAX, 0), (i64::MAX, 1), (i64::MIN, 1)], vec![], vec![]);
    assert!(!can_normalize(&wide));
    let mut far = task(vec![(i64::MAX - 2, 0), (i64::MAX, 0), (i64::MAX, 1), (i64::MAX - 2, 1)], vec![], vec![]);
    assert!(can_normalize(&far));
    far.boosters.push((Booster::B, (i64::MIN, 0)));
    assert!(!can_normalize(&far));
}

#[test]
fn boards_are_stored_row_by_row() {
    let mut bd = Board::walls(3, 2).unwrap();
    assert_eq!(bd.index_of(2, 1), 5);
    bd.set(2, 1, Cell::new_empty());
    assert!(!bd.cells[5].is_wall());
    assert!(bd.cells[4].is_wall());
    assert!(Board::walls(0, 2).is_none());
    let copy = bd.copy();
    assert_eq!(copy.w, 3);
    assert!(copy.cells == bd.cells);
}

#[test]
fn a_board_is_drawn_from_the_top_row_down() {
    let input = task(
        vec![(0, 0), (3, 0), (3, 2), (0, 2)],
        vec![vec![(1, 0), (2, 0), (2, 1), (1, 1)]],
        vec![(Booster::F, (0, 1)), (Booster::X, (2, 0))],
    );
    let mut bd = build_map(&input, 3, 2);
    let mut c = bd.get(2, 1);
    c.set_painted();
    bd.set(2, 1, c);
    assert!(bd.can_draw());
    let rows: Vec<String> = bd.draw().into_iter().map(|r| r.into_iter().collect()).collect();
    assert_eq!(rows, vec!["F .", " #X"]);
    let mut far = bd.get(0, 0);
    far.set_prio(Some(250));
    bd.set(0, 0, far);
    assert!(!bd.can_draw());
}
