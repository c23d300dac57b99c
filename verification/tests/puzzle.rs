use tanakh_solver::puzzle::{paint_puzzle, rec_gen, solve_puzzle, PuzzleInput};

fn grid(rows: &[&str]) -> Vec<Vec<char>> {
    rows.iter().map(|r| r.chars().collect()).collect()
}

#[test]
fn paint_puzzle_fills_the_region_around_the_start() {
    let mut bd = grid(&["**o*", "*#**", "  * ", "*  *"]);
    paint_puzzle(&mut bd, 0, 0);
    assert_eq!(bd, grid(&["##o*", "##**", "  * ", "*  *"]));
}

#[test]
fn paint_puzzle_follows_sides_not_corners() {
    let mut bd = grid(&["* *", " * ", "* *"]);
    paint_puzzle(&mut bd, 1, 1);
    assert_eq!(bd, grid(&["* *", " # ", "* *"]));
}

#[test]
fn paint_puzzle_leaves_the_grid_when_the_start_is_no_star() {
    let mut bd = grid(&["**", "o*"]);
    paint_puzzle(&mut bd, 0, 1);
    assert_eq!(bd, grid(&["**", "o*"]));
    paint_puzzle(&mut bd, 5, 0);
    assert_eq!(bd, grid(&["**", "o*"]));
    paint_puzzle(&mut bd, -1, 0);
    assert_eq!(bd, grid(&["**", "o*"]));
}

#[test]
fn a_walk_ends_at_the_wall_or_leaves_the_grid_as_it_was() {
    for _ in 0..50 {
        let before = grid(&["######", "#    #", "# o  #", "#    #", "#    #", "######"]);
        let mut bd = before.clone();
        let reached = rec_gen(&mut bd, 3, 3);
        let mut stars = 0;
        for y in 0..6 {
            for x in 0..6 {
                let (a, b) = (before[y][x], bd[y][x]);
                if a != ' ' {
                    assert_eq!(a, b);
                } else {
                    assert!(b == ' ' || b == '*');
                }
                if b == '*' {
                    stars += 1;
                }
            }
        }
        if reached {
            assert_eq!(bd[3][3], '*');
            // the way becomes wall
            paint_puzzle(&mut bd, 3, 3);
            assert!(bd.iter().all(|row| row.iter().all(|&c| c != '*')));
            assert_eq!(bd[3][3], '#');
        } else {
            assert_eq!(stars, 0);
            assert_eq!(bd, before);
        }
    }
}

#[test]
fn a_walk_from_a_wall_or_from_outside_is_at_its_end() {
    let before = grid(&["###", "#o#", "###"]);
    let mut bd = before.clone();
    assert!(rec_gen(&mut bd, 0, 0));
    assert!(rec_gen(&mut bd, -1, 1));
    assert!(rec_gen(&mut bd, 1, 3));
    assert!(!rec_gen(&mut bd, 1, 1));
    assert_eq!(bd, before);
    let mut lone = grid(&["###", "#*#", "###"]);
    assert!(!rec_gen(&mut lone, 1, 1));
}

#[test]
fn a_room_keeps_what_it_must_hold() {
    let input = PuzzleInput {
        b_num: 1,
        e_num: 1,
        t_size: 8,
        v_min: 4,
        v_max: 20,
        m_num: 0,
        f_num: 0,
        d_num: 0,
        r_num: 0,
        c_num: 0,
        x_num: 0,
        i_sqs: vec![(3, 3), (4, 4), (2, 5)],
        o_sqs: vec![(1, 1), (5, 2), (2, 2), (6, 6)],
    };
    for _ in 0..20 {
        let rooms = solve_puzzle(&input);
        assert_eq!(rooms.len(), 3);
        for bd in rooms.iter() {
            assert_eq!(bd.len(), 8);
            for row in bd.iter() {
                assert_eq!(row.len(), 8);
                assert!(row.iter().all(|&c| c == '#' || c == 'o' || c == ' '));
            }
            assert_eq!(bd[3][3], 'o');
            assert_eq!(bd[4][4], 'o');
            assert_eq!(bd[5][2], 'o');
            assert_eq!(bd[1][1], '#');
            for k in 0..8 {
                assert_eq!(bd[0][k], '#');
                assert_eq!(bd[7][k], '#');
                assert_eq!(bd[k][0], '#');
                assert_eq!(bd[k][7], '#');
            }
        }
    }
}

#[test]
fn a_walk_beside_the_wall_comes_to_its_end() {
    for _ in 0..50 {
        // the wall is one step away, whatever direction is drawn first
        let mut bd = grid(&["####", "# o#", "#oo#", "####"]);
        assert!(rec_gen(&mut bd, 1, 1));
        assert_eq!(bd, grid(&["####", "#*o#", "#oo#", "####"]));
        // one step to the right leaves the grid
        let mut edge = grid(&["oo ", "ooo", "ooo"]);
        assert!(rec_gen(&mut edge, 2, 0));
        assert_eq!(edge[0][2], '*');
    }
}

#[test]
fn a_walk_that_can_go_on_nowhere_comes_to_no_end() {
    for _ in 0..50 {
        // no walk steps on the cells around
        let mut bd = grid(&["ooo", "o o", "ooo"]);
        assert!(!rec_gen(&mut bd, 1, 1));
        assert_eq!(bd, grid(&["ooo", "o o", "ooo"]));
        // a star lies beside each cell around, the wall too
        let mut bd = grid(&["*#*", "# #", "*#*"]);
        assert!(!rec_gen(&mut bd, 1, 1));
        assert_eq!(bd, grid(&["*#*", "# #", "*#*"]));
        // a cell that held something else is left blank
        let mut bd = grid(&["ooo", "oxo", "ooo"]);
        assert!(!rec_gen(&mut bd, 1, 1));
        assert_eq!(bd, grid(&["ooo", "o o", "ooo"]));
    }
}
