use tanakh_solver::board::{Board, Pos};
use tanakh_solver::cell::{Booster, Cell};
use tanakh_solver::pickup::collect_item;
use tanakh_solver::raster::{build_map, Input};
use tanakh_solver::setup::direction_table;
use tanakh_solver::state::State;
use tanakh_solver::target::{place_by_score, Goal};

fn room(
    map: Vec<Pos>,
    obstacles: Vec<Vec<Pos>>,
    boosters: Vec<(Booster, Pos)>,
    w: i64,
    h: i64,
) -> Board {
    let input = Input {
        map,
        init_pos: (0, 0),
        obstacles,
        boosters,
    };
    build_map(&input, w, h)
}

fn square(n: i64) -> Board {
    room(vec![(0, 0), (n, 0), (n, n), (0, n)], vec![], vec![], n, n)
}

fn owners(state: &State) -> Vec<String> {
    let mut out = Vec::new();
    for y in (0..state.bd.height()).rev() {
        let mut s = String::new();
        for x in 0..state.bd.width() {
            let c = state.bd.get(x, y);
            s.push(match c.prio() {
                Some(i) => (b'0' + i as u8) as char,
                None => {
                    if c.is_wall() {
                        '#'
                    } else if c.is_painted() {
                        '.'
                    } else {
                        ' '
                    }
                }
            });
        }
        out.push(s);
    }
    out
}

// two rooms of 2 by 3 cells and a passage of one cell between them
fn two_rooms() -> Board {
    room(
        vec![(0, 0), (5, 0), (5, 3), (0, 3)],
        vec![vec![(2, 0), (3, 0), (3, 1), (2, 1)], vec![(2, 2), (3, 2), (3, 3), (2, 3)]],
        vec![],
        5,
        3,
    )
}

#[test]
fn a_new_state_counts_the_cells_around_the_robot() {
    let bd = two_rooms();
    let state = State::new(&bd, 0, 0, 50, "BBF", direction_table(false), false);
    assert_eq!(state.rest, 13);
    assert_eq!(state.robots.len(), 1);
    assert_eq!((state.robots[0].x, state.robots[0].y), (0, 0));
    assert_eq!(state.robots[0].manips, vec![(0, 0), (1, 1), (1, 0), (1, -1)]);
    assert_eq!(state.robots[0].vect, vec![(-1, 0), (0, -1), (0, 1), (1, 0)]);
    assert_eq!(state.items, vec![0, 2, 1, 0, 0, 0, 0]);
    assert_eq!(state.island_size_threshold, 50);
    assert!(state.bd.cells == bd.cells);
    assert_eq!(State::new(&bd, 0, 0, -1, "", direction_table(true), false).island_size_threshold, usize::MAX);
}

#[test]
fn cloning_boosters_wait_only_where_a_factory_is() {
    let with = room(
        vec![(0, 0), (3, 0), (3, 2), (0, 2)],
        vec![],
        vec![(Booster::C, (2, 1)), (Booster::X, (0, 1)), (Booster::C, (1, 0)), (Booster::R, (2, 0))],
        3,
        2,
    );
    let state = State::new(&with, 0, 0, 50, "CC", direction_table(false), false);
    assert_eq!(state.pending_clone, vec![(1, 0), (2, 1)]);
    assert_eq!(state.clone_num, 2);
    assert_eq!(state.portal_num, 1);
    assert_eq!(state.items[6], 2);
    let off = State::new(&with, 0, 0, 50, "CC", direction_table(false), true);
    assert_eq!(off.pending_clone, vec![]);
    assert_eq!(off.clone_num, 0);
    assert_eq!(off.items[6], 0);
    let without = room(
        vec![(0, 0), (3, 0), (3, 2), (0, 2)],
        vec![],
        vec![(Booster::C, (2, 1))],
        3,
        2,
    );
    let state = State::new(&without, 0, 0, 50, "C", direction_table(false), false);
    assert_eq!(state.pending_clone, vec![]);
    assert_eq!(state.items[6], 0);
}

#[test]
fn a_claim_stops_at_the_threshold() {
    let mut state = State::new(&two_rooms(), 0, 0, 50, "", direction_table(false), false);
    assert_eq!(state.paint(0, 0, 0, true, false, 0, 4), 4);
    assert_eq!(state.robots[0].prios, 4);
    assert_eq!(owners(&state), vec!["  #  ", " 00  ", "00#  "]);
    // the release frees what the claim reserved
    assert_eq!(state.paint(0, 0, 0, false, false, 0, 4), 4);
    assert_eq!(state.robots[0].prios, 0);
    assert_eq!(owners(&state), vec!["  #  ", "     ", "  #  "]);
}

#[test]
fn a_small_island_is_claimed_again_as_the_probe_claimed_it() {
    let mut state = State::new(&two_rooms(), 0, 0, 50, "", direction_table(false), false);
    let probe = state.paint(3, 1, 0, true, false, 0, 50);
    assert_eq!(probe, 13);
    let after_probe = owners(&state);
    assert_eq!(after_probe, vec!["00#00", "00000", "00#00"]);
    assert_eq!(state.paint(3, 1, 0, false, false, 0, 50), 13);
    assert_eq!(owners(&state), vec!["  #  ", "     ", "  #  "]);
    let before = state.diff.bd.len();
    assert_eq!(state.paint(3, 1, 0, true, true, 0, 50), 13);
    assert_eq!(owners(&state), after_probe);
    assert_eq!(state.diff.bd.len(), before + 13);
    assert_eq!(state.robots[0].prios, 13);
}

#[test]
fn a_fill_from_a_wall_or_from_outside_changes_nothing() {
    let mut state = State::new(&two_rooms(), 0, 0, 50, "", direction_table(false), false);
    assert_eq!(state.paint(2, 0, 0, true, false, 0, 50), 0);
    assert_eq!(state.paint(-1, 0, 0, true, false, 0, 50), 0);
    assert_eq!(state.paint(0, 3, 0, true, false, 0, 50), 0);
    assert_eq!(state.paint(0, 0, 0, true, false, 7, 7), 7);
    assert_eq!(state.paint(0, 0, 0, true, false, 3, 5), 5);
    assert_eq!(state.robots[0].prios, 2);
}

#[test]
fn a_move_paints_what_the_robot_sees() {
    let mut state = State::new(&two_rooms(), 0, 1, 50, "", direction_table(false), false);
    state.move_to(0, 1, 0, false);
    assert_eq!(state.rest, 9);
    assert_eq!(owners(&state), vec![" .#  ", "..   ", " .#  "]);
    // from the passage the robot sees no cell through the walls beside it
    state.move_to(1, 1, 0, false);
    assert_eq!(owners(&state), vec![" .#  ", "...  ", " .#  "]);
    assert_eq!(state.rest, 8);
    assert_eq!((state.robots[0].x, state.robots[0].y), (1, 1));
}

#[test]
fn painting_what_is_painted_leaves_the_count() {
    let mut state = State::new(&square(3), 1, 1, 50, "", direction_table(false), false);
    assert_eq!(state.rest, 9);
    state.move_to(1, 1, 0, false);
    assert_eq!(state.rest, 5);
    let logged = state.diff.bd.len();
    assert_eq!(logged, 4);
    state.move_to(1, 1, 0, false);
    assert_eq!(state.rest, 5);
    assert_eq!(state.diff.bd.len(), logged);
    state.move_to(1, 1, 0, true);
    assert_eq!(state.rest, 5);
}

#[test]
fn a_move_reserves_the_small_islands_it_leaves() {
    let mut state = State::new(&square(3), 1, 1, 2, "", direction_table(false), false);
    state.move_to(1, 1, 0, true);
    // five cells in one piece are still to paint: no island is below the
    // threshold of two
    assert_eq!(owners(&state), vec!["  .", " ..", "  ."]);
    assert_eq!(state.robots[0].prios, 0);
    let mut state = State::new(&square(3), 1, 1, 50, "", direction_table(false), false);
    state.move_to(1, 1, 0, true);
    assert_eq!(state.robots[0].prios, 5);
}

#[test]
fn a_turn_moves_the_manipulators_round_the_robot() {
    let mut state = State::new(&square(3), 1, 1, 50, "", direction_table(false), false);
    state.rotate(true, 0);
    assert_eq!(state.robots[0].manips, vec![(0, 0), (1, -1), (0, -1), (-1, -1)]);
    state.rotate(false, 0);
    assert_eq!(state.robots[0].manips, vec![(0, 0), (1, 1), (1, 0), (1, -1)]);
    state.rotate(false, 0);
    assert_eq!(state.robots[0].manips, vec![(0, 0), (-1, 1), (0, 1), (1, 1)]);
    assert_eq!(state.rest, 1);
}

#[test]
fn the_nearest_cell_is_as_many_steps_away_as_the_shortest_way() {
    // a corridor round a block: from (0, 0) the way to (2, 0) leads over the top
    let bd = room(
        vec![(0, 0), (3, 0), (3, 3), (0, 3)],
        vec![vec![(1, 0), (2, 0), (2, 2), (1, 2)]],
        vec![(Booster::X, (2, 0))],
        3,
        3,
    );
    let state = State::new(&bd, 0, 0, 50, "", direction_table(false), false);
    assert_eq!(
        state.nearest(0, Goal::Item(4)),
        Some(((0, 1), 6, (2, 0)))
    );
    assert_eq!(state.nearest(0, Goal::At(0, 0)), Some(((0, 0), 0, (0, 0))));
    assert_eq!(state.nearest(0, Goal::At(0, 2)), Some(((0, 1), 2, (0, 2))));
    assert_eq!(state.nearest(0, Goal::At(1, 0)), None);
    assert_eq!(state.nearest(0, Goal::Item(5)), None);
    assert_eq!(state.nearest(0, Goal::Pending), None);
    assert_eq!(state.nearest(0, Goal::Unpainted), Some(((0, 0), 0, (0, 0))));
}

#[test]
fn a_portal_makes_the_way_shorter() {
    let bd = room(
        vec![(0, 0), (3, 0), (3, 3), (0, 3)],
        vec![vec![(1, 0), (2, 0), (2, 2), (1, 2)]],
        vec![(Booster::X, (2, 0))],
        3,
        3,
    );
    let mut state = State::new(&bd, 2, 1, 50, "", direction_table(false), false);
    state.robots[0].num_collected_portal = 1;
    state.drop_portal(0);
    assert!(state.bd.get(2, 1).has_portal());
    state.move_to(0, 0, 0, false);
    assert_eq!(
        state.nearest(0, Goal::Item(4)),
        Some(((2, 1), 2, (2, 0)))
    );
}

#[test]
fn the_search_goes_in_the_order_of_the_robot() {
    let mut state = State::new(&square(3), 1, 1, 50, "", direction_table(false), false);
    state.move_to(1, 1, 0, false);
    // left, down, up, right: the cell to the left comes first
    assert_eq!(state.nearest(0, Goal::Unpainted), Some(((0, 1), 1, (0, 1))));
    state.robots[0].vect = vec![(0, 1), (1, 0), (0, -1), (-1, 0)];
    assert_eq!(state.nearest(0, Goal::Unpainted), Some(((1, 2), 1, (1, 2))));
}

#[test]
fn the_robot_nearest_to_the_factory_is_found() {
    let bd = room(
        vec![(0, 0), (5, 0), (5, 1), (0, 1)],
        vec![],
        vec![(Booster::X, (3, 0))],
        5,
        1,
    );
    let mut state = State::new(&bd, 0, 0, 50, "", direction_table(false), false);
    assert_eq!(state.find_x_closest_bot(), Some(0));
    state.add_robot(4, 0);
    assert_eq!(state.find_x_closest_bot(), Some(1));
    state.add_robot(4, 0);
    assert_eq!(state.find_x_closest_bot(), Some(2));
    assert_eq!(state.robots[1].vect, vec![(1, 0), (0, 1), (0, -1), (-1, 0)]);
    let none = State::new(&square(2), 0, 0, 50, "", direction_table(false), false);
    assert_eq!(none.find_x_closest_bot(), None);
}

#[test]
fn items_go_to_the_store() {
    let bd = room(
        vec![(0, 0), (4, 0), (4, 1), (0, 1)],
        vec![],
        vec![
            (Booster::R, (0, 0)),
            (Booster::X, (1, 0)),
            (Booster::C, (2, 0)),
            (Booster::B, (3, 0)),
        ],
        4,
        1,
    );
    let mut state = State::new(&bd, 0, 0, 50, "", direction_table(false), false);
    collect_item(&mut state, 0);
    assert_eq!(state.items, vec![0, 0, 0, 0, 0, 1, 0]);
    assert_eq!(state.portal_num, 0);
    assert_eq!(state.robots[0].num_collected_portal, 1);
    assert_eq!(state.bd.get(0, 0).item(), None);
    assert_eq!(state.diff.bd, vec![(0, 0, Cell::new(0x50))]);
    collect_item(&mut state, 0);
    assert_eq!(state.items, vec![0, 0, 0, 0, 0, 1, 0]);
    state.move_to(1, 0, 0, false);
    let before = state.diff.bd.len();
    collect_item(&mut state, 0);
    assert_eq!(state.bd.get(1, 0).item(), Some(4));
    assert_eq!(state.diff.bd.len(), before);
    state.move_to(2, 0, 0, false);
    collect_item(&mut state, 0);
    assert_eq!(state.items[6], 1);
    assert_eq!(state.clone_num, 0);
    state.move_to(3, 0, 0, false);
    collect_item(&mut state, 0);
    assert_eq!(state.items, vec![0, 1, 0, 0, 0, 1, 1]);
}

#[test]
fn the_direction_tables_hold_each_direction_once() {
    for &d in [false, true].iter() {
        let t = direction_table(d);
        assert_eq!(t.len(), if d { 14 } else { 8 });
        for row in t.iter() {
            let mut sorted = row.clone();
            sorted.sort();
            assert_eq!(sorted, vec![(-1, 0), (0, -1), (0, 1), (1, 0)]);
        }
    }
    assert_eq!(direction_table(true)[9], vec![(0, 1), (-1, 0), (0, -1), (1, 0)]);
    assert_eq!(direction_table(false)[5], vec![(1, 0), (-1, 0), (0, -1), (0, 1)]);
}

#[test]
fn the_distance_to_the_nearest_wanted_cell_is_counted_in_steps() {
    let bd = room(
        vec![(0, 0), (3, 0), (3, 3), (0, 3)],
        vec![vec![(1, 0), (2, 0), (2, 2), (1, 2)]],
        vec![(Booster::X, (2, 0))],
        3,
        3,
    );
    let state = State::new(&bd, 0, 0, 50, "", direction_table(false), false);
    let order: Vec<Pos> = vec![(0, 1), (1, 0), (0, -1), (-1, 0)];
    assert_eq!(state.nearest_empty_dist(0, 0, 0, Goal::Item(4), &order), Some(6));
    assert_eq!(state.nearest_empty_dist(2, 0, 0, Goal::Item(4), &order), Some(0));
    assert_eq!(state.nearest_empty_dist(0, 2, 0, Goal::At(2, 2), &order), Some(2));
    // from inside the block the way leads out of it
    assert_eq!(state.nearest_empty_dist(1, 1, 0, Goal::At(0, 1), &order), Some(1));
    // and no way leads into it
    assert_eq!(state.nearest_empty_dist(0, 0, 0, Goal::At(1, 1), &order), None);
    assert_eq!(state.nearest_empty_dist(0, 0, 0, Goal::Item(5), &order), None);
}

#[test]
fn candidates_are_kept_in_the_order_of_their_scores() {
    let mut seeds: Vec<Pos> = Vec::new();
    let mut scores: Vec<i64> = Vec::new();
    assert_eq!(place_by_score(&mut seeds, &mut scores, (1, 0), 0), 0);
    assert_eq!(place_by_score(&mut seeds, &mut scores, (2, 0), 5), 1);
    assert_eq!(place_by_score(&mut seeds, &mut scores, (3, 0), 0), 1);
    assert_eq!(place_by_score(&mut seeds, &mut scores, (4, 0), -1), 0);
    assert_eq!(place_by_score(&mut seeds, &mut scores, (5, 0), 5), 4);
    assert_eq!(seeds, vec![(4, 0), (1, 0), (3, 0), (2, 0), (5, 0)]);
    assert_eq!(scores, vec![-1, 0, 0, 5, 5]);
}

#[test]
fn a_move_records_the_cells_it_paints_as_they_were() {
    let mut state = State::new(&square(3), 1, 1, 50, "", direction_table(false), false);
    state.move_to(1, 1, 0, false);
    let open = Cell::new_empty();
    assert_eq!(
        state.diff.bd,
        vec![(1, 1, open), (2, 2, open), (2, 1, open), (2, 0, open)]
    );
    // painting the same cells again changes none of them
    state.move_to(1, 1, 0, false);
    assert_eq!(state.diff.bd.len(), 4);
    // with the search for islands, the cells that are reserved are recorded
    // in the order in which the fill comes to them: it starts at (0, 1), the
    // first of the cells beside the painted ones, and goes up before it goes
    // down
    state.move_to(1, 1, 0, true);
    assert_eq!(
        state.diff.bd[4..].to_vec(),
        vec![(0, 1, open), (0, 2, open), (1, 2, open), (0, 0, open), (1, 0, open)]
    );
    assert_eq!(owners(&state), vec!["00.", "0..", "00."]);
}
