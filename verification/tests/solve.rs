use tanakh_solver::board::{Board, Pos};
use tanakh_solver::cell::Booster;
use tanakh_solver::command::Command;
use tanakh_solver::encode::encode_commands;
use tanakh_solver::raster::{build_map, Input};
use tanakh_solver::rules::{Outcome, SolveError, SolverOption};
use tanakh_solver::setup::direction_table;
use tanakh_solver::solve::solve;
use tanakh_solver::state::State;
use tanakh_solver::target::Goal;

fn plain() -> SolverOption {
    SolverOption {
        island_size_threshold: 50,
        increase_mop: false,
        change_clone_dir: false,
        aggressive_item: false,
        aggressive_teleport: false,
        use_drill: false,
        spawn_delegate: false,
        aggressive_fast: false,
        mop_direction: false,
        aggressive_c_collect: false,
        disable_clone: false,
        drop_portal_randomly: false,
    }
}

fn room(
    map: Vec<Pos>,
    obstacles: Vec<Vec<Pos>>,
    boosters: Vec<(Booster, Pos)>,
    w: i64,
    h: i64,
) -> Board {
    let input = Input {
        map,
        init_pos: (0, 0),
        obstacles,
        boosters,
    };
    build_map(&input, w, h)
}

fn hall() -> Board {
    room(
        vec![(0, 0), (6, 0), (6, 4), (0, 4)],
        vec![vec![(2, 1), (3, 1), (3, 3), (2, 3)]],
        vec![
            (Booster::X, (5, 3)),
            (Booster::C, (1, 0)),
            (Booster::B, (0, 3)),
            (Booster::F, (4, 0)),
            (Booster::R, (5, 0)),
        ],
        6,
        4,
    )
}

#[test]
fn a_three_by_three_room_is_painted_in_four_turns() {
    let bd = room(vec![(0, 0), (3, 0), (3, 3), (0, 3)], vec![], vec![], 3, 3);
    let sol = solve(&bd, 1, 1, "", &plain()).unwrap();
    let text = encode_commands(&sol);
    assert_eq!(text, "A#S#W#W");
    assert_eq!(sol.len(), 4);
    assert!(text.chars().all(|c| "WASDZ#".contains(c)));
    assert_eq!(text.chars().filter(|&c| c == '#').count(), sol.len() - 1);
    let again = solve(&bd, 1, 1, "", &plain()).unwrap();
    assert_eq!(encode_commands(&again), text);
}

#[test]
fn a_painted_room_takes_no_turn() {
    let bd = room(vec![(0, 0), (2, 0), (2, 1), (0, 1)], vec![], vec![], 2, 1);
    let sol = solve(&bd, 0, 0, "", &plain()).unwrap();
    assert_eq!(sol.len(), 0);
    assert_eq!(encode_commands(&sol), "");
}

#[test]
fn a_robot_fetches_the_cloning_booster_and_clones() {
    let sol = solve(&hall(), 0, 0, "", &plain()).unwrap();
    assert_eq!(
        encode_commands(&sol),
        "D#W#W#W#D#D#D#D#C#SS#SS#AS#AR#SA#AA#AA#AA#WW#WW#WZ"
    );
    assert_eq!(sol[8], vec![Command::Clone]);
    assert_eq!(sol[9].len(), 2);
}

#[test]
fn the_switches_change_what_the_robots_do() {
    let mut opt = plain();
    opt.increase_mop = true;
    opt.aggressive_item = true;
    opt.aggressive_fast = true;
    opt.aggressive_teleport = true;
    opt.change_clone_dir = true;
    opt.mop_direction = true;
    opt.aggressive_c_collect = true;
    let sol = solve(&hall(), 0, 0, "BF", &opt).unwrap();
    assert_eq!(
        encode_commands(&sol),
        "D#W#W#W#D#D#D#D#C#SE#SF#SA#AS#RW#B(1,-2)A#FA#AB(-2,-1)#ES#AZ#EZ"
    );
    opt.spawn_delegate = true;
    opt.use_drill = true;
    let sol = solve(&hall(), 0, 0, "LLC", &opt).unwrap();
    assert_eq!(
        encode_commands(&sol),
        "W#W#W#D#D#D#D#D#C#AE#AS#AS#AS#SA#SR#SF#B(1,-2)D#DW"
    );
}

#[test]
fn every_open_cell_in_reach_is_painted_at_the_end() {
    let bd = hall();
    let opt = plain();
    let mut state = State::new(&bd, 0, 0, 50, "", direction_table(false), false);
    state.move_to(0, 0, 0, false);
    let mut turns = 0;
    'run: loop {
        let n = state.robots.len();
        let shortest = state.shortest_mop();
        for i in 0..n {
            match state.act(i, &opt, None, shortest) {
                Outcome::Acted(_) => {}
                Outcome::Done => break 'run,
                Outcome::Stuck(e) => panic!("{:?}", e),
            }
        }
        turns += 1;
        assert!(turns < 1000);
    }
    assert_eq!(turns, 20);
    for y in 0..4 {
        for x in 0..6 {
            let c = state.bd.get(x, y);
            assert!(c.is_wall() || c.is_painted());
            assert_eq!(c.is_wall(), bd.get(x, y).is_wall());
        }
    }
    assert_eq!(state.rest, 0);
    assert_eq!(state.robots.len(), 2);
}

#[test]
fn a_cloning_booster_out_of_reach_stops_the_run() {
    // two rooms side by side with a wall between them
    let bd = room(
        vec![(0, 0), (5, 0), (5, 2), (0, 2)],
        vec![vec![(2, 0), (3, 0), (3, 2), (2, 2)]],
        vec![(Booster::X, (0, 1)), (Booster::C, (4, 1))],
        5,
        2,
    );
    assert_eq!(solve(&bd, 0, 0, "", &plain()).err(), Some(SolveError::NoTarget));
    let mut off = plain();
    off.disable_clone = true;
    assert!(solve(&bd, 0, 0, "", &off).is_ok());
}

#[test]
fn a_planned_step_off_the_board_stops_the_run() {
    let bd = room(vec![(0, 0), (3, 0), (3, 3), (0, 3)], vec![], vec![], 3, 3);
    let mut state = State::new(&bd, 0, 0, 50, "", direction_table(false), false);
    state.push_plan(0, Command::Move(-1, 0));
    assert_eq!(
        state.act(0, &plain(), None, 0),
        Outcome::Stuck(SolveError::OffBoard)
    );
    state.push_plan(0, Command::Move(0, 1));
    assert_eq!(
        state.act(0, &plain(), None, 0),
        Outcome::Acted(Command::Move(0, 1))
    );
    assert_eq!((state.robots[0].x, state.robots[0].y), (0, 1));
}

#[test]
fn no_more_than_255_robots_are_cloned() {
    let bd = room(
        vec![(0, 0), (2, 0), (2, 1), (0, 1)],
        vec![],
        vec![(Booster::X, (0, 0))],
        2,
        1,
    );
    let bought: String = std::iter::repeat('C').take(300).collect();
    let r = solve(&bd, 0, 0, &bought, &plain());
    assert_eq!(r.err(), Some(SolveError::TooManyRobots));
}

#[test]
fn a_robot_that_rests_does_nothing() {
    let bd = room(vec![(0, 0), (3, 0), (3, 3), (0, 3)], vec![], vec![], 3, 3);
    let mut state = State::new(&bd, 1, 1, 50, "", direction_table(false), false);
    state.add_robot(1, 1);
    state.retire(1);
    assert_eq!(state.act(1, &plain(), None, 0), Outcome::Acted(Command::Nop));
    assert_eq!(state.rest, 9);
    assert_eq!((state.robots[1].x, state.robots[1].y), (1, 1));
}

#[test]
fn a_robot_far_from_its_work_drills_through_the_wall() {
    // two columns of 64 cells, joined at the top, with a wall between them
    let bd = room(
        vec![(0, 0), (3, 0), (3, 64), (0, 64)],
        vec![vec![(1, 0), (2, 0), (2, 63), (1, 63)]],
        vec![],
        3,
        64,
    );
    let mut state = State::new(&bd, 0, 0, 50, "L", direction_table(false), false);
    for y in 0..64 {
        let mut c = state.bd.get(0, y);
        c.set_painted();
        state.bd.set(0, y, c);
    }
    for x in 1..3 {
        let mut c = state.bd.get(x, 63);
        c.set_painted();
        state.bd.set(x, 63, c);
    }
    assert_eq!(
        state.nearest(0, Goal::Unpainted),
        Some(((0, 1), 66, (2, 62)))
    );
    assert_eq!(state.drill_target(0), Some((2, 0)));
    let mut opt = plain();
    // without drills the robot walks
    let mut walker = State::new(&bd, 0, 0, 50, "L", direction_table(false), false);
    walker.bd = state.bd.copy();
    assert_eq!(
        walker.decide(0, &opt, None, 0, 0),
        Outcome::Acted(Command::Move(0, 1))
    );
    opt.use_drill = true;
    assert_eq!(
        state.decide(0, &opt, None, 0, 0),
        Outcome::Acted(Command::StartDrill)
    );
    assert_eq!(state.items[3], 0);
    assert_eq!(state.robots[0].drill_time, 31);
    assert_eq!(
        state.robots[0].queue,
        vec![Command::Move(1, 0), Command::Move(1, 0)]
    );
    assert_eq!(
        state.act(0, &opt, None, 0),
        Outcome::Acted(Command::Move(1, 0))
    );
    assert_eq!((state.robots[0].x, state.robots[0].y), (1, 0));
    assert_eq!(state.robots[0].drill_time, 30);
    assert!(state.bd.get(1, 0).is_wall() && !state.bd.get(1, 0).is_painted());
    assert_eq!(
        state.act(0, &opt, None, 0),
        Outcome::Acted(Command::Move(1, 0))
    );
    assert_eq!((state.robots[0].x, state.robots[0].y), (2, 0));
    assert!(state.bd.get(2, 0).is_painted());
}

#[test]
fn a_robot_uses_what_is_in_store() {
    let bd = room(vec![(0, 0), (3, 0), (3, 3), (0, 3)], vec![], vec![], 3, 3);
    let mut opt = plain();
    opt.aggressive_fast = true;
    let mut state = State::new(&bd, 1, 1, 50, "F", direction_table(false), false);
    assert_eq!(
        state.decide(0, &opt, None, 0, 0),
        Outcome::Acted(Command::AttachWheel)
    );
    assert_eq!(state.robots[0].fast_count, 51);
    assert_eq!(state.items[2], 0);

    let mut opt = plain();
    opt.increase_mop = true;
    let mut state = State::new(&bd, 1, 1, 50, "BB", direction_table(false), false);
    assert_eq!(
        state.decide(0, &opt, None, 0, 0),
        Outcome::Acted(Command::AttachManip(1, -2))
    );
    assert_eq!(
        state.decide(0, &opt, None, 0, 0),
        Outcome::Acted(Command::AttachManip(1, 2))
    );
    assert_eq!(
        state.robots[0].manips,
        vec![(0, 0), (1, 1), (1, 0), (1, -1), (1, -2), (1, 2)]
    );
    assert_eq!(state.items[1], 0);
    // another robot is the one with the fewest manipulators
    let mut state = State::new(&bd, 1, 1, 50, "B", direction_table(false), false);
    state.move_to(1, 1, 0, false);
    assert!(matches!(
        state.decide(0, &opt, None, 1, 0),
        Outcome::Acted(Command::Move(_, _))
    ));
    assert_eq!(state.items[1], 1);
}

#[test]
fn a_portal_is_dropped_where_the_robot_stands() {
    let bd = room(vec![(0, 0), (3, 0), (3, 3), (0, 3)], vec![], vec![], 3, 3);
    let mut opt = plain();
    let mut state = State::new(&bd, 1, 1, 50, "R", direction_table(false), false);
    state.robots[0].num_collected_portal = 1;
    assert_eq!(
        state.decide(0, &opt, None, 0, 0),
        Outcome::Acted(Command::SetPortal)
    );
    assert_eq!(state.portals, vec![(1, 1)]);
    assert!(state.bd.get(1, 1).has_portal());
    assert_eq!(state.robots[0].num_collected_portal, 0);
    // by chance: only where the number drawn is a multiple of 400
    opt.drop_portal_randomly = true;
    let mut state = State::new(&bd, 1, 1, 50, "R", direction_table(false), false);
    state.robots[0].num_collected_portal = 1;
    state.move_to(1, 1, 0, false);
    assert!(matches!(
        state.decide(0, &opt, None, 0, 399),
        Outcome::Acted(Command::Move(_, _))
    ));
    assert!(state.portals.is_empty());
    assert_eq!(
        state.decide(0, &opt, None, 0, 800),
        Outcome::Acted(Command::SetPortal)
    );
}

#[test]
fn a_run_without_boosters_is_made_of_steps_and_quarter_turns() {
    let bd = room(
        vec![(0, 0), (7, 0), (7, 5), (0, 5)],
        vec![vec![(2, 1), (4, 1), (4, 3), (2, 3)]],
        vec![],
        7,
        5,
    );
    let sol = solve(&bd, 3, 0, "", &plain()).unwrap();
    assert!(!sol.is_empty());
    for turn in &sol {
        assert_eq!(turn.len(), 1);
        assert!(matches!(turn[0], Command::Move(_, _)));
    }
    let mut opt = plain();
    opt.mop_direction = true;
    let sol = solve(&bd, 3, 0, "", &opt).unwrap();
    let mut turns = 0;
    for turn in &sol {
        assert_eq!(turn.len(), 1);
        assert!(matches!(turn[0], Command::Move(_, _) | Command::Turn(_)));
        if matches!(turn[0], Command::Turn(_)) {
            turns += 1;
        }
    }
    assert!(turns > 0);
    assert_eq!(solve(&bd, 3, 0, "", &opt).unwrap(), sol);
}

fn replay(bd: &Board, sx: i64, sy: i64, sol: &[Vec<Command>]) -> State {
    let mut state = State::new(bd, sx, sy, 50, "", direction_table(false), false);
    state.move_to(sx, sy, 0, false);
    for turn in sol {
        assert_eq!(turn.len(), 1);
        match turn[0] {
            Command::Move(dx, dy) => {
                assert_eq!(dx.abs() + dy.abs(), 1);
                let (x, y) = (state.robots[0].x + dx, state.robots[0].y + dy);
                assert!(state.bd.contains(x, y));
                state.move_to(x, y, 0, true);
            }
            Command::Nop => {}
            Command::Turn(dir) => state.rotate(dir, 0),
            other => panic!("no such command in a run without boosters: {:?}", other),
        }
    }
    state
}

#[test]
fn the_commands_of_a_three_by_three_room_paint_every_cell() {
    let bd = room(vec![(0, 0), (3, 0), (3, 3), (0, 3)], vec![], vec![], 3, 3);
    let sol = solve(&bd, 1, 1, "", &plain()).unwrap();
    assert!(1 <= sol.len() && sol.len() <= 20);
    let end = replay(&bd, 1, 1, &sol);
    for y in 0..3 {
        for x in 0..3 {
            assert!(end.bd.get(x, y).is_painted());
        }
    }
    assert_eq!(end.rest, 0);
    // the same task gives the same run, and the board is not touched
    assert_eq!(solve(&bd, 1, 1, "", &plain()).unwrap(), sol);
    for y in 0..3 {
        for x in 0..3 {
            assert!(!bd.get(x, y).is_painted() && !bd.get(x, y).is_wall());
        }
    }
    // with quarter turns too
    let mut opt = plain();
    opt.mop_direction = true;
    let turned = solve(&bd, 1, 1, "", &opt).unwrap();
    let end = replay(&bd, 1, 1, &turned);
    assert_eq!(end.rest, 0);
}
