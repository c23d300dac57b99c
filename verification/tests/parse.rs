use tanakh_solver::cell::Booster;
use tanakh_solver::parse::{
    is_blank, parse_booster, parse_booster_list, parse_input, parse_pos, parse_pos_list,
    parse_pos_list_list, parse_puzzle,
};
use tanakh_solver::frame::normalize;
use tanakh_solver::raster::build_map;
use tanakh_solver::rules::SolverOption;
use tanakh_solver::solve::solve;

#[test]
fn a_position_is_the_first_two_numbers() {
    assert_eq!(parse_pos(b"(3,14)"), Some((3, 14)));
    assert_eq!(parse_pos(b"3,14"), Some((3, 14)));
    assert_eq!(parse_pos(b"  x = 007 ; y = 0 ; z = 9"), Some((7, 0)));
    assert_eq!(parse_pos(b"(-3,-14)"), Some((3, 14)));
    assert_eq!(
        parse_pos(b"9223372036854775807 9223372036854775807"),
        Some((i64::MAX, i64::MAX))
    );
    assert_eq!(parse_pos(b"9223372036854775808 1"), None);
    assert_eq!(parse_pos(b"1 99999999999999999999999999"), None);
    assert_eq!(parse_pos(b"(3)"), None);
    assert_eq!(parse_pos(b"(,)"), None);
    assert_eq!(parse_pos(b""), None);
}

#[test]
fn lists_of_positions() {
    assert_eq!(
        parse_pos_list(b"(0,0),(10,0),(10,10),(0,10)"),
        Some(vec![(0, 0), (10, 0), (10, 10), (0, 10)])
    );
    assert_eq!(parse_pos_list(b"(1,2)"), Some(vec![(1, 2)]));
    assert_eq!(parse_pos_list(b""), Some(vec![]));
    assert_eq!(parse_pos_list(b"  \t"), Some(vec![]));
    assert_eq!(parse_pos_list(b"(1,2),( ),(3,4)"), Some(vec![(1, 2), (3, 4)]));
    assert_eq!(parse_pos_list(b"(1,2),(x),(3,4)"), None);
    assert_eq!(parse_pos_list(b"(1,2),(3"), None);
    assert_eq!(
        parse_pos_list_list(b"(4,2),(6,2),(6,7),(4,7);(5,8),(6,8),(6,9),(5,9)"),
        Some(vec![
            vec![(4, 2), (6, 2), (6, 7), (4, 7)],
            vec![(5, 8), (6, 8), (6, 9), (5, 9)]
        ])
    );
    assert_eq!(parse_pos_list_list(b""), Some(vec![]));
    assert_eq!(parse_pos_list_list(b";(1,2); ;"), Some(vec![vec![(1, 2)]]));
    assert_eq!(parse_pos_list_list(b"(1,2);(3)"), None);
}

#[test]
fn white_space_is_blank() {
    assert!(is_blank(b""));
    assert!(is_blank(b" \t\r\n\x0b\x0c"));
    assert!(is_blank("\u{85}\u{a0}\u{1680}\u{2000}\u{200a}\u{2028}\u{2029}\u{202f}\u{205f}\u{3000}".as_bytes()));
    assert!(!is_blank(b" a "));
    assert!(!is_blank("\u{200b}".as_bytes()));
    assert!(!is_blank(b"\xc2"));
    assert!(!is_blank(b"\x1c"));
}

#[test]
fn boosters() {
    assert_eq!(parse_booster(b"B(0,1)"), Some((Booster::B, (0, 1))));
    assert_eq!(parse_booster(b"X12 7"), Some((Booster::X, (12, 7))));
    assert_eq!(parse_booster(b"b(0,1)"), None);
    assert_eq!(parse_booster(b" B(0,1)"), None);
    assert_eq!(parse_booster(b"B(0)"), None);
    assert_eq!(parse_booster(b""), None);
    assert_eq!(
        parse_booster_list(b"B(0,1);F(0,2);L(0,3);X(0,9);R(1,1);C(2,2)"),
        Some(vec![
            (Booster::B, (0, 1)),
            (Booster::F, (0, 2)),
            (Booster::L, (0, 3)),
            (Booster::X, (0, 9)),
            (Booster::R, (1, 1)),
            (Booster::C, (2, 2)),
        ])
    );
    assert_eq!(parse_booster_list(b""), Some(vec![]));
    assert_eq!(parse_booster_list(b"B(0,1);Z(0,2)"), None);
}

#[test]
fn a_task_has_four_parts() {
    let text = b"(0,0),(6,0),(6,4),(0,4)#(0,0)#(2,1),(3,1),(3,3),(2,3)#X(5,3);C(1,0)";
    let mut input = parse_input(text).unwrap();
    assert_eq!(input.map, vec![(0, 0), (6, 0), (6, 4), (0, 4)]);
    assert_eq!(input.init_pos, (0, 0));
    assert_eq!(input.obstacles, vec![vec![(2, 1), (3, 1), (3, 3), (2, 3)]]);
    assert_eq!(input.boosters, vec![(Booster::X, (5, 3)), (Booster::C, (1, 0))]);
    let (w, h) = normalize(&mut input);
    let bd = build_map(&input, w, h);
    let opt = SolverOption {
        island_size_threshold: 50,
        increase_mop: false,
        change_clone_dir: false,
        aggressive_item: false,
        aggressive_teleport: false,
        use_drill: false,
        spawn_delegate: false,
        aggressive_fast: false,
        mop_direction: false,
        aggressive_c_collect: false,
        disable_clone: false,
        drop_portal_randomly: false,
    };
    let sol = solve(&bd, input.init_pos.0, input.init_pos.1, "", &opt).unwrap();
    assert_eq!(sol.len(), 20);
    let empty = parse_input(b"(0,0),(1,0),(1,1),(0,1)#(0,0)##").unwrap();
    assert_eq!(empty.obstacles.len(), 0);
    assert_eq!(empty.boosters.len(), 0);
    assert!(parse_input(b"(0,0),(1,0),(1,1),(0,1)#(0,0)#").is_none());
    assert!(parse_input(b"(0,0),(1,0),(1,1),(0,1)#(0)##").is_none());
    assert!(parse_input(b"(0,0),(1,0),(1,1),(0,1)#(0,0)##Q(1,1)").is_none());
    assert!(parse_input(b"").is_none());
    assert!(parse_input(b"(0,0)#(0,0)###whatever").is_some());
}

#[test]
fn what_is_asked_of_a_room() {
    let p = parse_puzzle(b"1,2,30,4,50,6,7,8,9,10,+11#(1,1),(2,2)#(3,3)").unwrap();
    assert_eq!(
        (p.b_num, p.e_num, p.t_size, p.v_min, p.v_max, p.m_num),
        (1, 2, 30, 4, 50, 6)
    );
    assert_eq!((p.f_num, p.d_num, p.r_num, p.c_num, p.x_num), (7, 8, 9, 10, 11));
    assert_eq!(p.i_sqs, vec![(1, 1), (2, 2)]);
    assert_eq!(p.o_sqs, vec![(3, 3)]);
    assert!(parse_puzzle(b"1,2,30,4,50,6,7,8,9,10,11,12#(1,1)#(3,3)#x").is_some());
    assert!(parse_puzzle(b"1,2,30,4,50,6,7,8,9,10#(1,1)#(3,3)").is_none());
    assert!(parse_puzzle(b"1,2,30,4,50,6,7,8,9,10,11#(1,1)").is_none());
    assert!(parse_puzzle(b"1,2,30,4,50,6,7,8,9,10, 11#(1,1)#(3,3)").is_none());
    assert!(parse_puzzle(b"1,2,30,4,50,6,7,8,9,10,-1#(1,1)#(3,3)").is_none());
    assert!(parse_puzzle(b"1,2,30,4,50,6,7,8,9,10,#(1,1)#(3,3)").is_none());
    assert!(parse_puzzle(b"1,2,30,4,50,6,7,8,9,10,99999999999999999999999#(1,1)#(3,3)").is_none());
    assert!(parse_puzzle(b"1,2,30,4,50,6,7,8,9,10,11#(1,1)#(3)").is_none());
}
