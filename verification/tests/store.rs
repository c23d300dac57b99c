use tanakh_solver::store::{
    entry_name, get_best_score, get_problem_name, parse_score, score_of_path, should_save, Best,
};

#[test]
fn the_name_of_a_task_stands_in_its_path() {
    assert_eq!(
        get_problem_name("./problems/prob-001.desc"),
        Some("001".to_string())
    );
    assert_eq!(
        get_problem_name("./a/prob-x/prob-stdin.desc"),
        Some("stdin".to_string())
    );
    assert_eq!(get_problem_name("prob-001.desc"), None);
    assert_eq!(get_problem_name("./problems/prob-.desc"), None);
    assert_eq!(get_problem_name("./problems/001.desc"), None);
    assert_eq!(entry_name("results/042"), Some("042".to_string()));
    assert_eq!(entry_name("042"), None);
}

#[test]
fn the_turns_of_a_solution_stand_in_its_path() {
    assert_eq!(score_of_path("results/001/123.sol"), Some(123));
    assert_eq!(score_of_path("./results/7/8/0099.sol.bak"), Some(99));
    assert_eq!(score_of_path("001/123.sol"), None);
    assert_eq!(score_of_path("results/001/abc.sol"), None);
    assert_eq!(score_of_path("results/001/99999999999999999999.sol"), None);
    assert_eq!(score_of_path("results/001/\u{661}\u{662}.sol"), None);
    assert_eq!(parse_score("9223372036854775807"), Some(i64::MAX));
    assert_eq!(parse_score("9223372036854775808"), None);
    assert_eq!(parse_score("0"), Some(0));
    assert_eq!(parse_score(""), None);
    assert_eq!(parse_score("+1"), None);
    assert_eq!(parse_score("1 "), None);
}

#[test]
fn the_best_solution_takes_the_fewest_turns() {
    let paths = |names: &[&str]| names.iter().map(|n| format!("results/001/{}", n)).collect::<Vec<_>>();
    assert_eq!(get_best_score(&paths(&[])), Best::Nothing);
    assert_eq!(get_best_score(&paths(&["120.sol"])), Best::Turns(120));
    assert_eq!(
        get_best_score(&paths(&["120.sol", "99.sol", "1000.sol", "99.sol"])),
        Best::Turns(99)
    );
    assert_eq!(
        get_best_score(&paths(&["120.sol", "notes.txt", "99.sol"])),
        Best::Unknown
    );
}

#[test]
fn a_solution_is_kept_if_it_is_better_or_asked_for() {
    assert!(should_save(None, 100, false));
    assert!(should_save(Some(0), 100, false));
    assert!(should_save(Some(101), 100, false));
    assert!(!should_save(Some(100), 100, false));
    assert!(!should_save(Some(99), 100, false));
    assert!(should_save(Some(99), 100, true));
    assert!(should_save(Some(100), 100, true));
}
