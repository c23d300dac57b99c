use tanakh_solver::command::Command;
use tanakh_solver::decode::decode_commands;
use tanakh_solver::encode::encode_commands;

#[test]
fn each_command_has_its_token() {
    let turn = vec![
        Command::Move(0, 1),
        Command::Move(0, -1),
        Command::Move(-1, 0),
        Command::Move(1, 0),
        Command::Nop,
        Command::Turn(true),
        Command::Turn(false),
        Command::AttachManip(1, -2),
        Command::AttachWheel,
        Command::StartDrill,
        Command::SetPortal,
        Command::Teleport(12, 340),
        Command::Clone,
    ];
    assert_eq!(encode_commands(&vec![turn]), "WSADZEQB(1,-2)FLRT(12,340)C");
}

#[test]
fn turns_are_parted_by_hashes() {
    let sol = vec![
        vec![Command::Move(0, 1)],
        vec![Command::Clone],
        vec![Command::Move(1, 0), Command::Turn(true)],
        vec![],
        vec![Command::Nop, Command::Nop],
    ];
    assert_eq!(encode_commands(&sol), "W#C#DE##ZZ");
    assert_eq!(encode_commands(&vec![]), "");
    assert_eq!(encode_commands(&vec![vec![]]), "");
    assert_eq!(encode_commands(&vec![vec![], vec![]]), "#");
}

#[test]
fn numbers_are_written_in_full() {
    let sol = vec![vec![
        Command::Teleport(0, -0),
        Command::AttachManip(i64::MAX, i64::MIN),
        Command::Teleport(-10, 1000000),
    ]];
    assert_eq!(
        encode_commands(&sol),
        "T(0,0)B(9223372036854775807,-9223372036854775808)T(-10,1000000)"
    );
}

#[test]
fn what_is_written_is_read_back() {
    let sol = vec![
        vec![Command::Move(0, 1)],
        vec![Command::Clone],
        vec![Command::AttachManip(-2, 1), Command::Turn(false)],
        vec![],
        vec![Command::Teleport(i64::MAX, i64::MIN), Command::Nop, Command::StartDrill],
        vec![Command::SetPortal, Command::AttachWheel, Command::Move(-1, 0)],
    ];
    let text = encode_commands(&sol);
    assert_eq!(
        text,
        "W#C#B(-2,1)Q##T(9223372036854775807,-9223372036854775808)ZL#RFA"
    );
    assert_eq!(decode_commands(&text), Some(sol));
    assert_eq!(decode_commands(""), Some(vec![vec![]]));
    assert_eq!(decode_commands("#"), Some(vec![vec![], vec![]]));
    assert_eq!(
        decode_commands("WD#Z"),
        Some(vec![vec![Command::Move(0, 1), Command::Move(1, 0)], vec![Command::Nop]])
    );
}

#[test]
fn what_is_not_written_by_the_rules_is_not_read() {
    for bad in [
        "X",
        "w",
        "W#x",
        "B",
        "B(",
        "B(1",
        "B(1,",
        "B(1,2",
        "B1,2)",
        "B(1;2)",
        "B(01,2)",
        "B(1,-0)",
        "B(+1,2)",
        "B(1, 2)",
        "B(,2)",
        "B(--1,2)",
        "T(9223372036854775808,0)",
        "T(0,-9223372036854775809)",
        "T(99999999999999999999999,0)",
        "W\u{e9}",
        "W #",
    ]
    .iter()
    {
        assert_eq!(decode_commands(bad), None, "{}", bad);
    }
}
