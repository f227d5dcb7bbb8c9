use bf_backends::ir::Instruction;
use bf_backends::parse::parse;

#[test]
fn empty_source_empty_stream() {
    let ir = parse(b"").unwrap();
    assert_eq!(ir, vec![]);
}

#[test]
fn comments_are_skipped() {
    let ir = parse(b"hello world! (every byte here is a comment)\n").unwrap();
    assert_eq!(ir, vec![]);
}

#[test]
fn fuses_runs() {
    let ir = parse(b"+++>>><-").unwrap();
    assert_eq!(
        ir,
        vec![
            Instruction::Add(3),
            Instruction::Move(2),
            Instruction::Add(255),
        ]
    );
}

#[test]
fn cancelling_runs_vanish() {
    assert_eq!(parse(b"+-").unwrap(), vec![]);
    assert_eq!(parse(b"><").unwrap(), vec![]);
    assert_eq!(parse(b"++--></><+-").unwrap(), vec![]);
}

#[test]
fn no_adjacent_add_or_move() {
    // after a cancelled run the next token fuses into the entry before it
    let ir = parse(b"+><+").unwrap();
    assert_eq!(ir, vec![Instruction::Add(2)]);
}

#[test]
fn clear_peephole_odd_only() {
    assert_eq!(parse(b"[-]").unwrap(), vec![Instruction::Clear]);
    assert_eq!(parse(b"[+]").unwrap(), vec![Instruction::Clear]);
    assert_eq!(parse(b"[---]").unwrap(), vec![Instruction::Clear]);
    // an even increment may never reach zero: the loop is kept
    assert_eq!(
        parse(b"[--]").unwrap(),
        vec![
            Instruction::JumpRight(2),
            Instruction::Add(254),
            Instruction::JumpLeft(0),
        ]
    );
}

#[test]
fn addto_peephole() {
    assert_eq!(parse(b"[->+<]").unwrap(), vec![Instruction::AddTo(1)]);
    assert_eq!(parse(b"[-<<+>>]").unwrap(), vec![Instruction::AddTo(-2)]);
    // an offset that is a whole number of tape lengths lands on the
    // same cell: such a loop spins instead of transferring, so it is
    // left alone
    let mut around = vec![b'[', b'-'];
    around.extend(std::iter::repeat(b'>').take(30000));
    around.push(b'+');
    around.extend(std::iter::repeat(b'<').take(30000));
    around.push(b']');
    assert_eq!(
        parse(&around).unwrap(),
        vec![
            Instruction::JumpRight(5),
            Instruction::Add(255),
            Instruction::Move(30000),
            Instruction::Add(1),
            Instruction::Move(-30000),
            Instruction::JumpLeft(0),
        ]
    );
    // the two moves must cancel exactly
    assert_eq!(
        parse(b"[->+<<]").unwrap(),
        vec![
            Instruction::JumpRight(5),
            Instruction::Add(255),
            Instruction::Move(1),
            Instruction::Add(1),
            Instruction::Move(-2),
            Instruction::JumpLeft(0),
        ]
    );
}

#[test]
fn moveuntil_peephole() {
    assert_eq!(parse(b"[>]").unwrap(), vec![Instruction::MoveUntil(1)]);
    assert_eq!(parse(b"[<<]").unwrap(), vec![Instruction::MoveUntil(-2)]);
}

#[test]
fn brackets_are_linked() {
    let ir = parse(b"+[.[,]]").unwrap();
    assert_eq!(
        ir,
        vec![
            Instruction::Add(1),
            Instruction::JumpRight(6),
            Instruction::Output,
            Instruction::JumpRight(5),
            Instruction::Input,
            Instruction::JumpLeft(3),
            Instruction::JumpLeft(1),
        ]
    );
}

#[test]
fn unbalanced_close_reports_byte_index() {
    let e = parse(b"]").unwrap_err();
    assert_eq!(e.0, ']');
    assert_eq!(e.1, 0);
    let e = parse(b"+-]").unwrap_err();
    assert_eq!(e.0, ']');
    assert_eq!(e.1, 2);
}

#[test]
fn unbalanced_open_reports_byte_index() {
    // the unmatched bracket is the `[` at byte index 0
    let e = parse(b"[[]").unwrap_err();
    assert_eq!(e.0, '[');
    assert_eq!(e.1, 0);
    let e = parse(b"++[").unwrap_err();
    assert_eq!(e.0, '[');
    assert_eq!(e.1, 2);
}
