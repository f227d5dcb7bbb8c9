use bf_backends::interp::Program;

const FUEL: u64 = 10_000_000;

#[test]
fn prints_letter_a() {
    let mut p = Program::new(b"++++++[>++++++++++<-]>+++++.").unwrap();
    let (out, finished) = p.run(b"", FUEL);
    assert!(finished);
    assert_eq!(out, vec![65]);
}

#[test]
fn increments_its_input() {
    let mut p = Program::new(b",+.").unwrap();
    let (out, finished) = p.run(b"A", FUEL);
    assert!(finished);
    assert_eq!(out, vec![b'B']);
}

#[test]
fn clear_zeroes_a_preloaded_cell() {
    let mut p = Program::new(b"[-]").unwrap();
    p.set_cell(0, 42);
    let (out, finished) = p.run(b"", FUEL);
    assert!(finished);
    assert_eq!(out, vec![]);
    assert_eq!(p.cell(0), 0);
}

#[test]
fn clear_loop_with_wider_odd_step() {
    let mut p = Program::new(b"[---]").unwrap();
    p.set_cell(0, 5);
    let (_, finished) = p.run(b"", FUEL);
    assert!(finished);
    assert_eq!(p.cell(0), 0);
}

#[test]
fn addto_moves_a_value() {
    let mut p = Program::new(b"+[>+<-]").unwrap();
    let (_, finished) = p.run(b"", FUEL);
    assert!(finished);
    assert_eq!(p.cell(0), 0);
    assert_eq!(p.cell(1), 1);
}

#[test]
fn addto_with_longer_offset() {
    let mut p = Program::new(b"[->>>+<<<]").unwrap();
    p.set_cell(0, 7);
    let (_, finished) = p.run(b"", FUEL);
    assert!(finished);
    assert_eq!(p.cell(0), 0);
    assert_eq!(p.cell(3), 7);
}

#[test]
fn nested_loops_reach_a_steady_state() {
    // the inner loop drains cell 0 into cell 1 on the first outer pass;
    // after that the outer loop spins on the non-zero cell 1
    let mut p = Program::new(b"++>+++[<[->+<]>]").unwrap();
    let (_, finished) = p.run(b"", 100_000);
    assert!(!finished);
    assert_eq!(p.cell(0), 0);
    assert_eq!(p.cell(1), 5);
}

#[test]
fn nested_loops_accumulate() {
    let mut p = Program::new(b"+++[>++[>+<-]<-]").unwrap();
    let (_, finished) = p.run(b"", FUEL);
    assert!(finished);
    assert_eq!(p.cell(0), 0);
    assert_eq!(p.cell(1), 0);
    assert_eq!(p.cell(2), 6);
}

#[test]
fn pointer_wraps_right() {
    let mut p = Program::new(b">").unwrap();
    p.set_pointer(29999);
    let (_, finished) = p.run(b"", FUEL);
    assert!(finished);
    assert_eq!(p.pointer_value(), 0);
}

#[test]
fn pointer_wraps_left() {
    let mut p = Program::new(b"<").unwrap();
    let (_, finished) = p.run(b"", FUEL);
    assert!(finished);
    assert_eq!(p.pointer_value(), 29999);
}

#[test]
fn fused_move_wraps() {
    // a single fused Move as long as the tape lands back on cell 0
    let src: Vec<u8> = std::iter::repeat(b'>').take(30000).collect();
    let mut p = Program::new(&src).unwrap();
    let (_, finished) = p.run(b"", FUEL);
    assert!(finished);
    assert_eq!(p.pointer_value(), 0);
}

#[test]
fn cell_wraps_up() {
    let mut p = Program::new(b"+").unwrap();
    p.set_cell(0, 255);
    let (_, finished) = p.run(b"", FUEL);
    assert!(finished);
    assert_eq!(p.cell(0), 0);
}

#[test]
fn cell_wraps_down() {
    let mut p = Program::new(b"-").unwrap();
    let (_, finished) = p.run(b"", FUEL);
    assert!(finished);
    assert_eq!(p.cell(0), 255);
}

#[test]
fn end_of_input_reads_zero() {
    let mut p = Program::new(b",+,.").unwrap();
    p.set_cell(0, 9);
    let (out, finished) = p.run(b"", FUEL);
    assert!(finished);
    assert_eq!(out, vec![0]);
}

#[test]
fn moveuntil_scans_to_the_first_zero() {
    let mut p = Program::new(b"+>++[<]").unwrap();
    let (_, finished) = p.run(b"", FUEL);
    assert!(finished);
    // cells 1 and 0 are non-zero, so the scan wraps to cell 29999
    assert_eq!(p.pointer_value(), 29999);
}

#[test]
fn fuel_runs_out_on_a_spinning_loop() {
    let mut p = Program::new(b"+[]").unwrap();
    let (_, finished) = p.run(b"", 1000);
    assert!(!finished);
}

#[test]
fn unbalanced_program_is_refused() {
    let e = match Program::new(b"[[]") {
        Ok(_) => panic!("unbalanced program accepted"),
        Err(e) => e,
    };
    assert_eq!(e.0, '[');
    assert_eq!(e.1, 0);
}
