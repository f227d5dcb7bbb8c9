//! The typed instruction stream shared by every back-end, and the
//! invariants the parser guarantees about it.

use vstd::prelude::*;

verus! {

/// Number of cells on the tape, identical across back-ends and runtime.
pub const TAPE_LEN: usize = 30000;

/// One entry of the instruction stream.
///
/// `Add` adds modulo 256 to the current cell; `Move` advances the pointer
/// with wrap-around modulo the tape length. `JumpRight`/`JumpLeft` carry
/// the index of their matching partner, filled in by the parser.
/// `Clear`, `AddTo` and `MoveUntil` are peephole replacements for
/// idiomatic loops.
#[derive(Clone, Copy, PartialEq, Eq, Structural, Debug)]
pub enum Instruction {
    Add(u8),
    Move(i32),
    Input,
    Output,
    JumpRight(usize),
    JumpLeft(usize),
    Clear,
    AddTo(i32),
    MoveUntil(i32),
}

/// Addition on a cell value: 8-bit wrap-around.
pub open spec fn wrap8(v: u8, n: u8) -> u8 {
    if v + n > 255 {
        (v + n - 256) as u8
    } else {
        (v + n) as u8
    }
}

/// The bracket entries at position `i` point at each other: a
/// `JumpRight` knows the index of its `JumpLeft` and vice versa.
pub open spec fn linked_at(ir: Seq<Instruction>, i: int) -> bool {
    &&& (ir[i] matches Instruction::JumpRight(t) ==> i < t < ir.len()
        && (ir[t as int] matches Instruction::JumpLeft(p) && p == i))
    &&& (ir[i] matches Instruction::JumpLeft(p) ==> 0 <= p < i
        && (ir[p as int] matches Instruction::JumpRight(t) && t == i))
}

/// Every bracket entry of the stream is mutually paired.
pub open spec fn well_linked(ir: Seq<Instruction>) -> bool {
    forall|i: int| 0 <= i < ir.len() ==> #[trigger] linked_at(ir, i)
}

/// Bracket pairs never cross: a pair opened inside another also closes
/// inside it.
pub open spec fn properly_nested(ir: Seq<Instruction>) -> bool {
    forall|p1: int, p2: int|
        #![trigger ir[p1], ir[p2]]
        0 <= p1 < p2 < ir.len() ==> (ir[p1] matches Instruction::JumpRight(t1) ==> (ir[p2]
            matches Instruction::JumpRight(t2) ==> (p2 < t1 ==> t2 < t1)))
}

/// Runs are fused: no `Add(0)` or `Move(0)` entry, and no two adjacent
/// `Add` or two adjacent `Move` entries.
pub open spec fn fused(ir: Seq<Instruction>) -> bool {
    &&& forall|i: int| 0 <= i < ir.len() ==> ((#[trigger] ir[i]) matches Instruction::Add(n) ==> n != 0)
    &&& forall|i: int| 0 <= i < ir.len() ==> ((#[trigger] ir[i]) matches Instruction::Move(n) ==> n != 0)
    &&& forall|i: int|
        #![trigger ir[i], ir[i + 1]]
        0 <= i && i + 1 < ir.len()
            ==> !(ir[i] matches Instruction::Add(_) && ir[i + 1] matches Instruction::Add(_))
    &&& forall|i: int|
        #![trigger ir[i], ir[i + 1]]
        0 <= i && i + 1 < ir.len()
            ==> !(ir[i] matches Instruction::Move(_) && ir[i + 1] matches Instruction::Move(_))
}

} // verus!
