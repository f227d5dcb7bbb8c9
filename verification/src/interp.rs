//! The optimised interpreter: a program with pre-linked jumps, a
//! 30,000-byte zeroed tape and a cell pointer, executed step by step
//! against the small-step semantics of [`crate::sem`].

use vstd::prelude::*;

use crate::ir::Instruction;
use crate::ir::TAPE_LEN;
use crate::ir::well_linked;
use crate::ir::fused;
use crate::ir::linked_at;
use crate::parse::UnbalancedBrackets;
use crate::parse::ParseOutcome;
use crate::parse::spec_parse;
use crate::parse::parse;
use crate::sem::State;
use crate::sem::wrap_ptr;

verus! {

/// Advance a cell pointer by a signed offset, wrapping around the tape.
fn advance(p: usize, n: i32) -> (q: usize)
    requires
        p < TAPE_LEN,
    ensures
        q as nat == wrap_ptr(p + n),
        q < TAPE_LEN,
{
    let mag: u64 = if n >= 0 {
        n as u64
    } else {
        (-(n as i64)) as u64
    };
    let m: u64 = mag % 30000;
    let q: u64 = if n >= 0 {
        (p as u64 + m) % 30000
    } else {
        (p as u64 + 30000 - m) % 30000
    };
    proof {
        let l = TAPE_LEN as int;
        if n >= 0 {
            vstd::arithmetic::div_mod::lemma_add_mod_noop_right(p as int, n as int, l);
        } else {
            let mm = m as int;
            vstd::arithmetic::div_mod::lemma_fundamental_div_mod(-(n as int), l);
            let qq = -(n as int) / l;
            assert(-(n as int) == l * qq + mm);
            vstd::arithmetic::div_mod::lemma_mod_multiples_vanish(-qq, p - mm, l);
            assert((l * (-qq) + (p - mm)) % l == (p - mm) % l);
            assert(p as int + n as int == l * (-qq) + (p - mm));
            vstd::arithmetic::div_mod::lemma_mod_add_multiples_vanish(p - mm, l);
        }
    }
    q as usize
}

/// A parsed program together with its run-time state: program counter,
/// pointer, and the zero-initialised tape.
pub struct Program {
    program_counter: usize,
    pointer: usize,
    instructions: Vec<Instruction>,
    memory: Vec<u8>,
}

impl Program {
    /// The instruction stream.
    pub closed spec fn ir(&self) -> Seq<Instruction> {
        self.instructions@
    }

    /// The tape contents.
    pub closed spec fn tape(&self) -> Seq<u8> {
        self.memory@
    }

    /// The cell pointer.
    pub closed spec fn pos(&self) -> nat {
        self.pointer as nat
    }

    /// The program counter.
    pub closed spec fn counter(&self) -> nat {
        self.program_counter as nat
    }

    /// A well-formed program: full-length tape, pointer and counter in
    /// range, brackets mutually linked, runs fused.
    pub closed spec fn wf(&self) -> bool {
        &&& self.memory@.len() == TAPE_LEN
        &&& self.pointer < TAPE_LEN
        &&& self.program_counter <= self.instructions@.len()
        &&& well_linked(self.instructions@)
        &&& fused(self.instructions@)
    }

    /// Parse a source text into a runnable program on a zeroed tape,
    /// or report its unmatched bracket.
    pub fn new(source: &[u8]) -> (r: Result<Program, UnbalancedBrackets>)
        requires
            source@.len() <= 0x7fff_ffff,
        ensures
            match r {
                Ok(p) => spec_parse(source@) == ParseOutcome::Prog(p.ir()) && p.wf() && p.tape()
                    =~= Seq::new(TAPE_LEN as nat, |j: int| 0u8) && p.pos() == 0 && p.counter()
                    == 0,
                Err(e) => spec_parse(source@) == ParseOutcome::Unbalanced(e.0, e.1 as nat),
            },
    {
        let instructions = match parse(source) {
            Ok(x) => x,
            Err(e) => {
                return Err(e);
            },
        };
        let memory: Vec<u8> = vec![0u8; 30000];
        Ok(Program { program_counter: 0, pointer: 0, instructions, memory })
    }

    /// The value of the cell at `i`.
    pub fn cell(&self, i: usize) -> (v: u8)
        requires
            self.wf(),
            i < TAPE_LEN,
        ensures
            v == self.tape()[i as int],
    {
        self.memory[i]
    }

    /// Overwrite the cell at `i` (to preload a tape).
    pub fn set_cell(&mut self, i: usize, v: u8)
        requires
            old(self).wf(),
            i < TAPE_LEN,
        ensures
            final(self).wf(),
            final(self).tape() == old(self).tape().update(i as int, v),
            final(self).ir() == old(self).ir(),
            final(self).pos() == old(self).pos(),
            final(self).counter() == old(self).counter(),
    {
        self.memory[i] = v;
    }

    /// The current cell pointer.
    pub fn pointer_value(&self) -> (p: usize)
        requires
            self.wf(),
        ensures
            p as nat == self.pos(),
    {
        self.pointer
    }

    /// Move the cell pointer (to preload a starting position).
    pub fn set_pointer(&mut self, p: usize)
        requires
            old(self).wf(),
            p < TAPE_LEN,
        ensures
            final(self).wf(),
            final(self).pos() == p as nat,
            final(self).tape() == old(self).tape(),
            final(self).ir() == old(self).ir(),
            final(self).counter() == old(self).counter(),
    {
        self.pointer = p;
    }

    /// How many instructions the stream holds.
    pub fn instruction_count(&self) -> (n: usize)
        ensures
            n == self.ir().len(),
    {
        self.instructions.len()
    }

    /// Run for at most `fuel` steps against the byte stream `input`
    /// (exhausted input reads as 0). Returns the bytes written and
    /// whether the program finished within the fuel.
    ///
    /// The result is exactly the small-step semantics: state and output
    /// equal `sem::run` from the starting state.
    pub fn run(&mut self, input: &[u8], fuel: u64) -> (r: (Vec<u8>, bool))
        requires
            old(self).wf(),
        ensures
            ({
                let s0 = State {
                    tape: old(self).tape(),
                    ptr: old(self).pos(),
                    pc: old(self).counter(),
                    input: input@,
                    output: Seq::empty(),
                };
                let sf = crate::sem::run(old(self).ir(), s0, fuel as nat);
                &&& final(self).wf()
                &&& final(self).ir() == old(self).ir()
                &&& final(self).tape() == sf.tape
                &&& final(self).pos() == sf.ptr
                &&& final(self).counter() == sf.pc
                &&& r.0@ == sf.output
                &&& (r.1 <==> sf.pc >= old(self).ir().len())
            }),
    {
        let ghost ir0 = self.instructions@;
        let ghost s0 = State {
            tape: self.memory@,
            ptr: self.pointer as nat,
            pc: self.program_counter as nat,
            input: input@,
            output: Seq::empty(),
        };
        let mut out: Vec<u8> = Vec::new();
        let mut inpos: usize = 0;
        let mut used: u64 = 0;
        proof {
            assert(input@.skip(0) =~= input@);
            assert(out@ =~= Seq::<u8>::empty());
        }
        while used < fuel && self.program_counter < self.instructions.len()
            invariant
                self.wf(),
                self.instructions@ == ir0,
                used <= fuel,
                inpos <= input@.len(),
                crate::sem::run(ir0, s0, fuel as nat) == crate::sem::run(
                    ir0,
                    State {
                        tape: self.memory@,
                        ptr: self.pointer as nat,
                        pc: self.program_counter as nat,
                        input: input@.skip(inpos as int),
                        output: out@,
                    },
                    (fuel - used) as nat,
                ),
            decreases fuel - used,
        {
            let ghost cur = State {
                tape: self.memory@,
                ptr: self.pointer as nat,
                pc: self.program_counter as nat,
                input: input@.skip(inpos as int),
                output: out@,
            };
            let pc = self.program_counter;
            let ptr = self.pointer;
            proof {
                assert(linked_at(ir0, pc as int));
            }
            match self.instructions[pc] {
                Instruction::Add(n) => {
                    self.memory[ptr] = self.memory[ptr].wrapping_add(n);
                    self.program_counter = pc + 1;
                },
                Instruction::Move(n) => {
                    self.pointer = advance(ptr, n);
                    self.program_counter = pc + 1;
                },
                Instruction::Output => {
                    out.push(self.memory[ptr]);
                    self.program_counter = pc + 1;
                },
                Instruction::Input => {
                    if inpos < input.len() {
                        self.memory[ptr] = input[inpos];
                        inpos = inpos + 1;
                    } else {
                        self.memory[ptr] = 0;
                    }
                    self.program_counter = pc + 1;
                    proof {
                        if cur.input.len() > 0 {
                            assert(input@.skip(inpos as int) =~= cur.input.drop_first());
                        } else {
                            assert(input@.skip(inpos as int) =~= cur.input);
                        }
                    }
                },
                Instruction::JumpRight(t) => {
                    if self.memory[ptr] == 0 {
                        self.program_counter = t + 1;
                    } else {
                        self.program_counter = pc + 1;
                    }
                },
                Instruction::JumpLeft(t) => {
                    if self.memory[ptr] != 0 {
                        self.program_counter = t + 1;
                    } else {
                        self.program_counter = pc + 1;
                    }
                },
                Instruction::Clear => {
                    self.memory[ptr] = 0;
                    self.program_counter = pc + 1;
                },
                Instruction::AddTo(n) => {
                    let tgt = advance(ptr, n);
                    let c = self.memory[ptr];
                    self.memory[tgt] = self.memory[tgt].wrapping_add(c);
                    self.memory[ptr] = 0;
                    self.program_counter = pc + 1;
                },
                Instruction::MoveUntil(n) => {
                    if self.memory[ptr] == 0 {
                        self.program_counter = pc + 1;
                    } else {
                        self.pointer = advance(ptr, n);
                    }
                },
            }
            used = used + 1;
            proof {
                let cur2 = State {
                    tape: self.memory@,
                    ptr: self.pointer as nat,
                    pc: self.program_counter as nat,
                    input: input@.skip(inpos as int),
                    output: out@,
                };
                assert(cur2 == crate::sem::step(ir0, cur));
                assert(crate::sem::run(ir0, cur, (fuel - (used - 1)) as nat)
                    == crate::sem::run(ir0, cur2, (fuel - used) as nat));
            }
        }
        proof {
            let cur = State {
                tape: self.memory@,
                ptr: self.pointer as nat,
                pc: self.program_counter as nat,
                input: input@.skip(inpos as int),
                output: out@,
            };
            if self.program_counter >= self.instructions.len() {
                crate::sem::lemma_run_extra_fuel(ir0, cur, 0, (fuel - used) as nat);
                assert(crate::sem::run(ir0, cur, 0) == cur);
            } else {
                assert(used == fuel);
                assert(crate::sem::run(ir0, cur, 0) == cur);
            }
        }
        let finished = self.program_counter >= self.instructions.len();
        (out, finished)
    }
}

} // verus!
