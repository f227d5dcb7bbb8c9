//! Lowering the instruction stream to x86-64 machine code.
//!
//! The layout is computed first (every entry has a fixed size), so each
//! conditional branch is emitted with its final 32-bit displacement; no
//! immediate is patched after the fact. Call sites for the external
//! `write`/`read`/`exit` routines are either indirect calls through an
//! absolute address (the JIT flavour), `call rel32` sites recorded in
//! the relocation tables (the object flavour), or inline system calls
//! (the standalone-executable flavour).

use vstd::prelude::*;

use crate::ir::Instruction;
use crate::ir::well_linked;
use crate::encode::le32;
use crate::encode::le64;
use crate::encode::disp32;
use crate::encode::add_bytes;
use crate::encode::clear_bytes;
use crate::encode::cmp_cell_bytes;
use crate::encode::move_bytes;
use crate::encode::jump_right_bytes;
use crate::encode::jump_left_bytes;
use crate::encode::addto_bytes;
use crate::encode::moveuntil_bytes;
use crate::encode::push_le32;
use crate::encode::push_le64;
use crate::encode::push_disp32;

verus! {

/// How `Output`/`Input`/termination reach the outside world.
#[derive(Clone, Copy, PartialEq, Eq, Structural, Debug)]
pub enum CallMode {
    /// Indirect calls through the absolute addresses of the two
    /// trampolines; the function takes the tape base in `rdi` and
    /// returns an error pointer in `rax`.
    Jit { write_addr: u64, read_addr: u64 },
    /// `call rel32` sites left zero and recorded for `bf_write`,
    /// `bf_read` and a final `bf_exit`; the tape lives on the stack.
    Aot,
    /// Inline Linux system calls; the tape lives on the stack and the
    /// code ends in an exit system call.
    Syscall,
}

/// A `Move` offset reduced modulo the tape length.
pub open spec fn moff(n: i32) -> int {
    (n as int) % 30000
}

/// The code that precedes the lowered stream: save registers, load the
/// tape base into `r12` (from `rdi`, or fresh stack space), zero the
/// cell index `r13`.
pub open spec fn prologue(mode: CallMode) -> Seq<u8> {
    match mode {
        CallMode::Jit { .. } => seq![
            0x55u8, // push rbp
            0x48, 0x89, 0xe5, // mov rbp, rsp
            0x41, 0x54, // push r12
            0x41, 0x55, // push r13
            0x49, 0x89, 0xfc, // mov r12, rdi
            0x4d, 0x31, 0xed, // xor r13, r13
        ],
        _ => seq![
            0x55u8, // push rbp
            0x48, 0x89, 0xe5, // mov rbp, rsp
            0x4d, 0x31, 0xed, // xor r13, r13
            0x48, 0x81, 0xec, 0x30, 0x75, 0x00, 0x00, // sub rsp, 30000
            0x49, 0x89, 0xe4, // mov r12, rsp
        ],
    }
}

/// The code after the lowered stream: return null (JIT, with the error
/// exit label three bytes in), call the recorded exit routine (object),
/// or issue the exit system call (standalone).
pub open spec fn epilogue(mode: CallMode) -> Seq<u8> {
    match mode {
        CallMode::Jit { .. } => seq![
            0x48u8, 0x31, 0xc0, // xor rax, rax
            0x41, 0x5d, // pop r13
            0x41, 0x5c, // pop r12
            0x5d, // pop rbp
            0xc3, // ret
        ],
        CallMode::Aot => seq![0xe8u8, 0x00, 0x00, 0x00, 0x00],
        CallMode::Syscall => seq![
            0xb8u8, 0x3c, 0x00, 0x00, 0x00, // mov eax, 60
            0x31, 0xff, // xor edi, edi
            0x0f, 0x05, // syscall
        ],
    }
}

/// An `Output` site: load the cell, reach `write`, and (JIT) bail to
/// the exit label on a non-null error pointer.
pub open spec fn output_bytes(mode: CallMode, d_exit: int) -> Seq<u8> {
    match mode {
        CallMode::Jit { write_addr, .. } => seq![0x48u8, 0xb8] + le64(write_addr) + seq![
            0x43u8, 0x0f, 0xb6, 0x3c, 0x2c, // movzx edi, byte [r12 + r13]
            0xff, 0xd0, // call rax
            0x48, 0x83, 0xf8, 0x00, // cmp rax, 0
            0x0f, 0x85, // jne rel32 -> exit
        ] + le32(disp32(d_exit)),
        CallMode::Aot => seq![
            0x43u8, 0x0f, 0xb6, 0x3c, 0x2c, // movzx edi, byte [r12 + r13]
            0xe8, 0x00, 0x00, 0x00, 0x00, // call bf_write (relocated)
        ],
        CallMode::Syscall => seq![
            0xb8u8, 0x01, 0x00, 0x00, 0x00, // mov eax, 1 (write)
            0xbf, 0x01, 0x00, 0x00, 0x00, // mov edi, 1 (stdout)
            0x4b, 0x8d, 0x34, 0x2c, // lea rsi, [r12 + r13]
            0xba, 0x01, 0x00, 0x00, 0x00, // mov edx, 1
            0x0f, 0x05, // syscall
        ],
    }
}

/// An `Input` site: pass the cell address, reach `read`; the JIT
/// flavour bails to the exit label on error, the system-call flavour
/// turns anything but one byte read into the end-of-file value 0.
pub open spec fn input_bytes(mode: CallMode, d_exit: int) -> Seq<u8> {
    match mode {
        CallMode::Jit { read_addr, .. } => seq![0x48u8, 0xb8] + le64(read_addr) + seq![
            0x4bu8, 0x8d, 0x3c, 0x2c, // lea rdi, [r12 + r13]
            0xff, 0xd0, // call rax
            0x48, 0x83, 0xf8, 0x00, // cmp rax, 0
            0x0f, 0x85, // jne rel32 -> exit
        ] + le32(disp32(d_exit)),
        CallMode::Aot => seq![
            0x4bu8, 0x8d, 0x3c, 0x2c, // lea rdi, [r12 + r13]
            0xe8, 0x00, 0x00, 0x00, 0x00, // call bf_read (relocated)
        ],
        CallMode::Syscall => seq![
            0xb8u8, 0x00, 0x00, 0x00, 0x00, // mov eax, 0 (read)
            0xbf, 0x00, 0x00, 0x00, 0x00, // mov edi, 0 (stdin)
            0x4b, 0x8d, 0x34, 0x2c, // lea rsi, [r12 + r13]
            0xba, 0x01, 0x00, 0x00, 0x00, // mov edx, 1
            0x0f, 0x05, // syscall
            0x48, 0x83, 0xf8, 0x01, // cmp rax, 1
            0x74, 0x05, // je +5 (one byte read)
            0x43, 0xc6, 0x04, 0x2c, 0x00, // mov byte [r12 + r13], 0
        ],
    }
}

/// Byte size of one lowered entry.
pub open spec fn entry_size(x: Instruction, mode: CallMode) -> int {
    match x {
        Instruction::Add(_) => 5,
        Instruction::Move(n) => if moff(n) == 0 {
            0
        } else {
            23
        },
        Instruction::Input => match mode {
            CallMode::Jit { .. } => 26,
            CallMode::Aot => 9,
            CallMode::Syscall => 32,
        },
        Instruction::Output => match mode {
            CallMode::Jit { .. } => 27,
            CallMode::Aot => 10,
            CallMode::Syscall => 21,
        },
        Instruction::JumpRight(_) => 11,
        Instruction::JumpLeft(_) => 11,
        Instruction::Clear => 5,
        Instruction::AddTo(n) => if moff(n) == 0 {
            5
        } else {
            36
        },
        Instruction::MoveUntil(n) => if moff(n) == 0 {
            16
        } else {
            39
        },
    }
}

/// Code offset at which entry `i` starts (entry count for `i` equal to
/// the stream length gives the end of the body).
pub open spec fn off(ir: Seq<Instruction>, mode: CallMode, i: int) -> int
    decreases i,
{
    if i <= 0 {
        prologue(mode).len() as int
    } else {
        off(ir, mode, i - 1) + entry_size(ir[i - 1], mode)
    }
}

/// Code offset just past the lowered body.
pub open spec fn body_end(ir: Seq<Instruction>, mode: CallMode) -> int {
    off(ir, mode, ir.len() as int)
}

/// The error exit label of the JIT flavour (skips `xor rax, rax`).
pub open spec fn exit_off(ir: Seq<Instruction>, mode: CallMode) -> int {
    body_end(ir, mode) + 3
}

/// The bytes of one lowered entry. Branch displacements point at the
/// entry after the partner bracket; error branches point at the exit
/// label.
pub open spec fn entry_bytes(ir: Seq<Instruction>, mode: CallMode, i: int) -> Seq<u8> {
    match ir[i] {
        Instruction::Add(n) => add_bytes(n),
        Instruction::Move(n) => move_bytes(moff(n)),
        Instruction::Output => output_bytes(mode, exit_off(ir, mode) - (off(ir, mode, i) + 27)),
        Instruction::Input => input_bytes(mode, exit_off(ir, mode) - (off(ir, mode, i) + 26)),
        Instruction::JumpRight(t) => jump_right_bytes(
            off(ir, mode, t + 1) - (off(ir, mode, i) + 11),
        ),
        Instruction::JumpLeft(t) => jump_left_bytes(off(ir, mode, t + 1) - (off(ir, mode, i) + 11)),
        Instruction::Clear => clear_bytes(),
        Instruction::AddTo(n) => addto_bytes(moff(n)),
        Instruction::MoveUntil(n) => moveuntil_bytes(moff(n)),
    }
}

/// The lowered body: the entries' bytes, in order.
pub open spec fn body_code(ir: Seq<Instruction>, mode: CallMode, i: int) -> Seq<u8>
    decreases i,
{
    if i <= 0 {
        Seq::empty()
    } else {
        body_code(ir, mode, i - 1) + entry_bytes(ir, mode, i - 1)
    }
}

/// The whole code buffer: prologue, body, epilogue.
pub open spec fn code_of(ir: Seq<Instruction>, mode: CallMode) -> Seq<u8> {
    prologue(mode) + body_code(ir, mode, ir.len() as int) + epilogue(mode)
}

/// Offsets of the 32-bit `call` immediates that must be resolved to
/// `bf_write`, among the first `i` entries (object flavour).
pub open spec fn write_relocs(ir: Seq<Instruction>, mode: CallMode, i: int) -> Seq<int>
    decreases i,
{
    if i <= 0 {
        Seq::empty()
    } else {
        let rest = write_relocs(ir, mode, i - 1);
        if ir[i - 1] matches Instruction::Output && mode == CallMode::Aot {
            rest.push(off(ir, mode, i - 1) + 6)
        } else {
            rest
        }
    }
}

/// Offsets of the `call` immediates that must be resolved to `bf_read`.
pub open spec fn read_relocs(ir: Seq<Instruction>, mode: CallMode, i: int) -> Seq<int>
    decreases i,
{
    if i <= 0 {
        Seq::empty()
    } else {
        let rest = read_relocs(ir, mode, i - 1);
        if ir[i - 1] matches Instruction::Input && mode == CallMode::Aot {
            rest.push(off(ir, mode, i - 1) + 5)
        } else {
            rest
        }
    }
}

/// A vector of code offsets matches a model sequence.
pub open spec fn offsets_match(v: Seq<usize>, s: Seq<int>) -> bool {
    v.len() == s.len() && forall|j: int| 0 <= j < v.len() ==> (#[trigger] v[j]) as int == s[j]
}

/// Largest body the generator accepts; keeps every displacement well
/// inside the signed 32-bit range.
pub const CODE_LIMIT: usize = 0x1000_0000;

/// Lowered machine code with its relocation tables (object flavour:
/// each `call` immediate recorded for `bf_write`/`bf_read`, plus the
/// final `bf_exit` site).
pub struct CompiledProgram {
    pub code: Vec<u8>,
    pub write_relocations: Vec<usize>,
    pub read_relocations: Vec<usize>,
    pub call_relocation: Option<usize>,
}

/// The stream's code would exceed the generator's size limit.
#[derive(Clone, Copy, PartialEq, Eq, Structural, Debug)]
pub struct CodeTooLarge;

/// Every entry lowers to as many bytes as its declared size.
proof fn lemma_entry_bytes_len(ir: Seq<Instruction>, mode: CallMode, i: int)
    ensures
        entry_bytes(ir, mode, i).len() == entry_size(ir[i], mode),
{
    match ir[i] {
        Instruction::Add(n) => {},
        Instruction::Move(n) => {},
        Instruction::Output => {},
        Instruction::Input => {},
        Instruction::JumpRight(t) => {},
        Instruction::JumpLeft(t) => {},
        Instruction::Clear => {},
        Instruction::AddTo(n) => {},
        Instruction::MoveUntil(n) => {},
    }
}

/// Entry sizes are small and non-negative.
proof fn lemma_entry_size_range(x: Instruction, mode: CallMode)
    ensures
        0 <= entry_size(x, mode) <= 39,
{
}

/// Offsets grow with the entry index and start at the prologue.
pub proof fn lemma_off_monotone(ir: Seq<Instruction>, mode: CallMode, i: int, j: int)
    requires
        0 <= i <= j,
    ensures
        prologue(mode).len() <= off(ir, mode, i) <= off(ir, mode, j),
    decreases j,
{
    if j > i {
        lemma_off_monotone(ir, mode, i, j - 1);
        lemma_entry_size_range(ir[j - 1], mode);
    } else if i == j {
        if i > 0 {
            lemma_off_monotone(ir, mode, 0, i - 1);
            lemma_entry_size_range(ir[i - 1], mode);
        }
    }
}

/// The body's length is the distance from the prologue to its end.
proof fn lemma_body_code_len(ir: Seq<Instruction>, mode: CallMode, i: int)
    requires
        i >= 0,
    ensures
        body_code(ir, mode, i).len() == off(ir, mode, i) - prologue(mode).len(),
    decreases i,
{
    if i > 0 {
        lemma_body_code_len(ir, mode, i - 1);
        lemma_entry_bytes_len(ir, mode, i - 1);
    }
}

/// The full buffer is body end plus the epilogue.
pub proof fn lemma_code_len(ir: Seq<Instruction>, mode: CallMode)
    ensures
        code_of(ir, mode).len() == body_end(ir, mode) + epilogue(mode).len(),
{
    lemma_body_code_len(ir, mode, ir.len() as int);
}

/// A `Move` offset reduced modulo the tape length, executably.
fn moff_exec(n: i32) -> (m: usize)
    ensures
        m as int == moff(n),
        m < 30000,
{
    let mag: u64 = if n >= 0 {
        n as u64
    } else {
        (-(n as i64)) as u64
    };
    let r: u64 = mag % 30000;
    let m: u64 = if n >= 0 {
        r
    } else {
        (30000 - r) % 30000
    };
    proof {
        let l = 30000int;
        if n < 0 {
            vstd::arithmetic::div_mod::lemma_fundamental_div_mod(mag as int, l);
            let qq = mag as int / l;
            assert(mag as int == l * qq + r);
            vstd::arithmetic::div_mod::lemma_mod_multiples_vanish(-qq, -(r as int), l);
            assert((l * (-qq) + (-(r as int))) % l == (-(r as int)) % l);
            assert(n as int == l * (-qq) + (-(r as int)));
            vstd::arithmetic::div_mod::lemma_mod_add_multiples_vanish(-(r as int), l);
            if r == 0 {
                vstd::arithmetic::div_mod::lemma_mod_self_0(l);
                vstd::arithmetic::div_mod::lemma_small_mod(0nat, 30000nat);
            } else {
                vstd::arithmetic::div_mod::lemma_small_mod((30000 - r) as nat, 30000nat);
            }
        }
    }
    m as usize
}

/// Executable entry size.
fn entry_size_exec(x: Instruction, mode: CallMode) -> (s: usize)
    ensures
        s as int == entry_size(x, mode),
{
    match x {
        Instruction::Add(_) => 5,
        Instruction::Move(n) => if moff_exec(n) == 0 {
            0
        } else {
            23
        },
        Instruction::Input => match mode {
            CallMode::Jit { .. } => 26,
            CallMode::Aot => 9,
            CallMode::Syscall => 32,
        },
        Instruction::Output => match mode {
            CallMode::Jit { .. } => 27,
            CallMode::Aot => 10,
            CallMode::Syscall => 21,
        },
        Instruction::JumpRight(_) => 11,
        Instruction::JumpLeft(_) => 11,
        Instruction::Clear => 5,
        Instruction::AddTo(n) => if moff_exec(n) == 0 {
            5
        } else {
            36
        },
        Instruction::MoveUntil(n) => if moff_exec(n) == 0 {
            16
        } else {
            39
        },
    }
}

/// Append `add byte [r12 + r13], n`.
fn emit_add(code: &mut Vec<u8>, n: u8)
    ensures
        final(code)@ == old(code)@ + add_bytes(n),
{
    code.push(0x43);
    code.push(0x80);
    code.push(0x04);
    code.push(0x2c);
    code.push(n);
    proof {
        assert(code@ =~= old(code)@ + add_bytes(n));
    }
}

/// Append `mov byte [r12 + r13], 0`.
fn emit_clear(code: &mut Vec<u8>)
    ensures
        final(code)@ == old(code)@ + clear_bytes(),
{
    code.push(0x43);
    code.push(0xc6);
    code.push(0x04);
    code.push(0x2c);
    code.push(0x00);
    proof {
        assert(code@ =~= old(code)@ + clear_bytes());
    }
}

/// Append `cmp byte [r12 + r13], 0`.
fn emit_cmp_cell(code: &mut Vec<u8>)
    ensures
        final(code)@ == old(code)@ + cmp_cell_bytes(),
{
    code.push(0x43);
    code.push(0x80);
    code.push(0x3c);
    code.push(0x2c);
    code.push(0x00);
    proof {
        assert(code@ =~= old(code)@ + cmp_cell_bytes());
    }
}

/// Append the branchless wrapped pointer move by `m`.
fn emit_move(code: &mut Vec<u8>, m: usize)
    requires
        0 < m < 30000,
    ensures
        final(code)@ == old(code)@ + move_bytes(m as int),
{
    code.push(0x41);
    code.push(0x8d);
    code.push(0x85);
    push_le32(code, m as u32);
    code.push(0x49);
    code.push(0x81);
    code.push(0xc5);
    push_disp32(code, m as i64 - 30000);
    code.push(0x3d);
    code.push(0x30);
    code.push(0x75);
    code.push(0x00);
    code.push(0x00);
    code.push(0x44);
    code.push(0x0f);
    code.push(0x4c);
    code.push(0xe8);
    proof {
        assert(code@ =~= old(code)@ + move_bytes(m as int));
    }
}

/// Append the loop head `cmp cell; je rel32`.
fn emit_jump_right(code: &mut Vec<u8>, d: i64)
    requires
        -0x8000_0000 <= d < 0x8000_0000,
    ensures
        final(code)@ == old(code)@ + jump_right_bytes(d as int),
{
    emit_cmp_cell(code);
    code.push(0x0f);
    code.push(0x84);
    push_disp32(code, d);
    proof {
        assert(code@ =~= old(code)@ + jump_right_bytes(d as int));
    }
}

/// Append the loop foot `cmp cell; jne rel32`.
fn emit_jump_left(code: &mut Vec<u8>, d: i64)
    requires
        -0x8000_0000 <= d < 0x8000_0000,
    ensures
        final(code)@ == old(code)@ + jump_left_bytes(d as int),
{
    emit_cmp_cell(code);
    code.push(0x0f);
    code.push(0x85);
    push_disp32(code, d);
    proof {
        assert(code@ =~= old(code)@ + jump_left_bytes(d as int));
    }
}

/// Append an `Output` site.
fn emit_output(code: &mut Vec<u8>, mode: CallMode, d_exit: i64)
    requires
        -0x8000_0000 <= d_exit < 0x8000_0000,
    ensures
        final(code)@ == old(code)@ + output_bytes(mode, d_exit as int),
{
    match mode {
        CallMode::Jit { write_addr, .. } => {
            code.push(0x48);
            code.push(0xb8);
            push_le64(code, write_addr);
            code.push(0x43);
            code.push(0x0f);
            code.push(0xb6);
            code.push(0x3c);
            code.push(0x2c);
            code.push(0xff);
            code.push(0xd0);
            code.push(0x48);
            code.push(0x83);
            code.push(0xf8);
            code.push(0x00);
            code.push(0x0f);
            code.push(0x85);
            push_disp32(code, d_exit);
        },
        CallMode::Aot => {
            code.push(0x43);
            code.push(0x0f);
            code.push(0xb6);
            code.push(0x3c);
            code.push(0x2c);
            code.push(0xe8);
            code.push(0x00);
            code.push(0x00);
            code.push(0x00);
            code.push(0x00);
        },
        CallMode::Syscall => {
            code.push(0xb8);
            code.push(0x01);
            code.push(0x00);
            code.push(0x00);
            code.push(0x00);
            code.push(0xbf);
            code.push(0x01);
            code.push(0x00);
            code.push(0x00);
            code.push(0x00);
            code.push(0x4b);
            code.push(0x8d);
            code.push(0x34);
            code.push(0x2c);
            code.push(0xba);
            code.push(0x01);
            code.push(0x00);
            code.push(0x00);
            code.push(0x00);
            code.push(0x0f);
            code.push(0x05);
        },
    }
    proof {
        assert(code@ =~= old(code)@ + output_bytes(mode, d_exit as int));
    }
}

/// Append an `Input` site.
fn emit_input(code: &mut Vec<u8>, mode: CallMode, d_exit: i64)
    requires
        -0x8000_0000 <= d_exit < 0x8000_0000,
    ensures
        final(code)@ == old(code)@ + input_bytes(mode, d_exit as int),
{
    match mode {
        CallMode::Jit { read_addr, .. } => {
            code.push(0x48);
            code.push(0xb8);
            push_le64(code, read_addr);
            code.push(0x4b);
            code.push(0x8d);
            code.push(0x3c);
            code.push(0x2c);
            code.push(0xff);
            code.push(0xd0);
            code.push(0x48);
            code.push(0x83);
            code.push(0xf8);
            code.push(0x00);
            code.push(0x0f);
            code.push(0x85);
            push_disp32(code, d_exit);
        },
        CallMode::Aot => {
            code.push(0x4b);
            code.push(0x8d);
            code.push(0x3c);
            code.push(0x2c);
            code.push(0xe8);
            code.push(0x00);
            code.push(0x00);
            code.push(0x00);
            code.push(0x00);
        },
        CallMode::Syscall => {
            code.push(0xb8);
            code.push(0x00);
            code.push(0x00);
            code.push(0x00);
            code.push(0x00);
            code.push(0xbf);
            code.push(0x00);
            code.push(0x00);
            code.push(0x00);
            code.push(0x00);
            code.push(0x4b);
            code.push(0x8d);
            code.push(0x34);
            code.push(0x2c);
            code.push(0xba);
            code.push(0x01);
            code.push(0x00);
            code.push(0x00);
            code.push(0x00);
            code.push(0x0f);
            code.push(0x05);
            code.push(0x48);
            code.push(0x83);
            code.push(0xf8);
            code.push(0x01);
            code.push(0x74);
            code.push(0x05);
            emit_clear(code);
        },
    }
    proof {
        assert(code@ =~= old(code)@ + input_bytes(mode, d_exit as int));
    }
}

/// Append an `AddTo` site.
fn emit_addto(code: &mut Vec<u8>, m: usize)
    requires
        m < 30000,
    ensures
        final(code)@ == old(code)@ + addto_bytes(m as int),
{
    if m == 0 {
        emit_clear(code);
    } else {
        code.push(0x41);
        code.push(0x8d);
        code.push(0x8d);
        push_le32(code, m as u32);
        code.push(0x41);
        code.push(0x8d);
        code.push(0x85);
        push_disp32(code, m as i64 - 30000);
        code.push(0x81);
        code.push(0xf9);
        code.push(0x30);
        code.push(0x75);
        code.push(0x00);
        code.push(0x00);
        code.push(0x0f);
        code.push(0x4c);
        code.push(0xc1);
        code.push(0x43);
        code.push(0x8a);
        code.push(0x0c);
        code.push(0x2c);
        code.push(0x42);
        code.push(0x00);
        code.push(0x0c);
        code.push(0x04);
        emit_clear(code);
        proof {
            assert(code@ =~= old(code)@ + addto_bytes(m as int));
        }
    }
}

/// Append a `MoveUntil` site.
fn emit_moveuntil(code: &mut Vec<u8>, m: usize)
    requires
        m < 30000,
    ensures
        final(code)@ == old(code)@ + moveuntil_bytes(m as int),
{
    emit_cmp_cell(code);
    code.push(0x0f);
    code.push(0x84);
    if m == 0 {
        push_le32(code, 5);
        code.push(0xe9);
        push_disp32(code, -16);
    } else {
        push_le32(code, 28);
        emit_move(code, m);
        code.push(0xe9);
        push_disp32(code, -39);
    }
    proof {
        assert(code@ =~= old(code)@ + moveuntil_bytes(m as int));
    }
}

/// Append the prologue of the given flavour.
fn emit_prologue(code: &mut Vec<u8>, mode: CallMode)
    ensures
        final(code)@ == old(code)@ + prologue(mode),
{
    match mode {
        CallMode::Jit { .. } => {
            code.push(0x55);
            code.push(0x48);
            code.push(0x89);
            code.push(0xe5);
            code.push(0x41);
            code.push(0x54);
            code.push(0x41);
            code.push(0x55);
            code.push(0x49);
            code.push(0x89);
            code.push(0xfc);
            code.push(0x4d);
            code.push(0x31);
            code.push(0xed);
        },
        _ => {
            code.push(0x55);
            code.push(0x48);
            code.push(0x89);
            code.push(0xe5);
            code.push(0x4d);
            code.push(0x31);
            code.push(0xed);
            code.push(0x48);
            code.push(0x81);
            code.push(0xec);
            code.push(0x30);
            code.push(0x75);
            code.push(0x00);
            code.push(0x00);
            code.push(0x49);
            code.push(0x89);
            code.push(0xe4);
        },
    }
    proof {
        assert(code@ =~= old(code)@ + prologue(mode));
    }
}

/// Append the epilogue of the given flavour.
fn emit_epilogue(code: &mut Vec<u8>, mode: CallMode)
    ensures
        final(code)@ == old(code)@ + epilogue(mode),
{
    match mode {
        CallMode::Jit { .. } => {
            code.push(0x48);
            code.push(0x31);
            code.push(0xc0);
            code.push(0x41);
            code.push(0x5d);
            code.push(0x41);
            code.push(0x5c);
            code.push(0x5d);
            code.push(0xc3);
        },
        CallMode::Aot => {
            code.push(0xe8);
            code.push(0x00);
            code.push(0x00);
            code.push(0x00);
            code.push(0x00);
        },
        CallMode::Syscall => {
            code.push(0xb8);
            code.push(0x3c);
            code.push(0x00);
            code.push(0x00);
            code.push(0x00);
            code.push(0x31);
            code.push(0xff);
            code.push(0x0f);
            code.push(0x05);
        },
    }
    proof {
        assert(code@ =~= old(code)@ + epilogue(mode));
    }
}

/// Lower a well-linked stream to machine code.
///
/// Two passes: the first lays every entry out (each has a fixed size),
/// the second emits the bytes with all branch displacements final.
/// Returns the buffer together with the recorded `bf_write`/`bf_read`
/// call-site offsets and the final `bf_exit` site (object flavour), or
/// refuses a stream whose body would exceed the size limit.
pub fn lower(prog: &Vec<Instruction>, mode: CallMode) -> (r: Result<CompiledProgram, CodeTooLarge>)
    requires
        well_linked(prog@),
    ensures
        match r {
            Ok(c) => {
                &&& c.code@ == code_of(prog@, mode)
                &&& offsets_match(
                    c.write_relocations@,
                    write_relocs(prog@, mode, prog@.len() as int),
                )
                &&& offsets_match(
                    c.read_relocations@,
                    read_relocs(prog@, mode, prog@.len() as int),
                )
                &&& (mode == CallMode::Aot ==> (c.call_relocation matches Some(cr) && cr as int
                    == body_end(prog@, mode) + 1))
                &&& (mode != CallMode::Aot ==> c.call_relocation is None)
                &&& body_end(prog@, mode) <= CODE_LIMIT
            },
            Err(_) => body_end(prog@, mode) > CODE_LIMIT,
        },
{
    let n = prog.len();
    let mut offs: Vec<usize> = Vec::new();
    let pro_len: usize = match mode {
        CallMode::Jit { .. } => 14,
        _ => 17,
    };
    offs.push(pro_len);
    let mut i: usize = 0;
    while i < n
        invariant
            i <= n,
            n == prog@.len(),
            offs@.len() == i + 1,
            forall|j: int| 0 <= j <= i as int ==> (#[trigger] offs@[j]) as int == off(
                prog@,
                mode,
                j,
            ),
            forall|j: int| 0 <= j <= i as int ==> (#[trigger] offs@[j]) <= CODE_LIMIT,
        decreases n - i,
    {
        let sz = entry_size_exec(prog[i], mode);
        proof {
            lemma_entry_size_range(prog@[i as int], mode);
        }
        let next = offs[i] + sz;
        if next > CODE_LIMIT {
            proof {
                lemma_off_monotone(prog@, mode, i as int + 1, n as int);
            }
            return Err(CodeTooLarge);
        }
        offs.push(next);
        i = i + 1;
    }
    let mut code: Vec<u8> = Vec::new();
    let mut write_relocations: Vec<usize> = Vec::new();
    let mut read_relocations: Vec<usize> = Vec::new();
    emit_prologue(&mut code, mode);
    proof {
        assert(code@ =~= prologue(mode) + body_code(prog@, mode, 0));
        assert(offsets_match(write_relocations@, write_relocs(prog@, mode, 0)));
        assert(offsets_match(read_relocations@, read_relocs(prog@, mode, 0)));
    }
    let mut i: usize = 0;
    while i < n
        invariant
            i <= n,
            n == prog@.len(),
            well_linked(prog@),
            offs@.len() == n + 1,
            forall|j: int| 0 <= j <= n as int ==> (#[trigger] offs@[j]) as int == off(
                prog@,
                mode,
                j,
            ),
            forall|j: int| 0 <= j <= n as int ==> (#[trigger] offs@[j]) <= CODE_LIMIT,
            code@ == prologue(mode) + body_code(prog@, mode, i as int),
            offsets_match(write_relocations@, write_relocs(prog@, mode, i as int)),
            offsets_match(read_relocations@, read_relocs(prog@, mode, i as int)),
        decreases n - i,
    {
        let ghost prev = code@;
        proof {
            assert(crate::ir::linked_at(prog@, i as int));
        }
        match prog[i] {
            Instruction::Add(v) => {
                emit_add(&mut code, v);
                proof {
                    assert(code@ == prev + entry_bytes(prog@, mode, i as int));
                }
            },
            Instruction::Move(v) => {
                let m = moff_exec(v);
                if m > 0 {
                    emit_move(&mut code, m);
                }
                proof {
                    assert(code@ =~= prev + entry_bytes(prog@, mode, i as int));
                }
            },
            Instruction::Output => {
                let d: i64 = (offs[n] as i64 + 3) - (offs[i] as i64 + 27);
                emit_output(&mut code, mode, d);
                if let CallMode::Aot = mode {
                    write_relocations.push(offs[i] + 6);
                }
                proof {
                    assert(output_bytes(mode, d as int) == entry_bytes(prog@, mode, i as int));
                    assert(code@ == prev + entry_bytes(prog@, mode, i as int));
                }
            },
            Instruction::Input => {
                let d: i64 = (offs[n] as i64 + 3) - (offs[i] as i64 + 26);
                emit_input(&mut code, mode, d);
                if let CallMode::Aot = mode {
                    read_relocations.push(offs[i] + 5);
                }
                proof {
                    assert(input_bytes(mode, d as int) == entry_bytes(prog@, mode, i as int));
                    assert(code@ == prev + entry_bytes(prog@, mode, i as int));
                }
            },
            Instruction::JumpRight(t) => {
                let d: i64 = offs[t + 1] as i64 - (offs[i] as i64 + 11);
                emit_jump_right(&mut code, d);
                proof {
                    assert(code@ == prev + entry_bytes(prog@, mode, i as int));
                }
            },
            Instruction::JumpLeft(t) => {
                let d: i64 = offs[t + 1] as i64 - (offs[i] as i64 + 11);
                emit_jump_left(&mut code, d);
                proof {
                    assert(code@ == prev + entry_bytes(prog@, mode, i as int));
                }
            },
            Instruction::Clear => {
                emit_clear(&mut code);
                proof {
                    assert(code@ == prev + entry_bytes(prog@, mode, i as int));
                }
            },
            Instruction::AddTo(v) => {
                let m = moff_exec(v);
                emit_addto(&mut code, m);
                proof {
                    assert(code@ == prev + entry_bytes(prog@, mode, i as int));
                }
            },
            Instruction::MoveUntil(v) => {
                let m = moff_exec(v);
                emit_moveuntil(&mut code, m);
                proof {
                    assert(code@ == prev + entry_bytes(prog@, mode, i as int));
                }
            },
        }
        proof {
            assert(code@ =~= prologue(mode) + body_code(prog@, mode, i as int + 1));
            assert(offsets_match(write_relocations@, write_relocs(prog@, mode, i as int + 1)));
            assert(offsets_match(read_relocations@, read_relocs(prog@, mode, i as int + 1)));
        }
        i = i + 1;
    }
    emit_epilogue(&mut code, mode);
    proof {
        assert(code@ =~= code_of(prog@, mode));
        assert(offs@[n as int] as int == body_end(prog@, mode));
        assert(offs@[n as int] <= CODE_LIMIT);
    }
    let call_relocation: Option<usize> = match mode {
        CallMode::Aot => Some(offs[n] + 1),
        _ => None,
    };
    Ok(CompiledProgram { code, write_relocations, read_relocations, call_relocation })
}

/// The lowered buffer is referentially closed, part one: every
/// conditional branch of a bracket pair targets a code offset inside
/// the buffer. (The emitted displacement of the bracket at `i` is
/// exactly `off(t + 1) - (off(i) + 11)`, per [`entry_bytes`]; this law
/// bounds its target.)
pub proof fn lemma_branch_targets_closed(ir: Seq<Instruction>, mode: CallMode)
    requires
        well_linked(ir),
    ensures
        forall|i: int|
            0 <= i < ir.len() ==> ((#[trigger] ir[i]) matches Instruction::JumpRight(t) ==> 0
                <= off(ir, mode, t + 1) < code_of(ir, mode).len()),
        forall|i: int|
            0 <= i < ir.len() ==> ((#[trigger] ir[i]) matches Instruction::JumpLeft(t) ==> 0
                <= off(ir, mode, t + 1) < code_of(ir, mode).len()),
{
    lemma_code_len(ir, mode);
    assert(epilogue(mode).len() >= 5);
    assert forall|i: int|
        0 <= i < ir.len() implies ((#[trigger] ir[i]) matches Instruction::JumpRight(t) ==> 0
        <= off(ir, mode, t + 1) < code_of(ir, mode).len()) by {
        match ir[i] {
            Instruction::JumpRight(t) => {
                assert(crate::ir::linked_at(ir, i));
                lemma_off_monotone(ir, mode, t + 1, ir.len() as int);
            },
            _ => {},
        }
    }
    assert forall|i: int|
        0 <= i < ir.len() implies ((#[trigger] ir[i]) matches Instruction::JumpLeft(t) ==> 0
        <= off(ir, mode, t + 1) < code_of(ir, mode).len()) by {
        match ir[i] {
            Instruction::JumpLeft(t) => {
                assert(crate::ir::linked_at(ir, i));
                lemma_off_monotone(ir, mode, t + 1, ir.len() as int);
            },
            _ => {},
        }
    }
}

/// The lowered buffer is referentially closed, part two: the recorded
/// external call sites are strictly increasing within each table, lie
/// inside the body, and the `bf_write` and `bf_read` tables never share
/// a site - every call immediate is recorded exactly once.
pub proof fn lemma_relocs_recorded_once(ir: Seq<Instruction>, mode: CallMode, i: int)
    requires
        0 <= i <= ir.len(),
    ensures
        ({
            let wr = write_relocs(ir, mode, i);
            let rd = read_relocs(ir, mode, i);
            &&& forall|j: int|
                0 <= j < wr.len() ==> prologue(mode).len() < #[trigger] wr[j] && wr[j] + 4 <= off(
                    ir,
                    mode,
                    i,
                )
            &&& forall|j: int|
                0 <= j < rd.len() ==> prologue(mode).len() < #[trigger] rd[j] && rd[j] + 4 <= off(
                    ir,
                    mode,
                    i,
                )
            &&& forall|j: int, k: int| 0 <= j < k < wr.len() ==> #[trigger] wr[j] < #[trigger] wr[k]
            &&& forall|j: int, k: int| 0 <= j < k < rd.len() ==> #[trigger] rd[j] < #[trigger] rd[k]
            &&& forall|j: int, k: int|
                0 <= j < wr.len() && 0 <= k < rd.len() ==> #[trigger] wr[j] != #[trigger] rd[k]
        }),
    decreases i,
{
    if i > 0 {
        lemma_relocs_recorded_once(ir, mode, i - 1);
        lemma_off_monotone(ir, mode, 0, i - 1);
        lemma_entry_size_range(ir[i - 1], mode);
        let wr0 = write_relocs(ir, mode, i - 1);
        let rd0 = read_relocs(ir, mode, i - 1);
        let wr = write_relocs(ir, mode, i);
        let rd = read_relocs(ir, mode, i);
        let prev = off(ir, mode, i - 1);
        assert(off(ir, mode, i) == prev + entry_size(ir[i - 1], mode));
        if ir[i - 1] matches Instruction::Output && mode == CallMode::Aot {
            assert(wr == wr0.push(prev + 6));
            assert(entry_size(ir[i - 1], mode) == 10);
            assert forall|j: int|
                0 <= j < wr.len() implies prologue(mode).len() < #[trigger] wr[j] && wr[j] + 4
                <= off(ir, mode, i) by {
                if j < wr0.len() {
                    assert(wr[j] == wr0[j]);
                } else {
                    assert(wr[j] == prev + 6);
                }
            }
            assert forall|j: int, k: int|
                0 <= j < k < wr.len() implies #[trigger] wr[j] < #[trigger] wr[k] by {
                if k < wr0.len() {
                    assert(wr[j] == wr0[j] && wr[k] == wr0[k]);
                } else {
                    assert(wr[j] == wr0[j] && wr[k] == prev + 6);
                    assert(wr0[j] + 4 <= prev);
                }
            }
            assert forall|j: int, k: int|
                0 <= j < wr.len() && 0 <= k < rd.len() implies #[trigger] wr[j] != #[trigger] rd[k]
                by {
                assert(rd[k] == rd0[k]);
                if j < wr0.len() {
                    assert(wr[j] == wr0[j]);
                } else {
                    assert(wr[j] == prev + 6);
                    assert(rd0[k] + 4 <= prev);
                }
            }
        } else if ir[i - 1] matches Instruction::Input && mode == CallMode::Aot {
            assert(rd == rd0.push(prev + 5));
            assert(entry_size(ir[i - 1], mode) == 9);
            assert forall|j: int|
                0 <= j < rd.len() implies prologue(mode).len() < #[trigger] rd[j] && rd[j] + 4
                <= off(ir, mode, i) by {
                if j < rd0.len() {
                    assert(rd[j] == rd0[j]);
                } else {
                    assert(rd[j] == prev + 5);
                }
            }
            assert forall|j: int, k: int|
                0 <= j < k < rd.len() implies #[trigger] rd[j] < #[trigger] rd[k] by {
                if k < rd0.len() {
                    assert(rd[j] == rd0[j] && rd[k] == rd0[k]);
                } else {
                    assert(rd[j] == rd0[j] && rd[k] == prev + 5);
                    assert(rd0[j] + 4 <= prev);
                }
            }
            assert forall|j: int, k: int|
                0 <= j < wr.len() && 0 <= k < rd.len() implies #[trigger] wr[j] != #[trigger] rd[k]
                by {
                assert(wr[j] == wr0[j]);
                if k < rd0.len() {
                    assert(rd[k] == rd0[k]);
                } else {
                    assert(rd[k] == prev + 5);
                    assert(wr0[j] + 4 <= prev);
                }
            }
        } else {
            assert(wr == wr0 && rd == rd0);
        }
    }
}

/// Inside entry `i`, the body holds that entry's own bytes.
proof fn lemma_body_byte(ir: Seq<Instruction>, mode: CallMode, n: int, i: int, k: int)
    requires
        0 <= i < n <= ir.len(),
        off(ir, mode, i) - prologue(mode).len() <= k < off(ir, mode, i + 1) - prologue(mode).len(),
    ensures
        body_code(ir, mode, n)[k] == entry_bytes(ir, mode, i)[k - (off(ir, mode, i)
            - prologue(mode).len())],
    decreases n,
{
    lemma_body_code_len(ir, mode, n - 1);
    lemma_entry_bytes_len(ir, mode, n - 1);
    let pro = prologue(mode).len() as int;
    lemma_off_monotone(ir, mode, 0, i);
    if n == i + 1 {
        assert(body_code(ir, mode, n) == body_code(ir, mode, i) + entry_bytes(ir, mode, i));
        assert(body_code(ir, mode, i).len() == off(ir, mode, i) - pro);
        assert(body_code(ir, mode, n)[k] == entry_bytes(ir, mode, i)[k - (off(ir, mode, i)
            - pro)]);
    } else {
        lemma_off_monotone(ir, mode, i + 1, n - 1);
        lemma_body_byte(ir, mode, n - 1, i, k);
        assert(body_code(ir, mode, n) == body_code(ir, mode, n - 1) + entry_bytes(
            ir,
            mode,
            n - 1,
        ));
        assert(k < body_code(ir, mode, n - 1).len());
        assert(body_code(ir, mode, n)[k] == body_code(ir, mode, n - 1)[k]);
    }
}

/// A code offset holds a `call` opcode followed by a zeroed 32-bit
/// immediate: the shape of an unresolved external call site.
pub open spec fn call_site_ok(ir: Seq<Instruction>, mode: CallMode, r: int) -> bool {
    let code = code_of(ir, mode);
    &&& 1 <= r && r + 4 <= code.len()
    &&& code[r - 1] == 0xe8
    &&& code[r] == 0 && code[r + 1] == 0 && code[r + 2] == 0 && code[r + 3] == 0
}

/// One byte of the whole buffer, read through the body.
proof fn lemma_code_byte(ir: Seq<Instruction>, mode: CallMode, i: int, k: int)
    requires
        0 <= i < ir.len(),
        off(ir, mode, i) <= k < off(ir, mode, i + 1),
    ensures
        code_of(ir, mode)[k] == entry_bytes(ir, mode, i)[k - off(ir, mode, i)],
{
    let pro = prologue(mode).len() as int;
    lemma_off_monotone(ir, mode, 0, i);
    lemma_off_monotone(ir, mode, i + 1, ir.len() as int);
    lemma_body_code_len(ir, mode, ir.len() as int);
    lemma_body_byte(ir, mode, ir.len() as int, i, k - pro);
}

/// Every recorded call site of the first `m` entries is a zeroed
/// `call rel32` immediate in the buffer.
proof fn lemma_sites_ok(ir: Seq<Instruction>, m: int)
    requires
        0 <= m <= ir.len(),
    ensures
        forall|j: int|
            0 <= j < write_relocs(ir, CallMode::Aot, m).len() ==> #[trigger] call_site_ok(
                ir,
                CallMode::Aot,
                write_relocs(ir, CallMode::Aot, m)[j],
            ),
        forall|j: int|
            0 <= j < read_relocs(ir, CallMode::Aot, m).len() ==> #[trigger] call_site_ok(
                ir,
                CallMode::Aot,
                read_relocs(ir, CallMode::Aot, m)[j],
            ),
    decreases m,
{
    let mode = CallMode::Aot;
    if m > 0 {
        lemma_sites_ok(ir, m - 1);
        let wr0 = write_relocs(ir, mode, m - 1);
        let rd0 = read_relocs(ir, mode, m - 1);
        let wr = write_relocs(ir, mode, m);
        let rd = read_relocs(ir, mode, m);
        let prev = off(ir, mode, m - 1);
        if ir[m - 1] matches Instruction::Output && mode == CallMode::Aot {
            assert(wr == wr0.push(prev + 6));
            assert(call_site_ok(ir, mode, prev + 6)) by {
                lemma_code_len(ir, mode);
                lemma_off_monotone(ir, mode, m, ir.len() as int);
                lemma_code_byte(ir, mode, m - 1, prev + 5);
                lemma_code_byte(ir, mode, m - 1, prev + 6);
                lemma_code_byte(ir, mode, m - 1, prev + 7);
                lemma_code_byte(ir, mode, m - 1, prev + 8);
                lemma_code_byte(ir, mode, m - 1, prev + 9);
            }
            assert forall|j: int| 0 <= j < wr.len() implies #[trigger] call_site_ok(
                ir,
                mode,
                wr[j],
            ) by {
                if j < wr0.len() {
                    assert(wr[j] == wr0[j]);
                } else {
                    assert(wr[j] == prev + 6);
                }
            }
        } else if ir[m - 1] matches Instruction::Input && mode == CallMode::Aot {
            assert(rd == rd0.push(prev + 5));
            assert(call_site_ok(ir, mode, prev + 5)) by {
                lemma_code_len(ir, mode);
                lemma_off_monotone(ir, mode, m, ir.len() as int);
                lemma_code_byte(ir, mode, m - 1, prev + 4);
                lemma_code_byte(ir, mode, m - 1, prev + 5);
                lemma_code_byte(ir, mode, m - 1, prev + 6);
                lemma_code_byte(ir, mode, m - 1, prev + 7);
                lemma_code_byte(ir, mode, m - 1, prev + 8);
            }
            assert forall|j: int| 0 <= j < rd.len() implies #[trigger] call_site_ok(
                ir,
                mode,
                rd[j],
            ) by {
                if j < rd0.len() {
                    assert(rd[j] == rd0[j]);
                } else {
                    assert(rd[j] == prev + 5);
                }
            }
        } else {
            assert(wr == wr0 && rd == rd0);
        }
    }
}

/// The lowered buffer is referentially closed, part three: in the
/// object flavour, every recorded `bf_write`/`bf_read` offset and the
/// final `bf_exit` offset point at a zeroed `call rel32` immediate
/// inside the buffer.
pub proof fn lemma_call_sites_closed(ir: Seq<Instruction>)
    ensures
        forall|j: int|
            0 <= j < write_relocs(ir, CallMode::Aot, ir.len() as int).len()
                ==> #[trigger] call_site_ok(
                ir,
                CallMode::Aot,
                write_relocs(ir, CallMode::Aot, ir.len() as int)[j],
            ),
        forall|j: int|
            0 <= j < read_relocs(ir, CallMode::Aot, ir.len() as int).len()
                ==> #[trigger] call_site_ok(
                ir,
                CallMode::Aot,
                read_relocs(ir, CallMode::Aot, ir.len() as int)[j],
            ),
        call_site_ok(ir, CallMode::Aot, body_end(ir, CallMode::Aot) + 1),
{
    let mode = CallMode::Aot;
    lemma_sites_ok(ir, ir.len() as int);
    lemma_code_len(ir, mode);
    lemma_body_code_len(ir, mode, ir.len() as int);
    lemma_off_monotone(ir, mode, 0, ir.len() as int);
    let code = code_of(ir, mode);
    let be = body_end(ir, mode);
    assert(code[be] == epilogue(mode)[0]);
    assert(code[be + 1] == epilogue(mode)[1]);
    assert(code[be + 2] == epilogue(mode)[2]);
    assert(code[be + 3] == epilogue(mode)[3]);
    assert(code[be + 4] == epilogue(mode)[4]);
}

} // verus!
