//! The side-effect model of the instruction stream: a small-step
//! semantics over tape, pointer, program counter and the two byte
//! streams, plus the soundness proofs of the two peephole rewrites.

use vstd::prelude::*;

use crate::ir::Instruction;
use crate::ir::TAPE_LEN;
use crate::ir::wrap8;

verus! {

/// A machine state: the tape, the cell pointer, the program counter,
/// the bytes not yet read, and the bytes written so far.
pub struct State {
    pub tape: Seq<u8>,
    pub ptr: nat,
    pub pc: nat,
    pub input: Seq<u8>,
    pub output: Seq<u8>,
}

/// Pointer arithmetic: wrap-around modulo the tape length.
pub open spec fn wrap_ptr(p: int) -> nat {
    (p % (TAPE_LEN as int)) as nat
}

/// Cell arithmetic over several added units: wrap-around modulo 256.
pub open spec fn wrap8n(a: u8, v: int) -> u8 {
    (((a + v) % 256 + 256) % 256) as u8
}

/// One instruction of the stream, at the current program counter.
/// Reading on an empty input stream yields 0 (the end-of-file rule).
pub open spec fn step(ir: Seq<Instruction>, s: State) -> State {
    match ir[s.pc as int] {
        Instruction::Add(n) => State {
            tape: s.tape.update(s.ptr as int, wrap8(s.tape[s.ptr as int], n)),
            pc: s.pc + 1,
            ..s
        },
        Instruction::Move(n) => State { ptr: wrap_ptr(s.ptr + n), pc: s.pc + 1, ..s },
        Instruction::Output => State {
            output: s.output.push(s.tape[s.ptr as int]),
            pc: s.pc + 1,
            ..s
        },
        Instruction::Input => if s.input.len() > 0 {
            State {
                tape: s.tape.update(s.ptr as int, s.input[0]),
                input: s.input.drop_first(),
                pc: s.pc + 1,
                ..s
            }
        } else {
            State { tape: s.tape.update(s.ptr as int, 0), pc: s.pc + 1, ..s }
        },
        Instruction::JumpRight(t) => if s.tape[s.ptr as int] == 0 {
            State { pc: (t + 1) as nat, ..s }
        } else {
            State { pc: s.pc + 1, ..s }
        },
        Instruction::JumpLeft(t) => if s.tape[s.ptr as int] != 0 {
            State { pc: (t + 1) as nat, ..s }
        } else {
            State { pc: s.pc + 1, ..s }
        },
        Instruction::Clear => State { tape: s.tape.update(s.ptr as int, 0), pc: s.pc + 1, ..s },
        Instruction::AddTo(n) => {
            let tgt = wrap_ptr(s.ptr + n);
            State {
                tape: s.tape.update(
                    tgt as int,
                    wrap8(s.tape[tgt as int], s.tape[s.ptr as int]),
                ).update(s.ptr as int, 0),
                pc: s.pc + 1,
                ..s
            }
        },
        Instruction::MoveUntil(n) => if s.tape[s.ptr as int] == 0 {
            State { pc: s.pc + 1, ..s }
        } else {
            State { ptr: wrap_ptr(s.ptr + n), ..s }
        },
    }
}

/// Run for at most `fuel` steps, stopping when the counter leaves the
/// stream.
pub open spec fn run(ir: Seq<Instruction>, s: State, fuel: nat) -> State
    decreases fuel,
{
    if fuel == 0 || s.pc >= ir.len() {
        s
    } else {
        run(ir, step(ir, s), (fuel - 1) as nat)
    }
}

/// A finished run is insensitive to extra fuel.
pub proof fn lemma_run_extra_fuel(ir: Seq<Instruction>, s: State, f1: nat, f2: nat)
    requires
        f1 <= f2,
        run(ir, s, f1).pc >= ir.len(),
    ensures
        run(ir, s, f2) == run(ir, s, f1),
    decreases f1,
{
    if f1 > 0 && s.pc < ir.len() {
        lemma_run_extra_fuel(ir, step(ir, s), (f1 - 1) as nat, (f2 - 1) as nat);
    } else {
        if f2 > 0 && s.pc < ir.len() {
            assert(false);
        }
    }
}

/// 8-bit wrap-around is addition modulo 256.
pub proof fn lemma_wrap8_mod(a: u8, b: u8)
    ensures
        wrap8(a, b) == (a + b) % 256,
{
    if a + b > 255 {
        vstd::arithmetic::div_mod::lemma_sub_mod_noop(a + b, 256, 256);
        vstd::arithmetic::div_mod::lemma_mod_self_0(256);
        vstd::arithmetic::div_mod::lemma_small_mod((a + b - 256) as nat, 256);
        assert((a + b - 256) % 256 == (a + b) % 256);
    } else {
        vstd::arithmetic::div_mod::lemma_small_mod((a + b) as nat, 256);
    }
}

/// `k` solves the cell equation: starting from `v` and adding `n` a
/// total of `k` times lands on a multiple of `d`.
pub open spec fn solves(v: int, n: int, d: int, k: int) -> bool {
    0 <= k < d && (v + k * n) % d == 0
}

/// Odd step widths reach every residue modulo a power of two: a
/// solution lifts from each power to the next.
proof fn lemma_hensel(v: int, n: int, j: nat)
    requires
        n % 2 == 1,
        n >= 0,
        v >= 0,
    ensures
        exists|k: int| #[trigger] solves(v, n, vstd::arithmetic::power2::pow2(j) as int, k),
    decreases j,
{
    let d = vstd::arithmetic::power2::pow2(j) as int;
    vstd::arithmetic::power2::lemma_pow2_pos(j);
    if j == 0 {
        vstd::arithmetic::power2::lemma2_to64();
        assert(d == 1);
        vstd::arithmetic::div_mod::lemma_mod_bound(v, 1);
        assert(solves(v, n, 1, 0));
    } else {
        let e = vstd::arithmetic::power2::pow2((j - 1) as nat) as int;
        vstd::arithmetic::power2::lemma_pow2_pos((j - 1) as nat);
        vstd::arithmetic::power2::lemma_pow2_unfold(j);
        assert(d == 2 * e);
        lemma_hensel(v, n, (j - 1) as nat);
        let k = choose|k: int| solves(v, n, e, k);
        assert(solves(v, n, e, k));
        let m = v + k * n;
        assert(k * n >= 0) by (nonlinear_arith)
            requires
                k >= 0,
                n >= 0,
        ;
        let q = m / e;
        vstd::arithmetic::div_mod::lemma_fundamental_div_mod(m, e);
        assert(m == e * q);
        vstd::arithmetic::div_mod::lemma_div_pos_is_pos(m, e);
        if q % 2 == 0 {
            let w = q / 2;
            vstd::arithmetic::div_mod::lemma_fundamental_div_mod(q, 2);
            assert(q == 2 * w);
            assert(e * q == d * w) by (nonlinear_arith)
                requires
                    q == 2 * w,
                    d == 2 * e,
            ;
            vstd::arithmetic::div_mod::lemma_mod_multiples_basic(w, d);
            assert((w * d) % d == 0);
            assert(w * d == d * w) by (nonlinear_arith);
            assert(solves(v, n, d, k));
        } else {
            let k2 = k + e;
            let q2 = q + n;
            assert(v + k2 * n == e * q2) by (nonlinear_arith)
                requires
                    v + k * n == e * q,
                    k2 == k + e,
                    q2 == q + n,
            ;
            vstd::arithmetic::div_mod::lemma_add_mod_noop(q, n, 2);
            assert(q2 % 2 == 0);
            let w = q2 / 2;
            vstd::arithmetic::div_mod::lemma_fundamental_div_mod(q2, 2);
            assert(q2 == 2 * w);
            assert(e * q2 == d * w) by (nonlinear_arith)
                requires
                    q2 == 2 * w,
                    d == 2 * e,
            ;
            vstd::arithmetic::div_mod::lemma_mod_multiples_basic(w, d);
            assert(w * d == d * w) by (nonlinear_arith);
            assert(solves(v, n, d, k2));
        }
    }
}

/// For odd `n`, some number of additions of `n` takes any byte to zero.
proof fn lemma_odd_hits_zero(v: u8, n: u8)
    requires
        n % 2 == 1,
    ensures
        exists|k: int| #[trigger] solves(v as int, n as int, 256, k),
{
    lemma_hensel(v as int, n as int, 8);
    vstd::arithmetic::power2::lemma2_to64();
    assert(vstd::arithmetic::power2::pow2(8) == 256);
}

/// The loop `[ Add(n) ]` as an instruction stream.
pub open spec fn clear_loop_ir(n: u8) -> Seq<Instruction> {
    seq![Instruction::JumpRight(2), Instruction::Add(n), Instruction::JumpLeft(0)]
}

/// From inside the loop body, the loop runs until the cell is zero.
proof fn lemma_clear_loop_iterates(n: u8, s: State, k: nat)
    requires
        s.pc == 1,
        s.ptr < TAPE_LEN,
        s.tape.len() == TAPE_LEN,
        s.tape[s.ptr as int] != 0,
        solves(s.tape[s.ptr as int] as int, n as int, 256, k as int),
    ensures
        exists|fuel: nat|
            #[trigger] run(clear_loop_ir(n), s, fuel) == (State {
                tape: s.tape.update(s.ptr as int, 0),
                pc: 3,
                ..s
            }),
    decreases k,
{
    let ir = clear_loop_ir(n);
    let v = s.tape[s.ptr as int];
    if k == 0 {
        assert((v as int + 0 * (n as int)) % 256 == 0);
        assert(0 * (n as int) == 0);
        assert((v as int) % 256 == 0);
        vstd::arithmetic::div_mod::lemma_small_mod(v as nat, 256);
        assert(false);
    }
    let s1 = step(ir, s);
    let v2 = wrap8(v, n);
    lemma_wrap8_mod(v, n);
    assert(s1.tape == s.tape.update(s.ptr as int, v2) && s1.pc == 2);
    let s2 = step(ir, s1);
    // the solution count goes down by one each iteration
    vstd::arithmetic::div_mod::lemma_add_mod_noop(v + n, (k - 1) * (n as int), 256);
    vstd::arithmetic::div_mod::lemma_small_mod(v2 as nat, 256);
    assert((v + n) + (k - 1) * n == v + k * n) by (nonlinear_arith);
    assert((v2 + (k - 1) * n) % 256 == (v + k * n) % 256) by {
        assert((v2 as int) % 256 == (v + n) % 256);
        vstd::arithmetic::div_mod::lemma_add_mod_noop(v2 as int, (k - 1) * (n as int), 256);
        vstd::arithmetic::div_mod::lemma_add_mod_noop(v + n, (k - 1) * (n as int), 256);
    }
    if v2 == 0 {
        assert(s2.pc == 3);
        assert(run(ir, s2, 0) == s2);
        assert(run(ir, s1, 1) == run(ir, s2, 0));
        assert(run(ir, s, 2) == run(ir, s1, 1));
        assert(run(ir, s, 2) == (State { tape: s.tape.update(s.ptr as int, 0), pc: 3, ..s }));
    } else {
        assert(s2.pc == 1 && s2.tape == s1.tape);
        assert(solves(v2 as int, n as int, 256, (k - 1) as int));
        lemma_clear_loop_iterates(n, s2, (k - 1) as nat);
        let f = choose|fuel: nat|
            run(ir, s2, fuel) == (State {
                tape: s2.tape.update(s2.ptr as int, 0),
                pc: 3,
                ..s2
            });
        assert(run(ir, s, (2 + f) as nat) == run(ir, s1, (1 + f) as nat));
        assert(run(ir, s1, (1 + f) as nat) == run(ir, s2, f));
        assert(s2.tape.update(s.ptr as int, 0) =~= s.tape.update(s.ptr as int, 0));
        assert(run(ir, s, (2 + f) as nat) == (State {
            tape: s.tape.update(s.ptr as int, 0),
            pc: 3,
            ..s
        }));
    }
}

/// Soundness of the `Clear` rewrite: on every tape, the loop
/// `[ Add(n) ]` with odd `n` terminates and leaves exactly the state
/// that a single `Clear` leaves - the current cell zeroed, everything
/// else untouched.
pub proof fn lemma_clear_equiv(tape: Seq<u8>, ptr: nat, input: Seq<u8>, output: Seq<u8>, n: u8)
    requires
        n % 2 == 1,
        tape.len() == TAPE_LEN,
        ptr < TAPE_LEN,
    ensures
        exists|fuel: nat|
            #[trigger] run(
                clear_loop_ir(n),
                State { tape, ptr, pc: 0, input, output },
                fuel,
            ) == (State { tape: tape.update(ptr as int, 0), ptr, pc: 3, input, output }),
        run(seq![Instruction::Clear], State { tape, ptr, pc: 0, input, output }, 1) == (State {
            tape: tape.update(ptr as int, 0),
            ptr,
            pc: 1,
            input,
            output,
        }),
{
    let ir = clear_loop_ir(n);
    let s0 = State { tape, ptr, pc: 0, input, output };
    let v = tape[ptr as int];
    let s1 = step(ir, s0);
    if v == 0 {
        assert(s1.pc == 3);
        assert(run(ir, s1, 0) == s1);
        assert(run(ir, s0, 1) == run(ir, s1, 0));
        assert(tape.update(ptr as int, 0) =~= tape);
        assert(run(ir, s0, 1) == (State {
            tape: tape.update(ptr as int, 0),
            ptr,
            pc: 3,
            input,
            output,
        }));
    } else {
        assert(s1.pc == 1 && s1.tape == tape);
        lemma_odd_hits_zero(v, n);
        let k = choose|k: int| solves(v as int, n as int, 256, k);
        lemma_clear_loop_iterates(n, s1, k as nat);
        let f = choose|fuel: nat|
            run(ir, s1, fuel) == (State {
                tape: s1.tape.update(s1.ptr as int, 0),
                pc: 3,
                ..s1
            });
        assert(run(ir, s0, (1 + f) as nat) == run(ir, s1, f));
    }
    let c = seq![Instruction::Clear];
    let sc = step(c, s0);
    assert(run(c, sc, 0) == sc);
    assert(run(c, s0, 1) == run(c, sc, 0));
}

/// Normalising an already-reduced byte is the identity.
proof fn lemma_wrap8n_u8(a: u8, b: u8)
    ensures
        wrap8n(a, b as int) == wrap8(a, b),
{
    lemma_wrap8_mod(a, b);
    vstd::arithmetic::div_mod::lemma_mod_bound(a + b, 256);
    vstd::arithmetic::div_mod::lemma_mod_add_multiples_vanish((a + b) % 256, 256);
    vstd::arithmetic::div_mod::lemma_small_mod(((a + b) % 256) as nat, 256);
}

/// Folding one unit into the running total keeps the same sum.
proof fn lemma_wrap8n_shift(a: u8, v: int)
    requires
        v >= 1,
    ensures
        wrap8n(wrap8(a, 1), v - 1) == wrap8n(a, v),
{
    lemma_wrap8_mod(a, 1);
    vstd::arithmetic::div_mod::lemma_mod_bound(a + 1, 256);
    vstd::arithmetic::div_mod::lemma_add_mod_noop(a + 1, v - 1, 256);
    vstd::arithmetic::div_mod::lemma_small_mod(((a + 1) % 256) as nat, 256);
    assert((wrap8(a, 1) + (v - 1)) % 256 == (a + v) % 256);
    vstd::arithmetic::div_mod::lemma_mod_bound(a + v, 256);
    vstd::arithmetic::div_mod::lemma_mod_add_multiples_vanish((a + v) % 256, 256);
    vstd::arithmetic::div_mod::lemma_small_mod(((a + v) % 256) as nat, 256);
    vstd::arithmetic::div_mod::lemma_mod_bound(wrap8(a, 1) + (v - 1), 256);
    vstd::arithmetic::div_mod::lemma_mod_add_multiples_vanish((wrap8(a, 1) + (v - 1)) % 256, 256);
    vstd::arithmetic::div_mod::lemma_small_mod(((wrap8(a, 1) + (v - 1)) % 256) as nat, 256);
}

/// Moving by `x` and then by `-x` returns to the same cell.
proof fn lemma_wrap_cancel(p: nat, x: int)
    requires
        p < TAPE_LEN,
    ensures
        wrap_ptr(wrap_ptr(p + x) + (-x)) == p,
{
    let l = TAPE_LEN as int;
    vstd::arithmetic::div_mod::lemma_add_mod_noop_right((p + x) % l, -x, l);
    vstd::arithmetic::div_mod::lemma_add_mod_noop(p + x, -x, l);
    assert(((p + x) % l + (-x)) % l == ((p + x) + (-x)) % l);
    vstd::arithmetic::div_mod::lemma_small_mod(p, TAPE_LEN as nat);
}

/// A move offset that is no multiple of the tape length leaves the cell.
proof fn lemma_wrap_ne(p: nat, x: int)
    requires
        p < TAPE_LEN,
        x % (TAPE_LEN as int) != 0,
    ensures
        wrap_ptr(p + x) != p,
{
    let l = TAPE_LEN as int;
    vstd::arithmetic::div_mod::lemma_mod_equivalence(p + x, p as int, l);
    vstd::arithmetic::div_mod::lemma_small_mod(p, TAPE_LEN as nat);
}

/// The loop `[ Add(-1) Move(x) Add(+1) Move(-x) ]` as a stream.
pub open spec fn addto_loop_ir(x: i32) -> Seq<Instruction> {
    seq![
        Instruction::JumpRight(5),
        Instruction::Add(255),
        Instruction::Move(x),
        Instruction::Add(1),
        Instruction::Move((-(x as int)) as i32),
        Instruction::JumpLeft(0),
    ]
}

/// From inside the body, the loop transfers the remaining count into
/// the target cell and zeroes the origin.
proof fn lemma_addto_loop_iterates(x: i32, s: State, v: nat)
    requires
        -0x7fff_ffff <= x as int,
        (x as int) % (TAPE_LEN as int) != 0,
        s.pc == 1,
        s.ptr < TAPE_LEN,
        s.tape.len() == TAPE_LEN,
        s.tape[s.ptr as int] as nat == v,
        v != 0,
    ensures
        exists|fuel: nat|
            #[trigger] run(addto_loop_ir(x), s, fuel) == (State {
                tape: s.tape.update(
                    wrap_ptr(s.ptr + x) as int,
                    wrap8n(s.tape[wrap_ptr(s.ptr + x) as int], v as int),
                ).update(s.ptr as int, 0),
                pc: 6,
                ..s
            }),
    decreases v,
{
    let ir = addto_loop_ir(x);
    let tgt = wrap_ptr(s.ptr + x);
    lemma_wrap_ne(s.ptr, x as int);
    lemma_wrap_cancel(s.ptr, x as int);
    assert((-(x as int)) as i32 == -(x as int));
    let a = s.tape[tgt as int];
    let s1 = step(ir, s);
    assert(wrap8(s.tape[s.ptr as int], 255) as nat == v - 1) by {
        assert(s.tape[s.ptr as int] + 255 > 255);
    }
    assert(s1.tape == s.tape.update(s.ptr as int, ((v - 1) as u8)) && s1.pc == 2);
    let s2 = step(ir, s1);
    assert(s2.ptr == tgt && s2.pc == 3);
    let s3 = step(ir, s2);
    assert(s2.tape[tgt as int] == a);
    let w = wrap8(a, 1);
    assert(s3.tape == s1.tape.update(tgt as int, w) && s3.pc == 4);
    let s4 = step(ir, s3);
    assert(s4.ptr == s.ptr && s4.pc == 5);
    let s5 = step(ir, s4);
    assert(s4.tape[s.ptr as int] as nat == v - 1);
    if v == 1 {
        assert(s5.pc == 6);
        assert(run(ir, s5, 0) == s5);
        assert(run(ir, s4, 1) == run(ir, s5, 0));
        assert(run(ir, s3, 2) == run(ir, s4, 1));
        assert(run(ir, s2, 3) == run(ir, s3, 2));
        assert(run(ir, s1, 4) == run(ir, s2, 3));
        assert(run(ir, s, 5) == run(ir, s1, 4));
        lemma_wrap8n_u8(a, 1);
        assert(s5.tape =~= s.tape.update(tgt as int, wrap8n(a, 1)).update(s.ptr as int, 0));
        assert(run(ir, s, 5) == (State {
            tape: s.tape.update(tgt as int, wrap8n(a, v as int)).update(s.ptr as int, 0),
            pc: 6,
            ..s
        }));
    } else {
        assert(s5.pc == 1 && s5.tape == s4.tape);
        assert(s5.tape[s5.ptr as int] as nat == v - 1);
        lemma_addto_loop_iterates(x, s5, (v - 1) as nat);
        let f = choose|fuel: nat|
            run(ir, s5, fuel) == (State {
                tape: s5.tape.update(
                    wrap_ptr(s5.ptr + x) as int,
                    wrap8n(s5.tape[wrap_ptr(s5.ptr + x) as int], (v - 1) as int),
                ).update(s5.ptr as int, 0),
                pc: 6,
                ..s5
            });
        assert(run(ir, s, (5 + f) as nat) == run(ir, s1, (4 + f) as nat));
        assert(run(ir, s1, (4 + f) as nat) == run(ir, s2, (3 + f) as nat));
        assert(run(ir, s2, (3 + f) as nat) == run(ir, s3, (2 + f) as nat));
        assert(run(ir, s3, (2 + f) as nat) == run(ir, s4, (1 + f) as nat));
        assert(run(ir, s4, (1 + f) as nat) == run(ir, s5, f));
        assert(s5.tape[tgt as int] == w);
        lemma_wrap8n_shift(a, v as int);
        assert(wrap8n(w, (v - 1) as int) == wrap8n(a, v as int));
        assert(s5.tape.update(tgt as int, wrap8n(a, v as int)).update(s.ptr as int, 0)
            =~= s.tape.update(tgt as int, wrap8n(a, v as int)).update(s.ptr as int, 0));
        assert(run(ir, s, (5 + f) as nat) == (State {
            tape: s.tape.update(tgt as int, wrap8n(a, v as int)).update(s.ptr as int, 0),
            pc: 6,
            ..s
        }));
    }
}

/// Soundness of the `AddTo` rewrite: on every tape, the loop
/// `[ Add(-1) Move(x) Add(+1) Move(-x) ]` terminates and has the same
/// net effect as a single `AddTo(x)` - the current cell's value added
/// into the cell at offset `x`, the current cell zeroed.
///
/// An offset that is a multiple of the tape length is excluded: there
/// the loop would spin on a non-zero cell while `AddTo` zeroes it.
pub proof fn lemma_addto_equiv(tape: Seq<u8>, ptr: nat, input: Seq<u8>, output: Seq<u8>, x: i32)
    requires
        tape.len() == TAPE_LEN,
        ptr < TAPE_LEN,
        (x as int) % (TAPE_LEN as int) != 0,
        -0x7fff_ffff <= x as int,
    ensures
        ({
            let t2 = tape.update(
                wrap_ptr(ptr + x) as int,
                wrap8(tape[wrap_ptr(ptr + x) as int], tape[ptr as int]),
            ).update(ptr as int, 0);
            &&& exists|fuel: nat|
                #[trigger] run(
                    addto_loop_ir(x),
                    State { tape, ptr, pc: 0, input, output },
                    fuel,
                ) == (State { tape: t2, ptr, pc: 6, input, output })
            &&& run(
                seq![Instruction::AddTo(x)],
                State { tape, ptr, pc: 0, input, output },
                1,
            ) == (State { tape: t2, ptr, pc: 1, input, output })
        }),
{
    let ir = addto_loop_ir(x);
    let s0 = State { tape, ptr, pc: 0, input, output };
    let tgt = wrap_ptr(ptr + x);
    lemma_wrap_ne(ptr, x as int);
    let v = tape[ptr as int];
    let a = tape[tgt as int];
    let t2 = tape.update(tgt as int, wrap8(a, v)).update(ptr as int, 0);
    let s1 = step(ir, s0);
    if v == 0 {
        assert(s1.pc == 6);
        assert(run(ir, s1, 0) == s1);
        assert(run(ir, s0, 1) == run(ir, s1, 0));
        assert(t2 =~= tape);
        assert(run(ir, s0, 1) == (State { tape: t2, ptr, pc: 6, input, output }));
    } else {
        assert(s1.pc == 1 && s1.tape == tape);
        lemma_addto_loop_iterates(x, s1, v as nat);
        let f = choose|fuel: nat|
            run(ir, s1, fuel) == (State {
                tape: s1.tape.update(
                    wrap_ptr(s1.ptr + x) as int,
                    wrap8n(s1.tape[wrap_ptr(s1.ptr + x) as int], v as int),
                ).update(s1.ptr as int, 0),
                pc: 6,
                ..s1
            });
        assert(run(ir, s0, (1 + f) as nat) == run(ir, s1, f));
        lemma_wrap8n_u8(a, v);
        assert(tape.update(tgt as int, wrap8n(a, v as int)).update(ptr as int, 0) == t2);
    }
    let c = seq![Instruction::AddTo(x)];
    let sc = step(c, s0);
    assert(run(c, sc, 0) == sc);
    assert(run(c, s0, 1) == run(c, sc, 0));
    assert(sc.tape == t2);
}

} // verus!
