//! The parser/optimiser: walks the source bytes, fuses runs of `+ - > <`,
//! matches brackets, and rewrites the three idiomatic loop shapes into
//! `Clear`, `AddTo` and `MoveUntil`.
//!
//! The whole pass is modelled by the spec fold [`parse_prefix`]; the
//! executable [`parse`] returns exactly what the model says, and
//! [`lemma_parse_prefix_inv`] proves the stream invariants (mutually
//! linked brackets, fused runs) by induction over the fold.

use vstd::prelude::*;

use crate::ir::Instruction;
use crate::ir::wrap8;
use crate::ir::well_linked;
use crate::ir::properly_nested;
use crate::ir::fused;

verus! {

/// A parse error: the bracket character without a partner and its byte
/// index in the source.
#[derive(Debug)]
pub struct UnbalancedBrackets(pub char, pub usize);

/// State of the fold: the stream built so far and the stack of open
/// brackets, each entry carrying (stream index, source byte index).
pub struct ParseSt {
    pub ir: Seq<Instruction>,
    pub stack: Seq<(nat, nat)>,
}

/// Result of folding a prefix: still going, or failed at the byte index
/// of a `]` that had no partner.
pub enum ParseFlow {
    Going(ParseSt),
    Failed(nat),
}

/// What parsing a whole source yields.
pub enum ParseOutcome {
    Prog(Seq<Instruction>),
    Unbalanced(char, nat),
}

/// Fuse a `+` or `-` (as `inc` 1 or 255) into the stream tail.
pub open spec fn fuse_add(st: ParseSt, inc: u8) -> ParseSt {
    if st.ir.len() > 0 && (st.ir.last() matches Instruction::Add(_)) {
        match st.ir.last() {
            Instruction::Add(v) => {
                let v2 = wrap8(v, inc);
                if v2 == 0 {
                    ParseSt { ir: st.ir.drop_last(), stack: st.stack }
                } else {
                    ParseSt {
                        ir: st.ir.update(st.ir.len() - 1, Instruction::Add(v2)),
                        stack: st.stack,
                    }
                }
            }
            _ => st,
        }
    } else {
        ParseSt { ir: st.ir.push(Instruction::Add(inc)), stack: st.stack }
    }
}

/// Fuse a `>` or `<` (as `inc` +1 or -1) into the stream tail.
pub open spec fn fuse_move(st: ParseSt, inc: int) -> ParseSt {
    if st.ir.len() > 0 && (st.ir.last() matches Instruction::Move(_)) {
        match st.ir.last() {
            Instruction::Move(v) => {
                let v2 = v + inc;
                if v2 == 0 {
                    ParseSt { ir: st.ir.drop_last(), stack: st.stack }
                } else {
                    ParseSt {
                        ir: st.ir.update(st.ir.len() - 1, Instruction::Move(v2 as i32)),
                        stack: st.stack,
                    }
                }
            }
            _ => st,
        }
    } else {
        ParseSt { ir: st.ir.push(Instruction::Move(inc as i32)), stack: st.stack }
    }
}

/// Stream tail is `JumpRight, Add(n)` with odd `n`: the loop sets the
/// cell to zero because odd increments visit zero modulo 256.
pub open spec fn is_clear_tail(ir: Seq<Instruction>) -> bool {
    let n = ir.len() as int;
    &&& ir.len() >= 2
    &&& ir[n - 2] matches Instruction::JumpRight(_)
    &&& ir[n - 1] matches Instruction::Add(a) && a % 2 == 1
}

/// Stream tail is `JumpRight, Add(-1), Move(x), Add(+1), Move(-x)`: the
/// loop moves the cell's value to offset `x` and zeroes the origin.
/// An offset that is a whole number of tape lengths is excluded: there
/// the loop spins on a non-zero cell, so the rewrite would not preserve
/// the semantics (see [`crate::sem::lemma_addto_equiv`]).
pub open spec fn is_addto_tail(ir: Seq<Instruction>) -> bool {
    let n = ir.len() as int;
    &&& ir.len() >= 5
    &&& ir[n - 5] matches Instruction::JumpRight(_)
    &&& ir[n - 4] == Instruction::Add(255u8)
    &&& ir[n - 3] matches Instruction::Move(x)
        && ir[n - 2] == Instruction::Add(1u8)
        && (ir[n - 1] matches Instruction::Move(y) && x as int == -(y as int))
        && (x as int) % 30000 != 0
}

/// The `Move` offset of an `AddTo` tail.
pub open spec fn addto_offset(ir: Seq<Instruction>) -> i32 {
    match ir[ir.len() - 3] {
        Instruction::Move(x) => x,
        _ => 0,
    }
}

/// Stream tail is `JumpRight, Move(n)`: scan while the cell is non-zero.
pub open spec fn is_moveuntil_tail(ir: Seq<Instruction>) -> bool {
    let n = ir.len() as int;
    &&& ir.len() >= 2
    &&& ir[n - 2] matches Instruction::JumpRight(_)
    &&& ir[n - 1] matches Instruction::Move(_)
}

/// The `Move` offset of a `MoveUntil` tail.
pub open spec fn moveuntil_offset(ir: Seq<Instruction>) -> i32 {
    match ir[ir.len() - 1] {
        Instruction::Move(x) => x,
        _ => 0,
    }
}

/// Handle a `]` at byte `pos`: pop the stack (or fail), link the popped
/// `JumpRight` to the current index, then apply the peephole table.
pub open spec fn close_bracket(st: ParseSt, pos: nat) -> ParseFlow {
    if st.stack.len() == 0 {
        ParseFlow::Failed(pos)
    } else {
        let p_ir = st.stack.last().0;
        let stack2 = st.stack.drop_last();
        let n = st.ir.len() as int;
        let fixed = st.ir.update(p_ir as int, Instruction::JumpRight(st.ir.len() as usize));
        let ir2 = if is_clear_tail(fixed) {
            fixed.take(n - 2).push(Instruction::Clear)
        } else if is_addto_tail(fixed) {
            fixed.take(n - 5).push(Instruction::AddTo(addto_offset(fixed)))
        } else if is_moveuntil_tail(fixed) {
            fixed.take(n - 2).push(Instruction::MoveUntil(moveuntil_offset(fixed)))
        } else {
            fixed.push(Instruction::JumpLeft(p_ir as usize))
        };
        ParseFlow::Going(ParseSt { ir: ir2, stack: stack2 })
    }
}

/// One byte of the fold. Bytes outside the eight operators are skipped.
pub open spec fn parse_step(st: ParseSt, b: u8, pos: nat) -> ParseFlow {
    if b == 43 {  // +
        ParseFlow::Going(fuse_add(st, 1))
    } else if b == 45 {  // -
        ParseFlow::Going(fuse_add(st, 255))
    } else if b == 62 {  // >
        ParseFlow::Going(fuse_move(st, 1))
    } else if b == 60 {  // <
        ParseFlow::Going(fuse_move(st, -1))
    } else if b == 46 {  // .
        ParseFlow::Going(ParseSt { ir: st.ir.push(Instruction::Output), stack: st.stack })
    } else if b == 44 {  // ,
        ParseFlow::Going(ParseSt { ir: st.ir.push(Instruction::Input), stack: st.stack })
    } else if b == 91 {  // [
        ParseFlow::Going(
            ParseSt {
                ir: st.ir.push(Instruction::JumpRight(0)),
                stack: st.stack.push((st.ir.len(), pos)),
            },
        )
    } else if b == 93 {  // ]
        close_bracket(st, pos)
    } else {
        ParseFlow::Going(st)
    }
}

/// Fold the first `i` bytes of the source.
pub open spec fn parse_prefix(src: Seq<u8>, i: nat) -> ParseFlow
    decreases i,
{
    if i == 0 {
        ParseFlow::Going(ParseSt { ir: Seq::empty(), stack: Seq::empty() })
    } else {
        match parse_prefix(src, (i - 1) as nat) {
            ParseFlow::Going(st) => parse_step(st, src[i - 1], (i - 1) as nat),
            ParseFlow::Failed(p) => ParseFlow::Failed(p),
        }
    }
}

/// What parsing the whole source yields: the stream, or the unmatched
/// bracket (the innermost open `[`, or the failing `]`) with its byte
/// index.
pub open spec fn spec_parse(src: Seq<u8>) -> ParseOutcome {
    match parse_prefix(src, src.len()) {
        ParseFlow::Failed(p) => ParseOutcome::Unbalanced(']', p),
        ParseFlow::Going(st) => {
            if st.stack.len() > 0 {
                ParseOutcome::Unbalanced('[', st.stack.last().1)
            } else {
                ParseOutcome::Prog(st.ir)
            }
        }
    }
}

/// Stream index `i` is an open bracket (still on the stack).
pub open spec fn on_stack(st: ParseSt, i: int) -> bool {
    exists|j: int| 0 <= j < st.stack.len() && (#[trigger] st.stack[j]).0 == i
}

/// The invariant the fold maintains, at `i` bytes consumed:
/// the stack indices increase strictly and point at placeholder
/// `JumpRight(0)` entries; every bracket entry is either open or
/// mutually linked; runs are fused; `Move` offsets are bounded by the
/// number of bytes read (so they fit an `i32`).
pub open spec fn parser_inv(st: ParseSt, i: nat) -> bool {
    &&& st.ir.len() <= i
    &&& forall|j: int, k: int|
        0 <= j < k < st.stack.len() ==> (#[trigger] st.stack[j]).0 < (#[trigger] st.stack[k]).0
    &&& forall|j: int|
        0 <= j < st.stack.len() ==> (#[trigger] st.stack[j]).0 < st.ir.len()
            && st.ir[st.stack[j].0 as int] == Instruction::JumpRight(0usize)
    &&& forall|p: int|
        0 <= p < st.ir.len() ==> ((#[trigger] st.ir[p]) matches Instruction::JumpLeft(q) ==> 0 <= q
            < p && (st.ir[q as int] matches Instruction::JumpRight(t) && t == p))
    &&& forall|p: int|
        0 <= p < st.ir.len() ==> ((#[trigger] st.ir[p]) matches Instruction::JumpRight(t) ==> (
        on_stack(st, p) && t == 0) || (p < t < st.ir.len()
            && (st.ir[t as int] matches Instruction::JumpLeft(q) && q == p)))
    &&& fused(st.ir)
    &&& forall|p: int|
        0 <= p < st.ir.len() ==> ((#[trigger] st.ir[p]) matches Instruction::Move(v) ==> -(i as int)
            <= v <= i as int)
}


/// Pushing an entry that is not a bracket preserves the invariant,
/// provided a pushed `Add`/`Move` is non-zero, bounded, and does not sit
/// beside an entry of its own kind.
proof fn lemma_inv_push(st: ParseSt, i: nat, x: Instruction)
    requires
        parser_inv(st, i),
        !(x matches Instruction::JumpRight(_)),
        !(x matches Instruction::JumpLeft(_)),
        x matches Instruction::Add(v) ==> v != 0 && (st.ir.len() == 0 || !(st.ir.last()
            matches Instruction::Add(_))),
        x matches Instruction::Move(v) ==> v != 0 && -(i as int) - 1 <= v <= i + 1 && (st.ir.len()
            == 0 || !(st.ir.last() matches Instruction::Move(_))),
    ensures
        parser_inv(ParseSt { ir: st.ir.push(x), stack: st.stack }, (i + 1) as nat),
{
    let st2 = ParseSt { ir: st.ir.push(x), stack: st.stack };
    let ir2 = st2.ir;
    let n = st.ir.len() as int;
    assert forall|j: int| 0 <= j < st2.stack.len() implies (#[trigger] st2.stack[j]).0
        < st2.ir.len() && st2.ir[st2.stack[j].0 as int] == Instruction::JumpRight(0usize) by {
        assert(st.stack[j].0 < st.ir.len());
        assert(ir2[st.stack[j].0 as int] == st.ir[st.stack[j].0 as int]);
    }
    assert forall|p: int| 0 <= p < ir2.len() implies ((#[trigger] ir2[p]) matches
        Instruction::JumpLeft(q) ==> 0 <= q < p && (ir2[q as int] matches Instruction::JumpRight(t)
        && t == p)) by {
        if p < n {
            assert(ir2[p] == st.ir[p]);
            match st.ir[p] {
                Instruction::JumpLeft(q) => {
                    assert(ir2[q as int] == st.ir[q as int]);
                }
                _ => {}
            }
        }
    }
    assert forall|p: int| 0 <= p < ir2.len() implies ((#[trigger] ir2[p]) matches
        Instruction::JumpRight(t) ==> (on_stack(st2, p) && t == 0) || (p < t < ir2.len()
        && (ir2[t as int] matches Instruction::JumpLeft(q) && q == p))) by {
        if p < n {
            assert(ir2[p] == st.ir[p]);
            match st.ir[p] {
                Instruction::JumpRight(t) => {
                    if on_stack(st, p) {
                        let j = choose|j: int|
                            0 <= j < st.stack.len() && (#[trigger] st.stack[j]).0 == p;
                        assert(0 <= j < st2.stack.len() && st2.stack[j].0 == p);
                        assert(on_stack(st2, p));
                    } else {
                        assert(p < t < st.ir.len());
                        assert(ir2[t as int] == st.ir[t as int]);
                    }
                }
                _ => {}
            }
        }
    }
    assert forall|p: int| 0 <= p < ir2.len() implies ((#[trigger] ir2[p]) matches
        Instruction::Add(v) ==> v != 0) by {
        if p < n {
            assert(ir2[p] == st.ir[p]);
        }
    }
    assert forall|p: int| 0 <= p < ir2.len() implies ((#[trigger] ir2[p]) matches
        Instruction::Move(v) ==> v != 0) by {
        if p < n {
            assert(ir2[p] == st.ir[p]);
        }
    }
    assert forall|p: int| 0 <= p && p + 1 < ir2.len() implies !((#[trigger] ir2[p]) matches
        Instruction::Add(_) && ir2[p + 1] matches Instruction::Add(_)) by {
        if p + 1 < n {
            assert(ir2[p] == st.ir[p] && ir2[p + 1] == st.ir[p + 1]);
        } else {
            assert(ir2[p] == st.ir[p] && ir2[p + 1] == x);
        }
    }
    assert forall|p: int| 0 <= p && p + 1 < ir2.len() implies !((#[trigger] ir2[p]) matches
        Instruction::Move(_) && ir2[p + 1] matches Instruction::Move(_)) by {
        if p + 1 < n {
            assert(ir2[p] == st.ir[p] && ir2[p + 1] == st.ir[p + 1]);
        } else {
            assert(ir2[p] == st.ir[p] && ir2[p + 1] == x);
        }
    }
    assert forall|p: int| 0 <= p < ir2.len() implies ((#[trigger] ir2[p]) matches
        Instruction::Move(v) ==> -(i as int) - 1 <= v <= i + 1) by {
        if p < n {
            assert(ir2[p] == st.ir[p]);
        }
    }
}

/// Dropping a final `Add` or `Move` entry preserves the invariant.
proof fn lemma_inv_drop_last(st: ParseSt, i: nat)
    requires
        parser_inv(st, i),
        st.ir.len() > 0,
        st.ir.last() matches Instruction::Add(_) || st.ir.last() matches Instruction::Move(_),
    ensures
        parser_inv(ParseSt { ir: st.ir.drop_last(), stack: st.stack }, (i + 1) as nat),
{
    let st2 = ParseSt { ir: st.ir.drop_last(), stack: st.stack };
    let ir2 = st2.ir;
    let n = st.ir.len() as int;
    assert forall|j: int| 0 <= j < st2.stack.len() implies (#[trigger] st2.stack[j]).0
        < st2.ir.len() && st2.ir[st2.stack[j].0 as int] == Instruction::JumpRight(0usize) by {
        assert(st.ir[st.stack[j].0 as int] == Instruction::JumpRight(0usize));
        assert(st.stack[j].0 != n - 1);
        assert(ir2[st.stack[j].0 as int] == st.ir[st.stack[j].0 as int]);
    }
    assert forall|p: int| 0 <= p < ir2.len() implies ((#[trigger] ir2[p]) matches
        Instruction::JumpLeft(q) ==> 0 <= q < p && (ir2[q as int] matches Instruction::JumpRight(t)
        && t == p)) by {
        assert(ir2[p] == st.ir[p]);
        match st.ir[p] {
            Instruction::JumpLeft(q) => {
                assert(ir2[q as int] == st.ir[q as int]);
            }
            _ => {}
        }
    }
    assert forall|p: int| 0 <= p < ir2.len() implies ((#[trigger] ir2[p]) matches
        Instruction::JumpRight(t) ==> (on_stack(st2, p) && t == 0) || (p < t < ir2.len()
        && (ir2[t as int] matches Instruction::JumpLeft(q) && q == p))) by {
        assert(ir2[p] == st.ir[p]);
        match st.ir[p] {
            Instruction::JumpRight(t) => {
                if on_stack(st, p) {
                    let j = choose|j: int| 0 <= j < st.stack.len() && (#[trigger] st.stack[j]).0 == p;
                    assert(0 <= j < st2.stack.len() && st2.stack[j].0 == p);
                    assert(on_stack(st2, p));
                } else {
                    assert(p < t < st.ir.len());
                    // the partner is a bracket, so it is not the dropped entry
                    assert(t != n - 1);
                    assert(ir2[t as int] == st.ir[t as int]);
                }
            }
            _ => {}
        }
    }
    assert forall|p: int| 0 <= p < ir2.len() implies ((#[trigger] ir2[p]) matches
        Instruction::Add(v) ==> v != 0) by {
        assert(ir2[p] == st.ir[p]);
    }
    assert forall|p: int| 0 <= p < ir2.len() implies ((#[trigger] ir2[p]) matches
        Instruction::Move(v) ==> v != 0) by {
        assert(ir2[p] == st.ir[p]);
    }
    assert forall|p: int| 0 <= p && p + 1 < ir2.len() implies !((#[trigger] ir2[p]) matches
        Instruction::Add(_) && ir2[p + 1] matches Instruction::Add(_)) by {
        assert(ir2[p] == st.ir[p] && ir2[p + 1] == st.ir[p + 1]);
    }
    assert forall|p: int| 0 <= p && p + 1 < ir2.len() implies !((#[trigger] ir2[p]) matches
        Instruction::Move(_) && ir2[p + 1] matches Instruction::Move(_)) by {
        assert(ir2[p] == st.ir[p] && ir2[p + 1] == st.ir[p + 1]);
    }
    assert forall|p: int| 0 <= p < ir2.len() implies ((#[trigger] ir2[p]) matches
        Instruction::Move(v) ==> -(i as int) - 1 <= v <= i + 1) by {
        assert(ir2[p] == st.ir[p]);
    }
}

/// Replacing a final `Add` by a non-zero `Add`, or a final `Move` by a
/// non-zero bounded `Move`, preserves the invariant.
proof fn lemma_inv_update_last(st: ParseSt, i: nat, x: Instruction)
    requires
        parser_inv(st, i),
        st.ir.len() > 0,
        (st.ir.last() matches Instruction::Add(_) && (x matches Instruction::Add(v) && v != 0))
            || (st.ir.last() matches Instruction::Move(_) && (x matches Instruction::Move(v) && v
            != 0 && -(i as int) - 1 <= v <= i + 1)),
    ensures
        parser_inv(
            ParseSt { ir: st.ir.update(st.ir.len() - 1, x), stack: st.stack },
            (i + 1) as nat,
        ),
{
    let st2 = ParseSt { ir: st.ir.update(st.ir.len() - 1, x), stack: st.stack };
    let ir2 = st2.ir;
    let n = st.ir.len() as int;
    assert forall|j: int| 0 <= j < st2.stack.len() implies (#[trigger] st2.stack[j]).0
        < st2.ir.len() && st2.ir[st2.stack[j].0 as int] == Instruction::JumpRight(0usize) by {
        assert(st.ir[st.stack[j].0 as int] == Instruction::JumpRight(0usize));
        assert(st.stack[j].0 != n - 1);
        assert(ir2[st.stack[j].0 as int] == st.ir[st.stack[j].0 as int]);
    }
    assert forall|p: int| 0 <= p < ir2.len() implies ((#[trigger] ir2[p]) matches
        Instruction::JumpLeft(q) ==> 0 <= q < p && (ir2[q as int] matches Instruction::JumpRight(t)
        && t == p)) by {
        if p != n - 1 {
            assert(ir2[p] == st.ir[p]);
            match st.ir[p] {
                Instruction::JumpLeft(q) => {
                    assert(q != n - 1);
                    assert(ir2[q as int] == st.ir[q as int]);
                }
                _ => {}
            }
        }
    }
    assert forall|p: int| 0 <= p < ir2.len() implies ((#[trigger] ir2[p]) matches
        Instruction::JumpRight(t) ==> (on_stack(st2, p) && t == 0) || (p < t < ir2.len()
        && (ir2[t as int] matches Instruction::JumpLeft(q) && q == p))) by {
        if p != n - 1 {
            assert(ir2[p] == st.ir[p]);
            match st.ir[p] {
                Instruction::JumpRight(t) => {
                    if on_stack(st, p) {
                        let j = choose|j: int|
                            0 <= j < st.stack.len() && (#[trigger] st.stack[j]).0 == p;
                        assert(0 <= j < st2.stack.len() && st2.stack[j].0 == p);
                        assert(on_stack(st2, p));
                    } else {
                        assert(t != n - 1);
                        assert(ir2[t as int] == st.ir[t as int]);
                    }
                }
                _ => {}
            }
        }
    }
    assert forall|p: int| 0 <= p < ir2.len() implies ((#[trigger] ir2[p]) matches
        Instruction::Add(v) ==> v != 0) by {
        if p != n - 1 {
            assert(ir2[p] == st.ir[p]);
        }
    }
    assert forall|p: int| 0 <= p < ir2.len() implies ((#[trigger] ir2[p]) matches
        Instruction::Move(v) ==> v != 0) by {
        if p != n - 1 {
            assert(ir2[p] == st.ir[p]);
        }
    }
    assert forall|p: int| 0 <= p && p + 1 < ir2.len() implies !((#[trigger] ir2[p]) matches
        Instruction::Add(_) && ir2[p + 1] matches Instruction::Add(_)) by {
        assert(p != n - 1);
        assert(ir2[p] == st.ir[p]);
        if p + 1 != n - 1 {
            assert(ir2[p + 1] == st.ir[p + 1]);
        }
    }
    assert forall|p: int| 0 <= p && p + 1 < ir2.len() implies !((#[trigger] ir2[p]) matches
        Instruction::Move(_) && ir2[p + 1] matches Instruction::Move(_)) by {
        assert(p != n - 1);
        assert(ir2[p] == st.ir[p]);
        if p + 1 != n - 1 {
            assert(ir2[p + 1] == st.ir[p + 1]);
        }
    }
    assert forall|p: int| 0 <= p < ir2.len() implies ((#[trigger] ir2[p]) matches
        Instruction::Move(v) ==> -(i as int) - 1 <= v <= i + 1) by {
        if p != n - 1 {
            assert(ir2[p] == st.ir[p]);
        }
    }
}

/// Fusing `+`/`-` preserves the invariant.
proof fn lemma_fuse_add_inv(st: ParseSt, i: nat, inc: u8)
    requires
        parser_inv(st, i),
        inc == 1 || inc == 255,
    ensures
        parser_inv(fuse_add(st, inc), (i + 1) as nat),
{
    if st.ir.len() > 0 && (st.ir.last() matches Instruction::Add(_)) {
        match st.ir.last() {
            Instruction::Add(v) => {
                let v2 = wrap8(v, inc);
                if v2 == 0 {
                    lemma_inv_drop_last(st, i);
                } else {
                    lemma_inv_update_last(st, i, Instruction::Add(v2));
                }
            }
            _ => {}
        }
    } else {
        lemma_inv_push(st, i, Instruction::Add(inc));
    }
}

/// Fusing `>`/`<` preserves the invariant.
proof fn lemma_fuse_move_inv(st: ParseSt, i: nat, inc: int)
    requires
        parser_inv(st, i),
        inc == 1 || inc == -1,
        i + 1 <= 0x7fff_ffff,
    ensures
        parser_inv(fuse_move(st, inc), (i + 1) as nat),
{
    if st.ir.len() > 0 && (st.ir.last() matches Instruction::Move(_)) {
        match st.ir.last() {
            Instruction::Move(v) => {
                assert(-(i as int) <= v <= i as int);
                let v2 = v + inc;
                if v2 == 0 {
                    lemma_inv_drop_last(st, i);
                } else {
                    assert(v2 as i32 == v2);
                    lemma_inv_update_last(st, i, Instruction::Move(v2 as i32));
                }
            }
            _ => {}
        }
    } else {
        lemma_inv_push(st, i, Instruction::Move(inc as i32));
    }
}

/// Opening a bracket (push the placeholder, push the stack entry)
/// preserves the invariant.
proof fn lemma_open_bracket_inv(st: ParseSt, i: nat, pos: nat)
    requires
        parser_inv(st, i),
    ensures
        parser_inv(
            ParseSt {
                ir: st.ir.push(Instruction::JumpRight(0)),
                stack: st.stack.push((st.ir.len(), pos)),
            },
            (i + 1) as nat,
        ),
{
    let st2 = ParseSt {
        ir: st.ir.push(Instruction::JumpRight(0)),
        stack: st.stack.push((st.ir.len(), pos)),
    };
    let ir2 = st2.ir;
    let n = st.ir.len() as int;
    assert forall|j: int, k: int| 0 <= j < k < st2.stack.len() implies (#[trigger] st2.stack[j]).0
        < (#[trigger] st2.stack[k]).0 by {
        if k < st.stack.len() {
            assert(st2.stack[j] == st.stack[j] && st2.stack[k] == st.stack[k]);
        } else {
            assert(st2.stack[j] == st.stack[j]);
            assert(st.stack[j].0 < st.ir.len());
            assert(st2.stack[k].0 == st.ir.len());
        }
    }
    assert forall|j: int| 0 <= j < st2.stack.len() implies (#[trigger] st2.stack[j]).0
        < st2.ir.len() && st2.ir[st2.stack[j].0 as int] == Instruction::JumpRight(0usize) by {
        if j < st.stack.len() {
            assert(st2.stack[j] == st.stack[j]);
            assert(st.stack[j].0 < st.ir.len());
            assert(ir2[st.stack[j].0 as int] == st.ir[st.stack[j].0 as int]);
        } else {
            assert(st2.stack[j].0 == st.ir.len());
            assert(ir2[n] == Instruction::JumpRight(0usize));
        }
    }
    assert forall|p: int| 0 <= p < ir2.len() implies ((#[trigger] ir2[p]) matches
        Instruction::JumpLeft(q) ==> 0 <= q < p && (ir2[q as int] matches Instruction::JumpRight(t)
        && t == p)) by {
        if p < n {
            assert(ir2[p] == st.ir[p]);
            match st.ir[p] {
                Instruction::JumpLeft(q) => {
                    assert(ir2[q as int] == st.ir[q as int]);
                }
                _ => {}
            }
        }
    }
    assert forall|p: int| 0 <= p < ir2.len() implies ((#[trigger] ir2[p]) matches
        Instruction::JumpRight(t) ==> (on_stack(st2, p) && t == 0) || (p < t < ir2.len()
        && (ir2[t as int] matches Instruction::JumpLeft(q) && q == p))) by {
        if p == n {
            assert(st2.stack[st2.stack.len() - 1].0 == p);
            assert(on_stack(st2, p));
        } else {
            assert(ir2[p] == st.ir[p]);
            match st.ir[p] {
                Instruction::JumpRight(t) => {
                    if on_stack(st, p) {
                        let j = choose|j: int|
                            0 <= j < st.stack.len() && (#[trigger] st.stack[j]).0 == p;
                        assert(st2.stack[j] == st.stack[j]);
                        assert(0 <= j < st2.stack.len() && st2.stack[j].0 == p);
                        assert(on_stack(st2, p));
                    } else {
                        assert(ir2[t as int] == st.ir[t as int]);
                    }
                }
                _ => {}
            }
        }
    }
    assert forall|p: int| 0 <= p < ir2.len() implies ((#[trigger] ir2[p]) matches
        Instruction::Add(v) ==> v != 0) by {
        if p < n {
            assert(ir2[p] == st.ir[p]);
        }
    }
    assert forall|p: int| 0 <= p < ir2.len() implies ((#[trigger] ir2[p]) matches
        Instruction::Move(v) ==> v != 0) by {
        if p < n {
            assert(ir2[p] == st.ir[p]);
        }
    }
    assert forall|p: int| 0 <= p && p + 1 < ir2.len() implies !((#[trigger] ir2[p]) matches
        Instruction::Add(_) && ir2[p + 1] matches Instruction::Add(_)) by {
        assert(ir2[p] == st.ir[p]);
        if p + 1 < n {
            assert(ir2[p + 1] == st.ir[p + 1]);
        }
    }
    assert forall|p: int| 0 <= p && p + 1 < ir2.len() implies !((#[trigger] ir2[p]) matches
        Instruction::Move(_) && ir2[p + 1] matches Instruction::Move(_)) by {
        assert(ir2[p] == st.ir[p]);
        if p + 1 < n {
            assert(ir2[p + 1] == st.ir[p + 1]);
        }
    }
    assert forall|p: int| 0 <= p < ir2.len() implies ((#[trigger] ir2[p]) matches
        Instruction::Move(v) ==> -(i as int) - 1 <= v <= i + 1) by {
        if p < n {
            assert(ir2[p] == st.ir[p]);
        }
    }
}

/// If everything above stream position `k` is an `Add` or `Move` run and
/// `k` itself is a bracket (or the top of the stack), then `k` is
/// exactly the top of the stack: the innermost open bracket.
proof fn lemma_top_position(st: ParseSt, k: int)
    requires
        bracket_stack_inv(st),
        st.stack.len() > 0,
        0 <= k < st.ir.len(),
        k == st.stack.last().0 || (st.ir[k] matches Instruction::JumpRight(_)),
        forall|m: int|
            k < m < st.ir.len() ==> (((#[trigger] st.ir[m]) matches Instruction::Add(_)) || (
            st.ir[m] matches Instruction::Move(_))),
    ensures
        st.stack.last().0 == k,
{
    let p_ir = st.stack.last().0 as int;
    assert(st.ir[p_ir] == Instruction::JumpRight(0usize));
    assert(p_ir <= k);
    if p_ir != k {
        assert(st.ir[k] matches Instruction::JumpRight(_));
        match st.ir[k] {
            Instruction::JumpRight(t) => {
                if on_stack(st, k) {
                    let j = choose|j: int|
                        0 <= j < st.stack.len() && (#[trigger] st.stack[j]).0 == k;
                    if j < st.stack.len() - 1 {
                        assert(st.stack[j].0 < st.stack[st.stack.len() - 1].0);
                        assert(false);
                    }
                    assert(false);
                } else {
                    assert(k < t < st.ir.len());
                    assert(st.ir[t as int] matches Instruction::JumpLeft(q));
                    assert(false);
                }
            }
            _ => {}
        }
    }
}

/// The bracket-related part of the invariant, all that locating the
/// innermost open bracket needs.
pub open spec fn bracket_stack_inv(st: ParseSt) -> bool {
    &&& forall|j: int, k: int|
        0 <= j < k < st.stack.len() ==> (#[trigger] st.stack[j]).0 < (#[trigger] st.stack[k]).0
    &&& forall|j: int|
        0 <= j < st.stack.len() ==> (#[trigger] st.stack[j]).0 < st.ir.len()
            && st.ir[st.stack[j].0 as int] == Instruction::JumpRight(0usize)
    &&& forall|p: int|
        0 <= p < st.ir.len() ==> ((#[trigger] st.ir[p]) matches Instruction::JumpRight(t) ==> (
        on_stack(st, p) && t == 0) || (p < t < st.ir.len()
            && (st.ir[t as int] matches Instruction::JumpLeft(q) && q == p)))
}

/// Cutting the stream back to the popped bracket (which the peephole
/// rules erase together with the loop body) preserves the invariant.
proof fn lemma_inv_take(st: ParseSt, i: nat, k: int)
    requires
        parser_inv(st, i),
        st.stack.len() > 0,
        st.stack.last().0 == k,
        0 <= k <= st.ir.len() - 1,
        forall|m: int|
            k < m < st.ir.len() ==> (((#[trigger] st.ir[m]) matches Instruction::Add(_)) || (
            st.ir[m] matches Instruction::Move(_))),
    ensures
        parser_inv(ParseSt { ir: st.ir.take(k), stack: st.stack.drop_last() }, i),
{
    let st3 = ParseSt { ir: st.ir.take(k), stack: st.stack.drop_last() };
    let ir3 = st3.ir;
    assert forall|j: int| 0 <= j < st3.stack.len() implies st3.stack[j] == st.stack[j]
        && (#[trigger] st3.stack[j]).0 < k by {
        assert(st.stack[j].0 < st.stack[st.stack.len() - 1].0);
    }
    assert forall|j: int| 0 <= j < st3.stack.len() implies (#[trigger] st3.stack[j]).0
        < st3.ir.len() && st3.ir[st3.stack[j].0 as int] == Instruction::JumpRight(0usize) by {
        assert(st3.stack[j] == st.stack[j] && st3.stack[j].0 < k);
        assert(st.ir[st.stack[j].0 as int] == Instruction::JumpRight(0usize));
        assert(ir3[st.stack[j].0 as int] == st.ir[st.stack[j].0 as int]);
    }
    assert forall|p: int| 0 <= p < ir3.len() implies ((#[trigger] ir3[p]) matches
        Instruction::JumpLeft(q) ==> 0 <= q < p && (ir3[q as int] matches Instruction::JumpRight(t)
        && t == p)) by {
        assert(ir3[p] == st.ir[p]);
        match st.ir[p] {
            Instruction::JumpLeft(q) => {
                assert(ir3[q as int] == st.ir[q as int]);
            }
            _ => {}
        }
    }
    assert forall|p: int| 0 <= p < ir3.len() implies ((#[trigger] ir3[p]) matches
        Instruction::JumpRight(t) ==> (on_stack(st3, p) && t == 0) || (p < t < ir3.len()
        && (ir3[t as int] matches Instruction::JumpLeft(q) && q == p))) by {
        assert(ir3[p] == st.ir[p]);
        match st.ir[p] {
            Instruction::JumpRight(t) => {
                if on_stack(st, p) {
                    let j = choose|j: int| 0 <= j < st.stack.len() && (#[trigger] st.stack[j]).0 == p;
                    assert(j < st.stack.len() - 1);
                    assert(st3.stack[j] == st.stack[j]);
                    assert(on_stack(st3, p));
                } else {
                    assert(p < t < st.ir.len());
                    assert(st.ir[t as int] matches Instruction::JumpLeft(q) && q == p);
                    // the partner is a JumpLeft, so it lies below the cut
                    assert(st.ir[k] == Instruction::JumpRight(0usize));
                    assert(t != k);
                    assert(t < k);
                    assert(ir3[t as int] == st.ir[t as int]);
                }
            }
            _ => {}
        }
    }
    assert forall|p: int| 0 <= p < ir3.len() implies ((#[trigger] ir3[p]) matches
        Instruction::Add(v) ==> v != 0) by {
        assert(ir3[p] == st.ir[p]);
    }
    assert forall|p: int| 0 <= p < ir3.len() implies ((#[trigger] ir3[p]) matches
        Instruction::Move(v) ==> v != 0) by {
        assert(ir3[p] == st.ir[p]);
    }
    assert forall|p: int| 0 <= p && p + 1 < ir3.len() implies !((#[trigger] ir3[p]) matches
        Instruction::Add(_) && ir3[p + 1] matches Instruction::Add(_)) by {
        assert(ir3[p] == st.ir[p] && ir3[p + 1] == st.ir[p + 1]);
    }
    assert forall|p: int| 0 <= p && p + 1 < ir3.len() implies !((#[trigger] ir3[p]) matches
        Instruction::Move(_) && ir3[p + 1] matches Instruction::Move(_)) by {
        assert(ir3[p] == st.ir[p] && ir3[p + 1] == st.ir[p + 1]);
    }
    assert forall|p: int| 0 <= p < ir3.len() implies ((#[trigger] ir3[p]) matches
        Instruction::Move(v) ==> -(i as int) <= v <= i as int) by {
        assert(ir3[p] == st.ir[p]);
    }
}

/// Closing a bracket preserves the invariant, in all four shapes the
/// peephole table can take.
proof fn lemma_close_bracket_inv(st: ParseSt, i: nat, pos: nat)
    requires
        parser_inv(st, i),
        i <= 0x7fff_ffff,
        st.stack.len() > 0,
    ensures
        close_bracket(st, pos) matches ParseFlow::Going(st2) && parser_inv(st2, (i + 1) as nat),
{
    let p_ir = st.stack.last().0 as int;
    let stack2 = st.stack.drop_last();
    let n = st.ir.len() as int;
    let cur = st.ir.len() as usize;
    let fixed = st.ir.update(p_ir, Instruction::JumpRight(cur));
    assert(0 <= p_ir < n);
    assert(st.ir[p_ir] == Instruction::JumpRight(0usize));
    if is_clear_tail(fixed) {
        // the popped bracket is the JumpRight of the tail
        assert(p_ir != n - 1 && st.ir[n - 1] == fixed[n - 1]);
        assert forall|m: int| n - 2 < m < st.ir.len() implies (((#[trigger] st.ir[m]) matches
            Instruction::Add(_)) || (st.ir[m] matches Instruction::Move(_))) by {}
        if p_ir != n - 2 {
            assert(st.ir[n - 2] == fixed[n - 2]);
        }
        lemma_top_position(st, n - 2);
        assert(fixed.take(n - 2) =~= st.ir.take(n - 2));
        lemma_inv_take(st, i, n - 2);
        lemma_inv_push(
            ParseSt { ir: st.ir.take(n - 2), stack: stack2 },
            i,
            Instruction::Clear,
        );
    } else if is_addto_tail(fixed) {
        assert(p_ir != n - 1 && st.ir[n - 1] == fixed[n - 1]);
        assert(p_ir != n - 2 && st.ir[n - 2] == fixed[n - 2]);
        assert(p_ir != n - 3 && st.ir[n - 3] == fixed[n - 3]);
        assert(p_ir != n - 4 && st.ir[n - 4] == fixed[n - 4]);
        assert forall|m: int| n - 5 < m < st.ir.len() implies (((#[trigger] st.ir[m]) matches
            Instruction::Add(_)) || (st.ir[m] matches Instruction::Move(_))) by {}
        if p_ir != n - 5 {
            assert(st.ir[n - 5] == fixed[n - 5]);
        }
        lemma_top_position(st, n - 5);
        assert(fixed.take(n - 5) =~= st.ir.take(n - 5));
        lemma_inv_take(st, i, n - 5);
        lemma_inv_push(
            ParseSt { ir: st.ir.take(n - 5), stack: stack2 },
            i,
            Instruction::AddTo(addto_offset(fixed)),
        );
    } else if is_moveuntil_tail(fixed) {
        assert(p_ir != n - 1 && st.ir[n - 1] == fixed[n - 1]);
        assert forall|m: int| n - 2 < m < st.ir.len() implies (((#[trigger] st.ir[m]) matches
            Instruction::Add(_)) || (st.ir[m] matches Instruction::Move(_))) by {}
        if p_ir != n - 2 {
            assert(st.ir[n - 2] == fixed[n - 2]);
        }
        lemma_top_position(st, n - 2);
        assert(fixed.take(n - 2) =~= st.ir.take(n - 2));
        lemma_inv_take(st, i, n - 2);
        lemma_inv_push(
            ParseSt { ir: st.ir.take(n - 2), stack: stack2 },
            i,
            Instruction::MoveUntil(moveuntil_offset(fixed)),
        );
    } else {
        lemma_close_jumpleft_inv(st, i);
    }
}

/// Linking a pair keeps every `JumpLeft` mutually linked.
proof fn lemma_jl_left(ir: Seq<Instruction>, p_ir: int)
    requires
        ir.len() <= 0x7fff_ffff,
        0 <= p_ir < ir.len(),
        ir[p_ir] == Instruction::JumpRight(0usize),
        forall|p: int|
            0 <= p < ir.len() ==> ((#[trigger] ir[p]) matches Instruction::JumpLeft(q) ==> 0 <= q
                < p && (ir[q as int] matches Instruction::JumpRight(t) && t == p)),
    ensures
        ({
            let ir2 = ir.update(p_ir, Instruction::JumpRight(ir.len() as usize)).push(
                Instruction::JumpLeft(p_ir as usize),
            );
            forall|p: int|
                0 <= p < ir2.len() ==> ((#[trigger] ir2[p]) matches Instruction::JumpLeft(q) ==> 0
                    <= q < p && (ir2[q as int] matches Instruction::JumpRight(t) && t == p))
        }),
{
    let n = ir.len() as int;
    let cur = ir.len() as usize;
    let ir2 = ir.update(p_ir, Instruction::JumpRight(cur)).push(
        Instruction::JumpLeft(p_ir as usize),
    );
    assert forall|p: int| 0 <= p < ir2.len() implies ((#[trigger] ir2[p]) matches
        Instruction::JumpLeft(q) ==> 0 <= q < p && (ir2[q as int] matches
        Instruction::JumpRight(t) && t == p)) by {
        if p == n {
            assert(ir2[p] == Instruction::JumpLeft(p_ir as usize));
            assert(ir2[p_ir] == Instruction::JumpRight(cur));
        } else if p != p_ir {
            assert(ir2[p] == ir[p]);
            match ir[p] {
                Instruction::JumpLeft(q) => {
                    // the partner of a linked pair is never the placeholder
                    assert(ir[q as int] matches Instruction::JumpRight(t) && t == p);
                    assert(q != p_ir);
                    assert(ir2[q as int] == ir[q as int]);
                }
                _ => {}
            }
        } else {
            assert(ir2[p] == Instruction::JumpRight(cur));
        }
    }
}

/// Linking a pair keeps every `JumpRight` open or mutually linked.
proof fn lemma_jl_right(st: ParseSt)
    requires
        st.ir.len() <= 0x7fff_ffff,
        st.stack.len() > 0,
        forall|j: int, k: int|
            0 <= j < k < st.stack.len() ==> (#[trigger] st.stack[j]).0 < (#[trigger] st.stack[k]).0,
        forall|j: int|
            0 <= j < st.stack.len() ==> (#[trigger] st.stack[j]).0 < st.ir.len()
                && st.ir[st.stack[j].0 as int] == Instruction::JumpRight(0usize),
        forall|p: int|
            0 <= p < st.ir.len() ==> ((#[trigger] st.ir[p]) matches Instruction::JumpRight(t) ==> (
            on_stack(st, p) && t == 0) || (p < t < st.ir.len()
                && (st.ir[t as int] matches Instruction::JumpLeft(q) && q == p))),
    ensures
        ({
            let st2 = ParseSt {
                ir: st.ir.update(
                    st.stack.last().0 as int,
                    Instruction::JumpRight(st.ir.len() as usize),
                ).push(Instruction::JumpLeft(st.stack.last().0 as usize)),
                stack: st.stack.drop_last(),
            };
            forall|p: int|
                0 <= p < st2.ir.len() ==> ((#[trigger] st2.ir[p]) matches Instruction::JumpRight(t)
                    ==> (on_stack(st2, p) && t == 0) || (p < t < st2.ir.len()
                    && (st2.ir[t as int] matches Instruction::JumpLeft(q) && q == p)))
        }),
{
    let p_ir = st.stack.last().0 as int;
    let stack2 = st.stack.drop_last();
    let n = st.ir.len() as int;
    let cur = st.ir.len() as usize;
    let fixed = st.ir.update(p_ir, Instruction::JumpRight(cur));
    assert(0 <= p_ir < n);
    assert(st.ir[p_ir] == Instruction::JumpRight(0usize));
    let st2 = ParseSt { ir: fixed.push(Instruction::JumpLeft(p_ir as usize)), stack: stack2 };
    let ir2 = st2.ir;
    assert forall|j: int| 0 <= j < stack2.len() implies stack2[j] == st.stack[j]
        && (#[trigger] stack2[j]).0 < p_ir by {
        assert(st.stack[j].0 < st.stack[st.stack.len() - 1].0);
    }
    assert forall|p: int| 0 <= p < ir2.len() implies ((#[trigger] ir2[p]) matches
        Instruction::JumpRight(t) ==> (on_stack(st2, p) && t == 0) || (p < t < ir2.len()
        && (ir2[t as int] matches Instruction::JumpLeft(q) && q == p))) by {
        if p == p_ir {
            assert(ir2[p] == Instruction::JumpRight(cur));
            assert(ir2[n] == Instruction::JumpLeft(p_ir as usize));
        } else if p < n {
            assert(ir2[p] == st.ir[p]);
            match st.ir[p] {
                Instruction::JumpRight(t) => {
                    if on_stack(st, p) {
                        let j = choose|j: int|
                            0 <= j < st.stack.len() && (#[trigger] st.stack[j]).0 == p;
                        assert(j < st.stack.len() - 1);
                        assert(st2.stack[j] == st.stack[j]);
                        assert(on_stack(st2, p));
                    } else {
                        assert(p < t < st.ir.len());
                        assert(st.ir[t as int] matches Instruction::JumpLeft(q) && q == p);
                        assert(t != p_ir);
                        assert(ir2[t as int] == st.ir[t as int]);
                    }
                }
                _ => {}
            }
        } else {
            assert(ir2[p] == Instruction::JumpLeft(p_ir as usize));
        }
    }
}

/// The plain case of a `]`, run-shape conjuncts.
proof fn lemma_close_jumpleft_runs(st: ParseSt, i: nat)
    requires
        parser_inv(st, i),
        i <= 0x7fff_ffff,
        st.stack.len() > 0,
    ensures
        ({
            let st2 = ParseSt {
                ir: st.ir.update(
                    st.stack.last().0 as int,
                    Instruction::JumpRight(st.ir.len() as usize),
                ).push(Instruction::JumpLeft(st.stack.last().0 as usize)),
                stack: st.stack.drop_last(),
            };
            &&& forall|j: int, k: int|
                0 <= j < k < st2.stack.len() ==> (#[trigger] st2.stack[j]).0
                    < (#[trigger] st2.stack[k]).0
            &&& forall|j: int|
                0 <= j < st2.stack.len() ==> (#[trigger] st2.stack[j]).0 < st2.ir.len()
                    && st2.ir[st2.stack[j].0 as int] == Instruction::JumpRight(0usize)
            &&& fused(st2.ir)
            &&& forall|p: int|
                0 <= p < st2.ir.len() ==> ((#[trigger] st2.ir[p]) matches Instruction::Move(v)
                    ==> -(i as int) - 1 <= v <= i + 1)
        }),
{
    let p_ir = st.stack.last().0 as int;
    let stack2 = st.stack.drop_last();
    let n = st.ir.len() as int;
    let cur = st.ir.len() as usize;
    let fixed = st.ir.update(p_ir, Instruction::JumpRight(cur));
    assert(0 <= p_ir < n);
    assert(st.ir[p_ir] == Instruction::JumpRight(0usize));
    let st2 = ParseSt { ir: fixed.push(Instruction::JumpLeft(p_ir as usize)), stack: stack2 };
    let ir2 = st2.ir;
    assert forall|j: int| 0 <= j < stack2.len() implies stack2[j] == st.stack[j]
        && (#[trigger] stack2[j]).0 < p_ir by {
        assert(st.stack[j].0 < st.stack[st.stack.len() - 1].0);
    }
    assert forall|j: int| 0 <= j < st2.stack.len() implies (#[trigger] st2.stack[j]).0
        < st2.ir.len() && st2.ir[st2.stack[j].0 as int] == Instruction::JumpRight(0usize) by {
        assert(stack2[j] == st.stack[j] && stack2[j].0 < p_ir);
        assert(st.ir[st.stack[j].0 as int] == Instruction::JumpRight(0usize));
        assert(ir2[st.stack[j].0 as int] == st.ir[st.stack[j].0 as int]);
    }
    assert forall|p: int| 0 <= p < ir2.len() implies ((#[trigger] ir2[p]) matches
        Instruction::Add(v) ==> v != 0) by {
        if p < n && p != p_ir {
            assert(ir2[p] == st.ir[p]);
        }
    }
    assert forall|p: int| 0 <= p < ir2.len() implies ((#[trigger] ir2[p]) matches
        Instruction::Move(v) ==> v != 0) by {
        if p < n && p != p_ir {
            assert(ir2[p] == st.ir[p]);
        }
    }
    assert forall|p: int| 0 <= p && p + 1 < ir2.len() implies !((#[trigger] ir2[p]) matches
        Instruction::Add(_) && ir2[p + 1] matches Instruction::Add(_)) by {
        if p + 1 < n {
            if p != p_ir {
                assert(ir2[p] == st.ir[p]);
            }
            if p + 1 != p_ir {
                assert(ir2[p + 1] == st.ir[p + 1]);
            }
        } else {
            assert(ir2[p + 1] == Instruction::JumpLeft(p_ir as usize));
        }
    }
    assert forall|p: int| 0 <= p && p + 1 < ir2.len() implies !((#[trigger] ir2[p]) matches
        Instruction::Move(_) && ir2[p + 1] matches Instruction::Move(_)) by {
        if p + 1 < n {
            if p != p_ir {
                assert(ir2[p] == st.ir[p]);
            }
            if p + 1 != p_ir {
                assert(ir2[p + 1] == st.ir[p + 1]);
            }
        } else {
            assert(ir2[p + 1] == Instruction::JumpLeft(p_ir as usize));
        }
    }
    assert forall|p: int| 0 <= p < ir2.len() implies ((#[trigger] ir2[p]) matches
        Instruction::Move(v) ==> -(i as int) - 1 <= v <= i + 1) by {
        if p < n && p != p_ir {
            assert(ir2[p] == st.ir[p]);
        }
    }
}

/// The plain case of a `]`: link the pair and append the `JumpLeft`.
proof fn lemma_close_jumpleft_inv(st: ParseSt, i: nat)
    requires
        parser_inv(st, i),
        i <= 0x7fff_ffff,
        st.stack.len() > 0,
    ensures
        parser_inv(
            ParseSt {
                ir: st.ir.update(
                    st.stack.last().0 as int,
                    Instruction::JumpRight(st.ir.len() as usize),
                ).push(Instruction::JumpLeft(st.stack.last().0 as usize)),
                stack: st.stack.drop_last(),
            },
            (i + 1) as nat,
        ),
{
    lemma_jl_left(st.ir, st.stack.last().0 as int);
    lemma_jl_right(st);
    lemma_close_jumpleft_runs(st, i);
}

/// The invariant holds after folding any prefix.
proof fn lemma_parse_prefix_inv(src: Seq<u8>, i: nat)
    requires
        i <= src.len(),
        src.len() <= 0x7fff_ffff,
    ensures
        parse_prefix(src, i) matches ParseFlow::Going(st) ==> parser_inv(st, i),
    decreases i,
{
    if i > 0 {
        lemma_parse_prefix_inv(src, (i - 1) as nat);
        match parse_prefix(src, (i - 1) as nat) {
            ParseFlow::Going(st) => {
                let b = src[i - 1];
                let pos = (i - 1) as nat;
                if b == 43 {
                    lemma_fuse_add_inv(st, pos, 1);
                } else if b == 45 {
                    lemma_fuse_add_inv(st, pos, 255);
                } else if b == 62 {
                    lemma_fuse_move_inv(st, pos, 1);
                } else if b == 60 {
                    lemma_fuse_move_inv(st, pos, -1);
                } else if b == 46 {
                    lemma_inv_push(st, pos, Instruction::Output);
                } else if b == 44 {
                    lemma_inv_push(st, pos, Instruction::Input);
                } else if b == 91 {
                    lemma_open_bracket_inv(st, pos, pos);
                } else if b == 93 {
                    if st.stack.len() > 0 {
                        lemma_close_bracket_inv(st, pos, pos);
                    }
                } else {
                    assert forall|p: int| 0 <= p < st.ir.len() implies ((#[trigger] st.ir[p])
                        matches Instruction::Move(v) ==> -(i as int) <= v <= i as int) by {}
                }
            }
            ParseFlow::Failed(_) => {}
        }
    }
}

/// Once the fold has failed, it stays failed.
proof fn lemma_failed_stays(src: Seq<u8>, i: nat, j: nat, p: nat)
    requires
        i <= j <= src.len(),
        parse_prefix(src, i) == ParseFlow::Failed(p),
    ensures
        parse_prefix(src, j) == ParseFlow::Failed(p),
    decreases j - i,
{
    if j > i {
        lemma_failed_stays(src, i, (j - 1) as nat, p);
    }
}

/// A fully parsed stream with no open bracket is well linked.
proof fn lemma_inv_well_linked(st: ParseSt, i: nat)
    requires
        parser_inv(st, i),
        st.stack.len() == 0,
    ensures
        well_linked(st.ir),
{
    assert forall|p: int| 0 <= p < st.ir.len() implies #[trigger]
        crate::ir::linked_at(st.ir, p) by {
        match st.ir[p] {
            Instruction::JumpRight(t) => {
                assert(!on_stack(st, p));
            }
            _ => {}
        }
    }
}

/// View of the executable bracket stack as the model's stack.
pub open spec fn stack_view(s: Seq<(usize, usize)>) -> Seq<(nat, nat)> {
    Seq::new(s.len(), |j: int| (s[j].0 as nat, s[j].1 as nat))
}

proof fn lemma_stack_view_push(s: Seq<(usize, usize)>, e: (usize, usize))
    ensures
        stack_view(s.push(e)) == stack_view(s).push((e.0 as nat, e.1 as nat)),
{
    assert(stack_view(s.push(e)) =~= stack_view(s).push((e.0 as nat, e.1 as nat)));
}

proof fn lemma_stack_view_drop(s: Seq<(usize, usize)>)
    requires
        s.len() > 0,
    ensures
        stack_view(s.drop_last()) == stack_view(s).drop_last(),
{
    assert(stack_view(s.drop_last()) =~= stack_view(s).drop_last());
}

/// One `+`/`-` of the executable parser.
fn step_fuse_add(prog: &mut Vec<Instruction>, inc: u8, Ghost(st): Ghost<ParseSt>)
    requires
        st.ir == old(prog)@,
        inc == 1 || inc == 255,
    ensures
        final(prog)@ == fuse_add(st, inc).ir,
{
    let len = prog.len();
    if len > 0 {
        match prog[len - 1] {
            Instruction::Add(v) => {
                let v2 = v.wrapping_add(inc);
                if v2 == 0 {
                    prog.pop();
                    proof {
                        assert(prog@ =~= st.ir.drop_last());
                    }
                } else {
                    prog[len - 1] = Instruction::Add(v2);
                }
                return ;
            }
            _ => {},
        }
    }
    prog.push(Instruction::Add(inc));
}

/// One `>`/`<` of the executable parser.
fn step_fuse_move(prog: &mut Vec<Instruction>, right: bool, Ghost(st): Ghost<ParseSt>, Ghost(i): Ghost<nat>)
    requires
        st.ir == old(prog)@,
        parser_inv(st, i),
        i + 1 <= 0x7fff_ffff,
    ensures
        final(prog)@ == fuse_move(st, if right { 1int } else { -1int }).ir,
{
    let ghost inc: int = if right { 1int } else { -1int };
    let len = prog.len();
    if len > 0 {
        match prog[len - 1] {
            Instruction::Move(v) => {
                proof {
                    assert(st.ir[len - 1] matches Instruction::Move(w) && -(i as int) <= w
                        <= i as int);
                }
                let v2: i32 = if right {
                    v + 1
                } else {
                    v - 1
                };
                if v2 == 0 {
                    prog.pop();
                    proof {
                        assert(prog@ =~= st.ir.drop_last());
                    }
                } else {
                    prog[len - 1] = Instruction::Move(v2);
                }
                return ;
            }
            _ => {},
        }
    }
    if right {
        prog.push(Instruction::Move(1));
    } else {
        prog.push(Instruction::Move(-1));
    }
}

/// A value and its negation are divisible by the same modulus.
proof fn lemma_neg_mod_zero(x: int, m: int)
    requires
        m > 0,
    ensures
        (x % m == 0) <==> ((-x) % m == 0),
{
    vstd::arithmetic::div_mod::lemma_add_mod_noop(x, -x, m);
    vstd::arithmetic::div_mod::lemma_mod_self_0(m);
    vstd::arithmetic::div_mod::lemma_small_mod(0nat, m as nat);
    vstd::arithmetic::div_mod::lemma_mod_bound(x, m);
    vstd::arithmetic::div_mod::lemma_mod_bound(-x, m);
    let a = x % m;
    let b = (-x) % m;
    assert((a + b) % m == 0);
    if a == 0 {
        vstd::arithmetic::div_mod::lemma_small_mod(b as nat, m as nat);
    }
    if b == 0 {
        vstd::arithmetic::div_mod::lemma_small_mod(a as nat, m as nat);
    }
}

/// One `]` of the executable parser, after the stack top was popped.
fn step_close(prog: &mut Vec<Instruction>, p_ir: usize, Ghost(st): Ghost<ParseSt>, Ghost(i): Ghost<nat>, Ghost(pos): Ghost<nat>)
    requires
        st.ir == old(prog)@,
        parser_inv(st, i),
        i <= 0x7fff_ffff,
        st.stack.len() > 0,
        st.stack.last().0 == p_ir as nat,
    ensures
        close_bracket(st, pos) matches ParseFlow::Going(st2) && st2.ir == final(prog)@
            && st2.stack == st.stack.drop_last(),
{
    proof {
        assert(p_ir < prog@.len());
    }
    let cur = prog.len();
    prog[p_ir] = Instruction::JumpRight(cur);
    let ghost fixed = st.ir.update(p_ir as int, Instruction::JumpRight(cur));
    let len = prog.len();
    // peephole table, matched on the linked stream tail
    if len >= 2 {
        match (prog[len - 2], prog[len - 1]) {
            (Instruction::JumpRight(_), Instruction::Add(a)) => {
                if a % 2 == 1 {
                    prog.truncate(len - 2);
                    prog.push(Instruction::Clear);
                    proof {
                        assert(is_clear_tail(fixed));
                        assert(prog@ =~= fixed.take(len - 2).push(Instruction::Clear));
                    }
                    return ;
                }
            }
            _ => {},
        }
    }
    if len >= 5 {
        match (prog[len - 5], prog[len - 4], prog[len - 3], prog[len - 2], prog[len - 1]) {
            (
                Instruction::JumpRight(_),
                Instruction::Add(a),
                Instruction::Move(x),
                Instruction::Add(c),
                Instruction::Move(y),
            ) => {
                let xm: u64 = if x >= 0 {
                    x as u64
                } else {
                    (-(x as i64)) as u64
                };
                proof {
                    if x < 0 {
                        lemma_neg_mod_zero(x as int, 30000);
                    }
                    assert((xm as int % 30000 == 0) <==> ((x as int) % 30000 == 0));
                }
                if a == 255 && c == 1 && (x as i64) == -(y as i64) && xm % 30000 != 0 {
                    prog.truncate(len - 5);
                    prog.push(Instruction::AddTo(x));
                    proof {
                        assert(is_addto_tail(fixed));
                        assert(addto_offset(fixed) == x);
                        assert(!is_clear_tail(fixed));
                        assert(prog@ =~= fixed.take(len - 5).push(Instruction::AddTo(x)));
                    }
                    return ;
                }
            }
            _ => {},
        }
    }
    if len >= 2 {
        match (prog[len - 2], prog[len - 1]) {
            (Instruction::JumpRight(_), Instruction::Move(m)) => {
                prog.truncate(len - 2);
                prog.push(Instruction::MoveUntil(m));
                proof {
                    assert(is_moveuntil_tail(fixed));
                    assert(moveuntil_offset(fixed) == m);
                    assert(!is_clear_tail(fixed) && !is_addto_tail(fixed));
                    assert(prog@ =~= fixed.take(len - 2).push(Instruction::MoveUntil(m)));
                }
                return ;
            }
            _ => {},
        }
    }
    prog.push(Instruction::JumpLeft(p_ir));
    proof {
        assert(!is_clear_tail(fixed) && !is_addto_tail(fixed) && !is_moveuntil_tail(fixed));
        assert(prog@ == fixed.push(Instruction::JumpLeft(p_ir as usize)));
    }
}

/// Parse a source byte slice into the optimised instruction stream.
///
/// Returns exactly what the model [`spec_parse`] says: the stream on
/// success (well linked, with fused runs), or the unmatched bracket and
/// its byte index.
pub fn parse(source: &[u8]) -> (r: Result<Vec<Instruction>, UnbalancedBrackets>)
    requires
        source@.len() <= 0x7fff_ffff,
    ensures
        match r {
            Ok(prog) => spec_parse(source@) == ParseOutcome::Prog(prog@) && well_linked(prog@)
                && properly_nested(prog@) && fused(prog@),
            Err(e) => spec_parse(source@) == ParseOutcome::Unbalanced(e.0, e.1 as nat),
        },
{
    let n = source.len();
    let mut prog: Vec<Instruction> = Vec::new();
    let mut stack: Vec<(usize, usize)> = Vec::new();
    let mut i: usize = 0;
    proof {
        assert(stack_view(stack@) =~= Seq::<(nat, nat)>::empty());
        assert(parse_prefix(source@, 0) == ParseFlow::Going(
            ParseSt { ir: prog@, stack: stack_view(stack@) },
        ));
    }
    while i < n
        invariant
            i <= n,
            n == source@.len(),
            n <= 0x7fff_ffff,
            parse_prefix(source@, i as nat) == ParseFlow::Going(
                ParseSt { ir: prog@, stack: stack_view(stack@) },
            ),
        decreases n - i,
    {
        let ghost st = ParseSt { ir: prog@, stack: stack_view(stack@) };
        let b = source[i];
        if b == 43 || b == 45 {
            let inc: u8 = if b == 43 {
                1
            } else {
                255
            };
            step_fuse_add(&mut prog, inc, Ghost(st));
        } else if b == 62 || b == 60 {
            proof {
                lemma_parse_prefix_inv(source@, i as nat);
            }
            step_fuse_move(&mut prog, b == 62, Ghost(st), Ghost(i as nat));
        } else if b == 46 {
            prog.push(Instruction::Output);
        } else if b == 44 {
            prog.push(Instruction::Input);
        } else if b == 91 {
            let cur = prog.len();
            let ghost sprev = stack@;
            prog.push(Instruction::JumpRight(0));
            stack.push((cur, i));
            proof {
                lemma_stack_view_push(sprev, (cur, i));
                assert(stack_view(stack@) == st.stack.push((cur as nat, i as nat)));
            }
        } else if b == 93 {
            if stack.len() == 0 {
                proof {
                    assert(stack_view(stack@).len() == 0);
                    assert(parse_prefix(source@, (i + 1) as nat) == ParseFlow::Failed(i as nat));
                    lemma_failed_stays(source@, (i + 1) as nat, source@.len(), i as nat);
                }
                return Err(UnbalancedBrackets(']', i));
            }
            let (p_ir, _p_byte) = stack[stack.len() - 1];
            let ghost sprev = stack@;
            stack.pop();
            proof {
                lemma_parse_prefix_inv(source@, i as nat);
                assert(st.stack.last() == (p_ir as nat, _p_byte as nat));
                lemma_stack_view_drop(sprev);
                assert(stack@ =~= sprev.drop_last());
                assert(stack_view(stack@) == st.stack.drop_last());
            }
            step_close(&mut prog, p_ir, Ghost(st), Ghost(i as nat), Ghost(i as nat));
        }
        i = i + 1;
        proof {
            assert(parse_prefix(source@, i as nat) == ParseFlow::Going(
                ParseSt { ir: prog@, stack: stack_view(stack@) },
            ));
        }
    }
    proof {
        lemma_parse_prefix_inv(source@, n as nat);
    }
    if stack.len() > 0 {
        let (_p_ir, p_byte) = stack[stack.len() - 1];
        proof {
            assert(stack_view(stack@).last().1 == p_byte as nat);
        }
        return Err(UnbalancedBrackets('[', p_byte));
    }
    proof {
        let st = ParseSt { ir: prog@, stack: stack_view(stack@) };
        assert(st.stack.len() == 0);
        assert(spec_parse(source@) == ParseOutcome::Prog(prog@));
        lemma_inv_well_linked(st, n as nat);
        lemma_parse_nested(source@, n as nat);
        lemma_inv_properly_nested(st, n as nat);
    }
    Ok(prog)
}

/// Closed pairs (a `JumpRight` whose target is linked, hence non-zero)
/// never cross each other.
pub open spec fn nested_pairs(st: ParseSt) -> bool {
    forall|p1: int, p2: int|
        #![trigger st.ir[p1], st.ir[p2]]
        0 <= p1 < p2 < st.ir.len() ==> (st.ir[p1] matches Instruction::JumpRight(t1) ==> (
        st.ir[p2] matches Instruction::JumpRight(t2) ==> (t1 != 0 && t2 != 0 && p2 < t1 ==> t2
            < t1)))
}

/// No open bracket sits strictly inside a closed pair.
pub open spec fn open_outside_pairs(st: ParseSt) -> bool {
    forall|p: int, j: int|
        #![trigger st.ir[p], st.stack[j]]
        0 <= p < st.ir.len() && 0 <= j < st.stack.len() ==> (st.ir[p] matches
        Instruction::JumpRight(t) ==> (t != 0 ==> !(p < st.stack[j].0 < t)))
}

/// The nesting invariant of the fold.
pub open spec fn nested_inv(st: ParseSt) -> bool {
    nested_pairs(st) && open_outside_pairs(st)
}

/// Appending a non-bracket entry (or dropping or replacing a final
/// `Add`/`Move`) moves no pair and no stack entry.
proof fn lemma_nested_frame(st: ParseSt, st2: ParseSt)
    requires
        nested_inv(st),
        st2.stack == st.stack,
        st2.ir.len() <= st.ir.len() + 1,
        forall|p: int|
            0 <= p < st2.ir.len() ==> ((#[trigger] st2.ir[p]) matches Instruction::JumpRight(t)
                ==> p < st.ir.len() && st2.ir[p] == st.ir[p]),
    ensures
        nested_inv(st2),
{
    assert forall|p1: int, p2: int|
        #![trigger st2.ir[p1], st2.ir[p2]]
        0 <= p1 < p2 < st2.ir.len() implies (st2.ir[p1] matches Instruction::JumpRight(t1) ==> (
        st2.ir[p2] matches Instruction::JumpRight(t2) ==> (t1 != 0 && t2 != 0 && p2 < t1 ==> t2
            < t1))) by {
        match st2.ir[p1] {
            Instruction::JumpRight(t1) => {
                match st2.ir[p2] {
                    Instruction::JumpRight(t2) => {
                        assert(st2.ir[p1] == st.ir[p1] && st2.ir[p2] == st.ir[p2]);
                    },
                    _ => {},
                }
            },
            _ => {},
        }
    }
    assert forall|p: int, j: int|
        #![trigger st2.ir[p], st2.stack[j]]
        0 <= p < st2.ir.len() && 0 <= j < st2.stack.len() implies (st2.ir[p] matches
        Instruction::JumpRight(t) ==> (t != 0 ==> !(p < st2.stack[j].0 < t))) by {
        match st2.ir[p] {
            Instruction::JumpRight(t) => {
                assert(st2.ir[p] == st.ir[p]);
                assert(st2.stack[j] == st.stack[j]);
            },
            _ => {},
        }
    }
}

/// Opening a bracket preserves the nesting invariant: the placeholder
/// carries target 0 and the new stack entry lies past every pair.
proof fn lemma_nested_open(st: ParseSt, i: nat, pos: nat)
    requires
        parser_inv(st, i),
        nested_inv(st),
    ensures
        nested_inv(
            ParseSt {
                ir: st.ir.push(Instruction::JumpRight(0)),
                stack: st.stack.push((st.ir.len(), pos)),
            },
        ),
{
    let st2 = ParseSt {
        ir: st.ir.push(Instruction::JumpRight(0)),
        stack: st.stack.push((st.ir.len(), pos)),
    };
    let n = st.ir.len() as int;
    assert forall|p1: int, p2: int|
        #![trigger st2.ir[p1], st2.ir[p2]]
        0 <= p1 < p2 < st2.ir.len() implies (st2.ir[p1] matches Instruction::JumpRight(t1) ==> (
        st2.ir[p2] matches Instruction::JumpRight(t2) ==> (t1 != 0 && t2 != 0 && p2 < t1 ==> t2
            < t1))) by {
        if p2 < n {
            assert(st2.ir[p1] == st.ir[p1] && st2.ir[p2] == st.ir[p2]);
        } else {
            assert(st2.ir[p2] == Instruction::JumpRight(0usize));
        }
    }
    assert forall|p: int, j: int|
        #![trigger st2.ir[p], st2.stack[j]]
        0 <= p < st2.ir.len() && 0 <= j < st2.stack.len() implies (st2.ir[p] matches
        Instruction::JumpRight(t) ==> (t != 0 ==> !(p < st2.stack[j].0 < t))) by {
        match st2.ir[p] {
            Instruction::JumpRight(t) => {
                if p < n && t != 0 {
                    assert(st2.ir[p] == st.ir[p]);
                    // a linked pair ends inside the old stream
                    assert(t < n);
                    if j < st.stack.len() {
                        assert(st2.stack[j] == st.stack[j]);
                    } else {
                        assert(st2.stack[j].0 == n);
                    }
                } else if p == n {
                    assert(st2.ir[p] == Instruction::JumpRight(0usize));
                }
            },
            _ => {},
        }
    }
}

/// Erasing the tail back to the popped bracket keeps the surviving
/// pairs and open brackets as they were.
proof fn lemma_nested_take(st: ParseSt, k: int, x: Instruction)
    requires
        nested_inv(st),
        st.stack.len() > 0,
        0 <= k <= st.ir.len(),
        !(x matches Instruction::JumpRight(_)),
    ensures
        nested_inv(ParseSt { ir: st.ir.take(k).push(x), stack: st.stack.drop_last() }),
{
    let st2 = ParseSt { ir: st.ir.take(k).push(x), stack: st.stack.drop_last() };
    assert forall|p1: int, p2: int|
        #![trigger st2.ir[p1], st2.ir[p2]]
        0 <= p1 < p2 < st2.ir.len() implies (st2.ir[p1] matches Instruction::JumpRight(t1) ==> (
        st2.ir[p2] matches Instruction::JumpRight(t2) ==> (t1 != 0 && t2 != 0 && p2 < t1 ==> t2
            < t1))) by {
        if p2 < k {
            assert(st2.ir[p1] == st.ir[p1] && st2.ir[p2] == st.ir[p2]);
        } else {
            assert(st2.ir[p2] == x);
        }
    }
    assert forall|p: int, j: int|
        #![trigger st2.ir[p], st2.stack[j]]
        0 <= p < st2.ir.len() && 0 <= j < st2.stack.len() implies (st2.ir[p] matches
        Instruction::JumpRight(t) ==> (t != 0 ==> !(p < st2.stack[j].0 < t))) by {
        if p < k {
            assert(st2.ir[p] == st.ir[p]);
            assert(st2.stack[j] == st.stack[j]);
        } else {
            assert(st2.ir[p] == x);
        }
    }
}

/// Linking the popped bracket keeps closed pairs uncrossed: the new
/// pair starts at the innermost open bracket and ends past every
/// older pair.
proof fn lemma_nested_jl_pairs(st: ParseSt)
    requires
        nested_pairs(st),
        open_outside_pairs(st),
        st.ir.len() <= 0x7fff_ffff,
        st.stack.len() > 0,
        st.ir[st.stack.last().0 as int] == Instruction::JumpRight(0usize),
        st.stack.last().0 < st.ir.len(),
        forall|p: int|
            0 <= p < st.ir.len() ==> ((#[trigger] st.ir[p]) matches Instruction::JumpRight(t)
                ==> (t != 0 ==> t < st.ir.len())),
    ensures
        ({
            let st2 = ParseSt {
                ir: st.ir.update(
                    st.stack.last().0 as int,
                    Instruction::JumpRight(st.ir.len() as usize),
                ).push(Instruction::JumpLeft(st.stack.last().0 as usize)),
                stack: st.stack.drop_last(),
            };
            nested_pairs(st2)
        }),
{
    let p_ir = st.stack.last().0 as int;
    let n = st.ir.len() as int;
    let cur = st.ir.len() as usize;
    let st2 = ParseSt {
        ir: st.ir.update(p_ir, Instruction::JumpRight(cur)).push(
            Instruction::JumpLeft(p_ir as usize),
        ),
        stack: st.stack.drop_last(),
    };
    assert forall|p1: int, p2: int|
        #![trigger st2.ir[p1], st2.ir[p2]]
        0 <= p1 < p2 < st2.ir.len() implies (st2.ir[p1] matches Instruction::JumpRight(t1) ==> (
        st2.ir[p2] matches Instruction::JumpRight(t2) ==> (t1 != 0 && t2 != 0 && p2 < t1 ==> t2
            < t1))) by {
        if p1 == p_ir {
            // the new pair (p_ir, n): every older pair ends inside the
            // old stream, so before n
            assert(st2.ir[p1] == Instruction::JumpRight(cur));
            assert(cur as int == n);
            if p2 < n && p2 != p_ir {
                assert(st2.ir[p2] == st.ir[p2]);
                match st.ir[p2] {
                    Instruction::JumpRight(t2) => {
                        if t2 != 0 {
                            assert(t2 < n);
                        }
                    },
                    _ => {},
                }
            } else if p2 == n {
                assert(st2.ir[p2] == Instruction::JumpLeft(p_ir as usize));
            }
        } else if p2 == p_ir {
            // an older pair cannot contain the open bracket p_ir
            if p1 < n {
                assert(st2.ir[p1] == st.ir[p1]);
                match st.ir[p1] {
                    Instruction::JumpRight(t1) => {
                        if t1 != 0 && p_ir < t1 {
                            assert(st.stack[st.stack.len() - 1].0 == p_ir as nat);
                            assert(!(p1 < st.stack[st.stack.len() - 1].0 < t1));
                            assert(false);
                        }
                    },
                    _ => {},
                }
            }
        } else if p2 < n {
            assert(st2.ir[p1] == st.ir[p1] && st2.ir[p2] == st.ir[p2]);
        } else {
            assert(st2.ir[p2] == Instruction::JumpLeft(p_ir as usize));
        }
    }
}

/// Linking the popped bracket keeps the remaining open brackets
/// outside every closed pair: they all lie below the new pair's open.
proof fn lemma_nested_jl_outside(st: ParseSt)
    requires
        open_outside_pairs(st),
        st.ir.len() <= 0x7fff_ffff,
        st.stack.len() > 0,
        st.stack.last().0 < st.ir.len(),
        forall|j: int, k: int|
            0 <= j < k < st.stack.len() ==> (#[trigger] st.stack[j]).0 < (#[trigger] st.stack[k]).0,
    ensures
        ({
            let st2 = ParseSt {
                ir: st.ir.update(
                    st.stack.last().0 as int,
                    Instruction::JumpRight(st.ir.len() as usize),
                ).push(Instruction::JumpLeft(st.stack.last().0 as usize)),
                stack: st.stack.drop_last(),
            };
            open_outside_pairs(st2)
        }),
{
    let p_ir = st.stack.last().0 as int;
    let n = st.ir.len() as int;
    let cur = st.ir.len() as usize;
    let st2 = ParseSt {
        ir: st.ir.update(p_ir, Instruction::JumpRight(cur)).push(
            Instruction::JumpLeft(p_ir as usize),
        ),
        stack: st.stack.drop_last(),
    };
    assert forall|j: int| 0 <= j < st2.stack.len() implies st2.stack[j] == st.stack[j]
        && (#[trigger] st2.stack[j]).0 < p_ir by {
        assert(st.stack[j].0 < st.stack[st.stack.len() - 1].0);
    }
    assert forall|p: int, j: int|
        #![trigger st2.ir[p], st2.stack[j]]
        0 <= p < st2.ir.len() && 0 <= j < st2.stack.len() implies (st2.ir[p] matches
        Instruction::JumpRight(t) ==> (t != 0 ==> !(p < st2.stack[j].0 < t))) by {
        assert(st2.stack[j] == st.stack[j] && st2.stack[j].0 < p_ir);
        if p == p_ir {
            assert(st2.ir[p] == Instruction::JumpRight(cur));
        } else if p < n {
            assert(st2.ir[p] == st.ir[p]);
        } else {
            assert(st2.ir[p] == Instruction::JumpLeft(p_ir as usize));
        }
    }
}

/// Closing a bracket preserves the nesting invariant, in all four
/// shapes the peephole table can take.
proof fn lemma_nested_close(st: ParseSt, i: nat, pos: nat)
    requires
        parser_inv(st, i),
        nested_inv(st),
        i <= 0x7fff_ffff,
        st.stack.len() > 0,
    ensures
        close_bracket(st, pos) matches ParseFlow::Going(st2) && nested_inv(st2),
{
    let p_ir = st.stack.last().0;
    let n = st.ir.len() as int;
    let fixed = st.ir.update(p_ir as int, Instruction::JumpRight(st.ir.len() as usize));
    if is_clear_tail(fixed) {
        lemma_top_position(st, n - 2);
        assert(fixed.take(n - 2) =~= st.ir.take(n - 2));
        lemma_nested_take(st, n - 2, Instruction::Clear);
    } else if is_addto_tail(fixed) {
        assert(p_ir != n - 1 && st.ir[n - 1] == fixed[n - 1]);
        assert(p_ir != n - 2 && st.ir[n - 2] == fixed[n - 2]);
        assert(p_ir != n - 3 && st.ir[n - 3] == fixed[n - 3]);
        assert(p_ir != n - 4 && st.ir[n - 4] == fixed[n - 4]);
        assert forall|m: int|
            n - 5 < m < st.ir.len() implies (((#[trigger] st.ir[m]) matches Instruction::Add(_))
            || (st.ir[m] matches Instruction::Move(_))) by {}
        if p_ir != n - 5 {
            assert(st.ir[n - 5] == fixed[n - 5]);
        }
        lemma_top_position(st, n - 5);
        assert(fixed.take(n - 5) =~= st.ir.take(n - 5));
        lemma_nested_take(st, n - 5, Instruction::AddTo(addto_offset(fixed)));
    } else if is_moveuntil_tail(fixed) {
        lemma_top_position(st, n - 2);
        assert(fixed.take(n - 2) =~= st.ir.take(n - 2));
        lemma_nested_take(st, n - 2, Instruction::MoveUntil(moveuntil_offset(fixed)));
    } else {
        assert forall|p: int|
            0 <= p < st.ir.len() implies ((#[trigger] st.ir[p]) matches Instruction::JumpRight(t)
            ==> (t != 0 ==> t < st.ir.len())) by {}
        lemma_nested_jl_pairs(st);
        lemma_nested_jl_outside(st);
    }
}

/// The nesting invariant holds after folding any prefix.
proof fn lemma_parse_nested(src: Seq<u8>, i: nat)
    requires
        i <= src.len(),
        src.len() <= 0x7fff_ffff,
    ensures
        parse_prefix(src, i) matches ParseFlow::Going(st) ==> nested_inv(st),
    decreases i,
{
    if i == 0 {
        let st0 = ParseSt { ir: Seq::empty(), stack: Seq::empty() };
        assert(nested_inv(st0));
    } else {
        lemma_parse_nested(src, (i - 1) as nat);
        lemma_parse_prefix_inv(src, (i - 1) as nat);
        match parse_prefix(src, (i - 1) as nat) {
            ParseFlow::Going(st) => {
                let b = src[i - 1];
                let pos = (i - 1) as nat;
                if b == 43 || b == 45 {
                    lemma_nested_fuse_add(st, if b == 43 {
                        1
                    } else {
                        255
                    });
                } else if b == 62 || b == 60 {
                    lemma_nested_fuse_move(st, if b == 62 {
                        1int
                    } else {
                        -1int
                    });
                } else if b == 46 {
                    lemma_nested_frame(
                        st,
                        ParseSt { ir: st.ir.push(Instruction::Output), stack: st.stack },
                    );
                } else if b == 44 {
                    lemma_nested_frame(
                        st,
                        ParseSt { ir: st.ir.push(Instruction::Input), stack: st.stack },
                    );
                } else if b == 91 {
                    lemma_nested_open(st, pos, pos);
                } else if b == 93 {
                    if st.stack.len() > 0 {
                        lemma_nested_close(st, pos, pos);
                    }
                } else {
                    assert(nested_inv(st));
                }
            },
            ParseFlow::Failed(_) => {},
        }
    }
}

/// Fusing a `+`/`-` moves no pair.
proof fn lemma_nested_fuse_add(st: ParseSt, inc: u8)
    requires
        nested_inv(st),
    ensures
        nested_inv(fuse_add(st, inc)),
{
    let st2 = fuse_add(st, inc);
    assert forall|p: int|
        0 <= p < st2.ir.len() implies ((#[trigger] st2.ir[p]) matches Instruction::JumpRight(t)
        ==> p < st.ir.len() && st2.ir[p] == st.ir[p]) by {
        match st2.ir[p] {
            Instruction::JumpRight(t) => {
                if p + 1 == st2.ir.len() && st2.ir.len() > st.ir.len() {
                    assert(false);
                } else {
                    assert(st2.ir[p] == st.ir[p]);
                }
            },
            _ => {},
        }
    }
    lemma_nested_frame(st, st2);
}

/// Fusing a `>`/`<` moves no pair.
proof fn lemma_nested_fuse_move(st: ParseSt, inc: int)
    requires
        nested_inv(st),
    ensures
        nested_inv(fuse_move(st, inc)),
{
    let st2 = fuse_move(st, inc);
    assert forall|p: int|
        0 <= p < st2.ir.len() implies ((#[trigger] st2.ir[p]) matches Instruction::JumpRight(t)
        ==> p < st.ir.len() && st2.ir[p] == st.ir[p]) by {
        match st2.ir[p] {
            Instruction::JumpRight(t) => {
                if p + 1 == st2.ir.len() && st2.ir.len() > st.ir.len() {
                    assert(false);
                } else {
                    assert(st2.ir[p] == st.ir[p]);
                }
            },
            _ => {},
        }
    }
    lemma_nested_frame(st, st2);
}

/// A fully parsed stream with no open bracket nests properly.
proof fn lemma_inv_properly_nested(st: ParseSt, i: nat)
    requires
        parser_inv(st, i),
        nested_inv(st),
        st.stack.len() == 0,
    ensures
        properly_nested(st.ir),
{
    assert forall|p1: int, p2: int|
        #![trigger st.ir[p1], st.ir[p2]]
        0 <= p1 < p2 < st.ir.len() implies (st.ir[p1] matches Instruction::JumpRight(t1) ==> (
        st.ir[p2] matches Instruction::JumpRight(t2) ==> (p2 < t1 ==> t2 < t1))) by {
        match st.ir[p1] {
            Instruction::JumpRight(t1) => {
                match st.ir[p2] {
                    Instruction::JumpRight(t2) => {
                        // with nothing on the stack, every bracket is
                        // linked, so both targets are past their opens
                        assert(!on_stack(st, p1) && !on_stack(st, p2));
                        assert(p1 < t1 && p2 < t2);
                    },
                    _ => {},
                }
            },
            _ => {},
        }
    }
}

/// Bracket depth of the first `i` bytes of the source: opens minus
/// closes.
pub open spec fn depth(src: Seq<u8>, i: nat) -> int
    decreases i,
{
    if i == 0 {
        0
    } else {
        depth(src, (i - 1) as nat) + (if src[i - 1] == 91 {
            1int
        } else if src[i - 1] == 93 {
            -1int
        } else {
            0int
        })
    }
}

/// A source is balanced when no prefix closes more brackets than it
/// opened and the whole text closes every bracket.
pub open spec fn balanced(src: Seq<u8>) -> bool {
    depth(src, src.len()) == 0 && forall|j: int| 0 <= j <= src.len() ==> #[trigger] depth(
        src,
        j as nat,
    ) >= 0
}

/// The open-bracket stack tracks the bracket depth of the source.
proof fn lemma_stack_depth(src: Seq<u8>, i: nat)
    requires
        i <= src.len(),
    ensures
        parse_prefix(src, i) matches ParseFlow::Going(st) ==> st.stack.len() == depth(src, i) && (
        forall|j: int| 0 <= j <= i ==> #[trigger] depth(src, j as nat) >= 0),
        parse_prefix(src, i) matches ParseFlow::Failed(p) ==> exists|j: int|
            0 <= j <= i && #[trigger] depth(src, j as nat) < 0,
    decreases i,
{
    if i > 0 {
        lemma_stack_depth(src, (i - 1) as nat);
        match parse_prefix(src, (i - 1) as nat) {
            ParseFlow::Going(st) => {
                let b = src[i - 1];
                if b == 93 && st.stack.len() == 0 {
                    let jj: int = i as int;
                    assert(depth(src, jj as nat) < 0);
                }
            },
            ParseFlow::Failed(_) => {
                let j = choose|j: int|
                    0 <= j <= i - 1 && #[trigger] depth(src, j as nat) < 0;
                assert(0 <= j <= i && depth(src, j as nat) < 0);
            },
        }
    }
}

/// The parser accepts a source exactly when its brackets are balanced,
/// and then yields a stream whose bracket pairs are mutually linked
/// (each `JumpRight` knows its `JumpLeft` and vice versa), nest
/// properly as the source's brackets do, and whose runs are fused.
pub proof fn lemma_parse_iff_balanced(src: Seq<u8>)
    requires
        src.len() <= 0x7fff_ffff,
    ensures
        (spec_parse(src) matches ParseOutcome::Prog(_)) <==> balanced(src),
        spec_parse(src) matches ParseOutcome::Prog(prog) ==> well_linked(prog)
            && properly_nested(prog) && fused(prog),
{
    lemma_stack_depth(src, src.len());
    lemma_parse_prefix_inv(src, src.len());
    lemma_parse_nested(src, src.len());
    match parse_prefix(src, src.len()) {
        ParseFlow::Going(st) => {
            if st.stack.len() == 0 {
                lemma_inv_well_linked(st, src.len());
                lemma_inv_properly_nested(st, src.len());
            } else {
                assert(depth(src, src.len()) > 0);
                assert(!balanced(src));
            }
        },
        ParseFlow::Failed(_) => {
            let j = choose|j: int| 0 <= j <= src.len() && #[trigger] depth(src, j as nat) < 0;
            assert(!balanced(src));
        },
    }
}

} // verus!
