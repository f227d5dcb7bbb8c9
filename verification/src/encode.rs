//! x86-64 encodings used by the code generator, as byte-sequence
//! specifications, and the executable helpers that append them to the
//! growing code buffer.
//!
//! Register convention: `r12` holds the tape base, `r13` the cell
//! index; `[r12 + r13]` is the current cell.

use vstd::prelude::*;

verus! {

/// Little-endian bytes of a 32-bit value.
pub open spec fn le32(v: u32) -> Seq<u8> {
    seq![
        (v & 0xff) as u8,
        ((v >> 8) & 0xff) as u8,
        ((v >> 16) & 0xff) as u8,
        ((v >> 24) & 0xff) as u8,
    ]
}

/// Little-endian bytes of a 64-bit value.
pub open spec fn le64(v: u64) -> Seq<u8> {
    seq![
        (v & 0xff) as u8,
        ((v >> 8) & 0xff) as u8,
        ((v >> 16) & 0xff) as u8,
        ((v >> 24) & 0xff) as u8,
        ((v >> 32) & 0xff) as u8,
        ((v >> 40) & 0xff) as u8,
        ((v >> 48) & 0xff) as u8,
        ((v >> 56) & 0xff) as u8,
    ]
}

/// A signed 32-bit displacement as its two's-complement bit pattern.
pub open spec fn disp32(d: int) -> u32 {
    (if d < 0 {
        d + 0x1_0000_0000
    } else {
        d
    }) as u32
}

/// Append the little-endian bytes of a 32-bit value.
pub fn push_le32(code: &mut Vec<u8>, v: u32)
    ensures
        final(code)@ == old(code)@ + le32(v),
{
    code.push((v & 0xff) as u8);
    code.push(((v >> 8) & 0xff) as u8);
    code.push(((v >> 16) & 0xff) as u8);
    code.push(((v >> 24) & 0xff) as u8);
    proof {
        assert(code@ =~= old(code)@ + le32(v));
    }
}

/// Append the little-endian bytes of a 64-bit value.
pub fn push_le64(code: &mut Vec<u8>, v: u64)
    ensures
        final(code)@ == old(code)@ + le64(v),
{
    code.push((v & 0xff) as u8);
    code.push(((v >> 8) & 0xff) as u8);
    code.push(((v >> 16) & 0xff) as u8);
    code.push(((v >> 24) & 0xff) as u8);
    code.push(((v >> 32) & 0xff) as u8);
    code.push(((v >> 40) & 0xff) as u8);
    code.push(((v >> 48) & 0xff) as u8);
    code.push(((v >> 56) & 0xff) as u8);
    proof {
        assert(code@ =~= old(code)@ + le64(v));
    }
}

/// Append a signed 32-bit displacement, given in range.
pub fn push_disp32(code: &mut Vec<u8>, d: i64)
    requires
        -0x8000_0000 <= d < 0x8000_0000,
    ensures
        final(code)@ == old(code)@ + le32(disp32(d as int)),
{
    let v: u32 = if d < 0 {
        (d + 0x1_0000_0000) as u32
    } else {
        d as u32
    };
    push_le32(code, v);
}

/// `add byte [r12 + r13], n`: add to the current cell modulo 256.
pub open spec fn add_bytes(n: u8) -> Seq<u8> {
    seq![0x43, 0x80, 0x04, 0x2c, n]
}

/// `mov byte [r12 + r13], 0`: clear the current cell.
pub open spec fn clear_bytes() -> Seq<u8> {
    seq![0x43, 0xc6, 0x04, 0x2c, 0x00]
}

/// `cmp byte [r12 + r13], 0`: test the current cell.
pub open spec fn cmp_cell_bytes() -> Seq<u8> {
    seq![0x43, 0x80, 0x3c, 0x2c, 0x00]
}

/// The branchless pointer move by `m` cells forward, `m` in
/// `[1, 30000)`: compute both the raw and the wrapped sum and select
/// the one inside the tape.
///
/// `lea eax, [r13 + m]; add r13, m - 30000; cmp eax, 30000;
/// cmovl r13d, eax`
pub open spec fn move_bytes(m: int) -> Seq<u8> {
    if m == 0 {
        Seq::empty()
    } else {
        seq![0x41u8, 0x8d, 0x85] + le32(m as u32) + seq![0x49u8, 0x81, 0xc5] + le32(
            disp32(m - 30000),
        ) + seq![0x3du8, 0x30, 0x75, 0x00, 0x00] + seq![0x44u8, 0x0f, 0x4c, 0xe8]
    }
}

/// `cmp cell, 0; je rel32`: the loop head, jumping past the partner.
pub open spec fn jump_right_bytes(d: int) -> Seq<u8> {
    cmp_cell_bytes() + seq![0x0fu8, 0x84] + le32(disp32(d))
}

/// `cmp cell, 0; jne rel32`: the loop foot, jumping to the body start.
pub open spec fn jump_left_bytes(d: int) -> Seq<u8> {
    cmp_cell_bytes() + seq![0x0fu8, 0x85] + le32(disp32(d))
}

/// `AddTo(m)`: compute the wrapped target index into `eax`, add the
/// current cell into it, zero the current cell. Offset 0 degenerates
/// to a plain clear.
pub open spec fn addto_bytes(m: int) -> Seq<u8> {
    if m == 0 {
        clear_bytes()
    } else {
        seq![0x41u8, 0x8d, 0x8d] + le32(m as u32) + seq![0x41u8, 0x8d, 0x85] + le32(
            disp32(m - 30000),
        ) + seq![0x81u8, 0xf9, 0x30, 0x75, 0x00, 0x00] + seq![0x0fu8, 0x4c, 0xc1] + seq![
            0x43u8,
            0x8a,
            0x0c,
            0x2c,
        ] + seq![0x42u8, 0x00, 0x0c, 0x04] + clear_bytes()
    }
}

/// `MoveUntil(m)`: a tight loop that tests the cell, exits on zero,
/// else moves by `m` and repeats.
pub open spec fn moveuntil_bytes(m: int) -> Seq<u8> {
    if m == 0 {
        cmp_cell_bytes() + seq![0x0fu8, 0x84] + le32(5) + seq![0xe9u8] + le32(disp32(-16))
    } else {
        cmp_cell_bytes() + seq![0x0fu8, 0x84] + le32(28) + move_bytes(m) + seq![0xe9u8] + le32(
            disp32(-39),
        )
    }
}

/// Append a short fixed byte run.
pub fn push_bytes(code: &mut Vec<u8>, bytes: &[u8])
    ensures
        final(code)@ == old(code)@ + bytes@,
{
    let mut i: usize = 0;
    while i < bytes.len()
        invariant
            i <= bytes@.len(),
            code@ == old(code)@ + bytes@.take(i as int),
        decreases bytes@.len() - i,
    {
        code.push(bytes[i]);
        proof {
            assert(code@ =~= old(code)@ + bytes@.take(i + 1));
        }
        i = i + 1;
    }
    proof {
        assert(bytes@.take(bytes@.len() as int) =~= bytes@);
    }
}

/// Little-endian bytes of a 16-bit value.
pub open spec fn le16(v: u16) -> Seq<u8> {
    seq![(v & 0xff) as u8, ((v >> 8) & 0xff) as u8]
}

/// Append the little-endian bytes of a 16-bit value.
pub fn push_le16(code: &mut Vec<u8>, v: u16)
    ensures
        final(code)@ == old(code)@ + le16(v),
{
    code.push((v & 0xff) as u8);
    code.push(((v >> 8) & 0xff) as u8);
    proof {
        assert(code@ =~= old(code)@ + le16(v));
    }
}

} // verus!
