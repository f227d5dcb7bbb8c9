//! The standalone-executable materialiser: wrap finalised machine code
//! in a minimal statically-laid-out ELF-64 with a single readable and
//! executable `PT_LOAD` segment, entered directly at the code.
//!
//! File image: file header, one program header, the (empty) string
//! table, the section-header string table, four section headers (null,
//! `.text`, `.strtab`, `.shstrtab`), then the 16-byte-aligned code.

use vstd::prelude::*;

use crate::encode::le16;
use crate::encode::le32;
use crate::encode::le64;
use crate::encode::push_le16;
use crate::encode::push_le32;
use crate::encode::push_le64;

verus! {

/// File offset of the code image; its congruence modulo the page size
/// is preserved by the load address.
pub const TEXT_OFFSET: usize = 416;

/// Virtual base the segment is loaded at.
pub const LOAD_BASE: u64 = 0x400000;

/// The entry point: base plus the text offset's page remainder, so the
/// kernel maps the file image and jumps straight into the code.
pub open spec fn entry_addr() -> u64 {
    (LOAD_BASE + TEXT_OFFSET as u64 % 0x1000) as u64
}

/// The ELF-64 file header: little-endian, SysV ABI, `ET_EXEC` for
/// x86-64, one program header at 64, four section headers at 152.
pub open spec fn ehdr_bytes() -> Seq<u8> {
    seq![0x7fu8, 0x45, 0x4c, 0x46, 2, 1, 1, 0, 0, 0, 0, 0, 0, 0, 0, 0]  // ident
        + le16(2)  // e_type = ET_EXEC
        + le16(0x3e)  // e_machine = EM_X86_64
        + le32(1)  // e_version
        + le64(entry_addr())  // e_entry
        + le64(64)  // e_phoff
        + le64(152)  // e_shoff
        + le32(0)  // e_flags
        + le16(64)  // e_ehsize
        + le16(56)  // e_phentsize
        + le16(1)  // e_phnum
        + le16(64)  // e_shentsize
        + le16(4)  // e_shnum
        + le16(3)  // e_shstrndx
}

/// The one `PT_LOAD` program header: readable and executable, file
/// size equal to memory size equal to the code length, page-aligned.
pub open spec fn phdr_bytes(code_len: int) -> Seq<u8> {
    seq![]
        + le32(1)  // p_type = PT_LOAD
        + le32(5)  // p_flags = PF_R | PF_X
        + le64(TEXT_OFFSET as u64)  // p_offset
        + le64(entry_addr())  // p_vaddr
        + le64(0)  // p_paddr
        + le64(code_len as u64)  // p_filesz
        + le64(code_len as u64)  // p_memsz
        + le64(0x1000)  // p_align
}

/// The section-header string table: names of the three real sections.
pub open spec fn shstrtab_bytes() -> Seq<u8> {
    seq![0u8]
        + seq![0x2eu8, 0x74, 0x65, 0x78, 0x74, 0]  // .text
        + seq![0x2eu8, 0x73, 0x74, 0x72, 0x74, 0x61, 0x62, 0]  // .strtab
        + seq![0x2eu8, 0x73, 0x68, 0x73, 0x74, 0x72, 0x74, 0x61, 0x62, 0]  // .shstrtab
}

/// One section header from its ten fields.
pub open spec fn shdr_bytes(
    name: u32,
    ty: u32,
    flags: u64,
    addr: u64,
    offset: u64,
    size: u64,
    link: u32,
    info: u32,
    align: u64,
    entsize: u64,
) -> Seq<u8> {
    le32(name) + le32(ty) + le64(flags) + le64(addr) + le64(offset) + le64(size) + le32(link)
        + le32(info) + le64(align) + le64(entsize)
}

/// The whole executable image for a given code buffer.
pub open spec fn elf_exe_bytes(code: Seq<u8>) -> Seq<u8> {
    ehdr_bytes()  // 0 .. 64
        + phdr_bytes(code.len() as int)  // 64 .. 120
        + seq![0u8]  // 120 .. 121: .strtab, one null byte
        + shstrtab_bytes()  // 121 .. 146
        + seq![0u8, 0, 0, 0, 0, 0]  // pad to 152
        + shdr_bytes(0, 0, 0, 0, 0, 0, 0, 0, 0, 0)  // null section
        + shdr_bytes(1, 1, 6, LOAD_BASE, TEXT_OFFSET as u64, code.len() as u64, 0, 0, 16, 0)  // .text
        + shdr_bytes(7, 3, 0, 0, 120, 1, 0, 0, 1, 0)  // .strtab
        + shdr_bytes(15, 3, 0, 0, 121, 25, 0, 0, 1, 0)  // .shstrtab
        + seq![0u8, 0, 0, 0, 0, 0, 0, 0]  // pad to 416
        + code
}

/// Append `k` zero bytes.
fn push_zeros(out: &mut Vec<u8>, k: usize)
    ensures
        final(out)@ == old(out)@ + Seq::new(k as nat, |j: int| 0u8),
{
    let mut i: usize = 0;
    while i < k
        invariant
            i <= k,
            out@ == old(out)@ + Seq::new(i as nat, |j: int| 0u8),
        decreases k - i,
    {
        out.push(0);
        proof {
            assert(out@ =~= old(out)@ + Seq::new((i + 1) as nat, |j: int| 0u8));
        }
        i = i + 1;
    }
}

/// Append one section header.
fn push_shdr(
    out: &mut Vec<u8>,
    name: u32,
    ty: u32,
    flags: u64,
    addr: u64,
    offset: u64,
    size: u64,
    link: u32,
    info: u32,
    align: u64,
    entsize: u64,
)
    ensures
        final(out)@ == old(out)@ + shdr_bytes(
            name,
            ty,
            flags,
            addr,
            offset,
            size,
            link,
            info,
            align,
            entsize,
        ),
{
    push_le32(out, name);
    push_le32(out, ty);
    push_le64(out, flags);
    push_le64(out, addr);
    push_le64(out, offset);
    push_le64(out, size);
    push_le32(out, link);
    push_le32(out, info);
    push_le64(out, align);
    push_le64(out, entsize);
    proof {
        assert(out@ =~= old(out)@ + shdr_bytes(
            name,
            ty,
            flags,
            addr,
            offset,
            size,
            link,
            info,
            align,
            entsize,
        ));
    }
}

/// Materialise machine code as a standalone ELF-64 executable image.
#[verifier::rlimit(100)]
pub fn to_elf_exe(code: &Vec<u8>) -> (out: Vec<u8>)
    ensures
        out@ == elf_exe_bytes(code@),
        out@.len() == TEXT_OFFSET + code@.len(),
        out@.subrange(TEXT_OFFSET as int, out@.len() as int) == code@,
{
    let mut out: Vec<u8> = Vec::new();
    // file header
    out.push(0x7f);
    out.push(0x45);
    out.push(0x4c);
    out.push(0x46);
    out.push(2);
    out.push(1);
    out.push(1);
    out.push(0);
    push_zeros(&mut out, 8);
    push_le16(&mut out, 2);
    push_le16(&mut out, 0x3e);
    push_le32(&mut out, 1);
    push_le64(&mut out, LOAD_BASE + (TEXT_OFFSET as u64) % 0x1000);
    push_le64(&mut out, 64);
    push_le64(&mut out, 152);
    push_le32(&mut out, 0);
    push_le16(&mut out, 64);
    push_le16(&mut out, 56);
    push_le16(&mut out, 1);
    push_le16(&mut out, 64);
    push_le16(&mut out, 4);
    push_le16(&mut out, 3);
    proof {
        assert(out@ =~= ehdr_bytes());
    }
    // program header
    push_le32(&mut out, 1);
    push_le32(&mut out, 5);
    push_le64(&mut out, TEXT_OFFSET as u64);
    push_le64(&mut out, LOAD_BASE + (TEXT_OFFSET as u64) % 0x1000);
    push_le64(&mut out, 0);
    push_le64(&mut out, code.len() as u64);
    push_le64(&mut out, code.len() as u64);
    push_le64(&mut out, 0x1000);
    proof {
        assert(out@ =~= ehdr_bytes() + phdr_bytes(code@.len() as int));
    }
    // string table and section-name table
    out.push(0);
    out.push(0);
    out.push(0x2e);
    out.push(0x74);
    out.push(0x65);
    out.push(0x78);
    out.push(0x74);
    out.push(0);
    out.push(0x2e);
    out.push(0x73);
    out.push(0x74);
    out.push(0x72);
    out.push(0x74);
    out.push(0x61);
    out.push(0x62);
    out.push(0);
    out.push(0x2e);
    out.push(0x73);
    out.push(0x68);
    out.push(0x73);
    out.push(0x74);
    out.push(0x72);
    out.push(0x74);
    out.push(0x61);
    out.push(0x62);
    out.push(0);
    push_zeros(&mut out, 6);
    // section headers
    push_shdr(&mut out, 0, 0, 0, 0, 0, 0, 0, 0, 0, 0);
    push_shdr(
        &mut out,
        1,
        1,
        6,
        LOAD_BASE,
        TEXT_OFFSET as u64,
        code.len() as u64,
        0,
        0,
        16,
        0,
    );
    push_shdr(&mut out, 7, 3, 0, 0, 120, 1, 0, 0, 1, 0);
    push_shdr(&mut out, 15, 3, 0, 0, 121, 25, 0, 0, 1, 0);
    push_zeros(&mut out, 8);
    // the code image
    let mut i: usize = 0;
    let ghost head = out@;
    while i < code.len()
        invariant
            i <= code@.len(),
            out@ == head + code@.take(i as int),
        decreases code@.len() - i,
    {
        out.push(code[i]);
        proof {
            assert(out@ =~= head + code@.take(i + 1));
        }
        i = i + 1;
    }
    proof {
        assert(code@.take(code@.len() as int) =~= code@);
        assert(out@ =~= elf_exe_bytes(code@));
        assert(out@.subrange(TEXT_OFFSET as int, out@.len() as int) =~= code@);
    }
    out
}

} // verus!
