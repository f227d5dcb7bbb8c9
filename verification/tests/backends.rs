use bf_backends::codegen::{lower, CallMode};
use bf_backends::elf_exe::to_elf_exe;
use bf_backends::obj::to_elf_object;
use bf_backends::parse::parse;

const JIT: CallMode = CallMode::Jit {
    write_addr: 0x1122_3344_5566_7788,
    read_addr: 0x99aa_bbcc_ddee_ff00,
};

#[test]
fn empty_program_is_a_valid_noop_function() {
    let ir = parse(b"").unwrap();
    assert_eq!(ir.len(), 0);
    let c = lower(&ir, JIT).unwrap();
    // prologue and epilogue only
    assert_eq!(
        c.code,
        vec![
            0x55, 0x48, 0x89, 0xe5, 0x41, 0x54, 0x41, 0x55, 0x49, 0x89, 0xfc, 0x4d, 0x31, 0xed,
            0x48, 0x31, 0xc0, 0x41, 0x5d, 0x41, 0x5c, 0x5d, 0xc3,
        ]
    );
    assert!(c.write_relocations.is_empty());
    assert!(c.read_relocations.is_empty());
    assert!(c.call_relocation.is_none());
}

#[test]
fn add_lowers_to_a_byte_add() {
    let ir = parse(b"+++").unwrap();
    let c = lower(&ir, JIT).unwrap();
    // add byte [r12 + r13], 3 right after the 14-byte prologue
    assert_eq!(&c.code[14..19], &[0x43, 0x80, 0x04, 0x2c, 0x03]);
    assert_eq!(c.code.len(), 14 + 5 + 9);
}

#[test]
fn move_lowers_to_the_branchless_wrap() {
    let ir = parse(b">>").unwrap();
    let c = lower(&ir, JIT).unwrap();
    // lea eax, [r13 + 2]; add r13, 2 - 30000; cmp eax, 30000; cmovl r13d, eax
    assert_eq!(&c.code[14..21], &[0x41, 0x8d, 0x85, 0x02, 0x00, 0x00, 0x00]);
    assert_eq!(&c.code[21..28], &[0x49, 0x81, 0xc5, 0xd2, 0x8a, 0xff, 0xff]);
    assert_eq!(&c.code[28..33], &[0x3d, 0x30, 0x75, 0x00, 0x00]);
    assert_eq!(&c.code[33..37], &[0x44, 0x0f, 0x4c, 0xe8]);
}

#[test]
fn brackets_lower_to_resolved_rel32_branches() {
    let ir = parse(b"[]").unwrap();
    let c = lower(&ir, JIT).unwrap();
    // entries at 14 and 25, body ends at 36
    // je forward to 36: displacement 36 - 25 = 11
    assert_eq!(&c.code[14..21], &[0x43, 0x80, 0x3c, 0x2c, 0x00, 0x0f, 0x84]);
    assert_eq!(&c.code[21..25], &[0x0b, 0x00, 0x00, 0x00]);
    // jne backward to 25: displacement 25 - 36 = -11
    assert_eq!(&c.code[25..32], &[0x43, 0x80, 0x3c, 0x2c, 0x00, 0x0f, 0x85]);
    assert_eq!(&c.code[32..36], &[0xf5, 0xff, 0xff, 0xff]);
}

#[test]
fn jit_output_embeds_the_trampoline_address() {
    let ir = parse(b".").unwrap();
    let c = lower(&ir, JIT).unwrap();
    // mov rax, imm64
    assert_eq!(&c.code[14..16], &[0x48, 0xb8]);
    assert_eq!(
        &c.code[16..24],
        &[0x88, 0x77, 0x66, 0x55, 0x44, 0x33, 0x22, 0x11]
    );
    // the error branch targets the exit label three bytes into the epilogue
    let body_end = 14 + 27;
    let jne_end = 14 + 27;
    let disp = (body_end + 3 - jne_end) as u32;
    assert_eq!(c.code[14 + 23..14 + 27], disp.to_le_bytes());
}

#[test]
fn aot_call_sites_are_recorded_exactly_once() {
    let ir = parse(b".,.").unwrap();
    let c = lower(&ir, CallMode::Aot).unwrap();
    // entries: Output at 17 (10 bytes), Input at 27 (9), Output at 36 (10)
    assert_eq!(c.write_relocations, vec![23, 42]);
    assert_eq!(c.read_relocations, vec![32]);
    // body ends at 46; the final call bf_exit immediate sits at 47
    assert_eq!(c.call_relocation, Some(47));
    assert_eq!(c.code.len(), 51);
    // every recorded site holds a zeroed immediate preceded by a call opcode
    for &r in c.write_relocations.iter().chain(c.read_relocations.iter()) {
        assert_eq!(c.code[r - 1], 0xe8);
        assert_eq!(&c.code[r..r + 4], &[0, 0, 0, 0]);
    }
    assert_eq!(c.code[46], 0xe8);
}

#[test]
fn syscall_flavour_is_self_contained() {
    let ir = parse(b".,").unwrap();
    let c = lower(&ir, CallMode::Syscall).unwrap();
    assert!(c.write_relocations.is_empty());
    assert!(c.read_relocations.is_empty());
    assert!(c.call_relocation.is_none());
    // write(1, cell, 1): mov eax, 1
    assert_eq!(&c.code[17..22], &[0xb8, 0x01, 0x00, 0x00, 0x00]);
    // ends with mov eax, 60; xor edi, edi; syscall
    let n = c.code.len();
    assert_eq!(
        &c.code[n - 9..],
        &[0xb8, 0x3c, 0x00, 0x00, 0x00, 0x31, 0xff, 0x0f, 0x05]
    );
}

#[test]
fn exe_image_layout() {
    let ir = parse(b"+.").unwrap();
    let c = lower(&ir, CallMode::Syscall).unwrap();
    let out = to_elf_exe(&c.code);
    // ELF magic, 64-bit, little-endian, executable for x86-64
    assert_eq!(&out[0..5], &[0x7f, b'E', b'L', b'F', 2]);
    assert_eq!(out[16], 2); // ET_EXEC
    assert_eq!(out[18], 0x3e); // EM_X86_64
    // entry point 0x400000 + (416 % 0x1000)
    assert_eq!(&out[24..32], &0x4001a0u64.to_le_bytes());
    // one program header: PT_LOAD, R+X, file size == mem size == code
    assert_eq!(&out[64..68], &1u32.to_le_bytes());
    assert_eq!(&out[68..72], &5u32.to_le_bytes());
    assert_eq!(&out[96..104], &(c.code.len() as u64).to_le_bytes());
    assert_eq!(&out[104..112], &(c.code.len() as u64).to_le_bytes());
    // the aligned code image closes the file
    assert_eq!(out.len(), 416 + c.code.len());
    assert_eq!(&out[416..], c.code.as_slice());
}

#[test]
fn object_file_is_a_relocatable_elf() {
    let ir = parse(b".").unwrap();
    let c = lower(&ir, CallMode::Aot).unwrap();
    let out = to_elf_object(&c);
    // a real ELF relocatable object, not the raw code handed back
    assert_eq!(&out[0..4], &[0x7f, b'E', b'L', b'F']);
    assert_eq!(out[16], 1); // ET_REL
    assert_ne!(out, c.code);
    // the symbol names all appear in the object's string table
    for name in [&b"_start"[..], b"bf_write", b"bf_read", b"bf_exit"] {
        assert!(
            out.windows(name.len()).any(|w| w == name),
            "missing symbol name"
        );
    }
}

#[test]
fn oversized_streams_are_refused() {
    // ten million output sites lower to more bytes than the generator's
    // size limit allows
    let source: Vec<u8> = std::iter::repeat(b'.').take(10_000_000).collect();
    let ir = parse(&source).unwrap();
    assert!(lower(&ir, JIT).is_err());
}

#[test]
fn object_emission_is_deterministic() {
    let ir = parse(b".,.").unwrap();
    let c = lower(&ir, CallMode::Aot).unwrap();
    let first = to_elf_object(&c);
    let second = to_elf_object(&c);
    assert_eq!(first, second);
}
