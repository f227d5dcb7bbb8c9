//! The relocatable-object materialiser: wrap the finalised code in an
//! ELF-64 relocatable object through the `object` crate, with the
//! `_start` symbol on the code and one PC-relative relocation per
//! recorded `bf_write`/`bf_read`/`bf_exit` call site.
//!
//! The builder state is modelled by named views (symbols, text bytes,
//! relocation triples, section count, placement); each trusted wrapper
//! states how one `object` call moves them, and serialisation owes
//! success on the one state this module builds.

use vstd::prelude::*;

use crate::codegen::CompiledProgram;

verus! {

#[verifier::external_type_specification]
#[verifier::external_body]
pub struct ExObject<'a>(object::write::Object<'a>);

#[verifier::external_type_specification]
#[verifier::external_body]
pub struct ExSymbolId(object::write::SymbolId);

#[verifier::external_type_specification]
#[verifier::external_body]
pub struct ExSectionId(object::write::SectionId);

pub uninterp spec fn obj_symbols(o: &object::write::Object<'static>) -> Seq<Seq<u8>>;

pub uninterp spec fn obj_text(o: &object::write::Object<'static>) -> Seq<u8>;

pub uninterp spec fn obj_relocs(o: &object::write::Object<'static>) -> Seq<(nat, nat, int)>;

pub uninterp spec fn obj_sections(o: &object::write::Object<'static>) -> nat;

pub uninterp spec fn obj_text_placed(o: &object::write::Object<'static>) -> bool;

pub uninterp spec fn obj_elf_x64(o: &object::write::Object<'static>) -> bool;

pub uninterp spec fn sym_index(s: object::write::SymbolId) -> nat;

pub uninterp spec fn is_text_section(s: object::write::SectionId) -> bool;

pub uninterp spec fn elf_object_bytes(
    symbols: Seq<Seq<u8>>,
    text: Seq<u8>,
    relocs: Seq<(nat, nat, int)>,
) -> Seq<u8>;

/// Relies on `object::write::Object::new`: an empty little-endian
/// ELF x86-64 object - no symbols, no sections, no relocations.
#[verifier::external_body]
fn new_object() -> (o: object::write::Object<'static>)
    ensures
        obj_elf_x64(&o),
        obj_symbols(&o) == Seq::<Seq<u8>>::empty(),
        obj_text(&o).len() == 0,
        obj_relocs(&o) == Seq::<(nat, nat, int)>::empty(),
        obj_sections(&o) == 0,
        !obj_text_placed(&o),
{
    object::write::Object::new(
        object::BinaryFormat::Elf,
        object::Architecture::X86_64,
        object::Endianness::Little,
    )
}

/// Relies on `object::write::Object::add_symbol`: appends an undefined
/// text symbol of linkage scope under the given name (ELF mangling adds
/// no prefix) and returns its identifier, the number of symbols so far.
#[verifier::external_body]
fn add_undefined_text_symbol(o: &mut object::write::Object<'static>, name: &[u8]) -> (id:
    object::write::SymbolId)
    ensures
        obj_symbols(final(o)) == obj_symbols(old(o)).push(name@),
        sym_index(id) == obj_symbols(old(o)).len(),
        obj_text(final(o)) == obj_text(old(o)),
        obj_relocs(final(o)) == obj_relocs(old(o)),
        obj_sections(final(o)) == obj_sections(old(o)),
        obj_text_placed(final(o)) == obj_text_placed(old(o)),
        obj_elf_x64(final(o)) == obj_elf_x64(old(o)),
{
    o.add_symbol(object::write::Symbol {
        name: name.to_vec(),
        value: 0,
        size: 0,
        kind: object::SymbolKind::Text,
        scope: object::SymbolScope::Linkage,
        weak: false,
        section: object::write::SymbolSection::Undefined,
        flags: object::SymbolFlags::None,
    })
}

/// Relies on `object::write::Object::section_id`: creates the standard
/// `.text` section (the object's first and only section here) and
/// returns its identifier.
#[verifier::external_body]
fn text_section(o: &mut object::write::Object<'static>) -> (s: object::write::SectionId)
    requires
        obj_sections(old(o)) == 0,
    ensures
        is_text_section(s),
        obj_sections(final(o)) == 1,
        obj_symbols(final(o)) == obj_symbols(old(o)),
        obj_text(final(o)) == obj_text(old(o)),
        obj_relocs(final(o)) == obj_relocs(old(o)),
        obj_text_placed(final(o)) == obj_text_placed(old(o)),
        obj_elf_x64(final(o)) == obj_elf_x64(old(o)),
{
    o.section_id(object::write::StandardSection::Text)
}

/// Relies on `object::write::Object::add_symbol_data`: appends the code
/// to the empty `.text` section at alignment 16 (hence offset 0) and
/// points the symbol at it. The object must hold its one section (the
/// `.text` identifier is index 0, valid only then), and the data goes
/// on the first symbol, so the placement is fully determined.
#[verifier::external_body]
fn add_text_data(
    o: &mut object::write::Object<'static>,
    sym: object::write::SymbolId,
    sec: object::write::SectionId,
    code: &[u8],
)
    requires
        is_text_section(sec),
        obj_sections(old(o)) == 1,
        sym_index(sym) == 0,
        sym_index(sym) < obj_symbols(old(o)).len(),
        obj_text(old(o)).len() == 0,
        !obj_text_placed(old(o)),
    ensures
        obj_text(final(o)) == code@,
        obj_text_placed(final(o)),
        obj_symbols(final(o)) == obj_symbols(old(o)),
        obj_relocs(final(o)) == obj_relocs(old(o)),
        obj_sections(final(o)) == obj_sections(old(o)),
        obj_elf_x64(final(o)) == obj_elf_x64(old(o)),
{
    o.add_symbol_data(sym, sec, code, 16);
}

/// Relies on `object::write::Object::add_relocation`: records a 32-bit
/// PC-relative relocation (generic flags; for an ELF x86-64 object they
/// translate to `R_X86_64_PC32`, the addend is kept explicit, and the
/// call succeeds).
#[verifier::external_body]
fn add_pc32_relocation(
    o: &mut object::write::Object<'static>,
    sec: object::write::SectionId,
    offset: u64,
    sym: object::write::SymbolId,
    addend: i64,
)
    requires
        obj_elf_x64(old(o)),
        is_text_section(sec),
        obj_sections(old(o)) == 1,
        sym_index(sym) < obj_symbols(old(o)).len(),
    ensures
        obj_relocs(final(o)) == obj_relocs(old(o)).push(
            (offset as nat, sym_index(sym), addend as int),
        ),
        obj_symbols(final(o)) == obj_symbols(old(o)),
        obj_text(final(o)) == obj_text(old(o)),
        obj_sections(final(o)) == obj_sections(old(o)),
        obj_text_placed(final(o)) == obj_text_placed(old(o)),
        obj_elf_x64(final(o)) == obj_elf_x64(old(o)),
{
    o.add_relocation(
        sec,
        object::write::Relocation {
            offset,
            symbol: sym,
            addend,
            flags: object::RelocationFlags::Generic {
                kind: object::RelocationKind::Relative,
                encoding: object::RelocationEncoding::Generic,
                size: 32,
            },
        },
    ).unwrap();
}

/// Relies on `object::write::Object::write`: serialises the object.
/// Pinned to the one state this module builds - ELF x86-64, a single
/// `.text` section with the code placed on the first symbol, the four
/// fixed null-free symbol names, relocation symbols in range - the
/// source shows no failure path (the only ELF write errors are
/// unsupported architectures, kinds and flags, none reachable here),
/// and the bytes are a function of the symbols, the code and the
/// relocations, named `elf_object_bytes`.
#[verifier::external_body]
fn write_object(o: &object::write::Object<'static>) -> (bytes: Vec<u8>)
    requires
        obj_elf_x64(o),
        obj_sections(o) == 1,
        obj_text_placed(o),
        obj_symbols(o) == object_symbols(),
        forall|j: int|
            0 <= j < obj_relocs(o).len() ==> (#[trigger] obj_relocs(o)[j]).1 < obj_symbols(
                o,
            ).len(),
    ensures
        bytes@ == elf_object_bytes(obj_symbols(o), obj_text(o), obj_relocs(o)),
{
    o.write().unwrap()
}

/// The name `_start`.
pub open spec fn start_name() -> Seq<u8> {
    seq![0x5fu8, 0x73, 0x74, 0x61, 0x72, 0x74]
}

/// The name `bf_write`.
pub open spec fn write_name() -> Seq<u8> {
    seq![0x62u8, 0x66, 0x5f, 0x77, 0x72, 0x69, 0x74, 0x65]
}

/// The name `bf_read`.
pub open spec fn read_name() -> Seq<u8> {
    seq![0x62u8, 0x66, 0x5f, 0x72, 0x65, 0x61, 0x64]
}

/// The name `bf_exit`.
pub open spec fn exit_name() -> Seq<u8> {
    seq![0x62u8, 0x66, 0x5f, 0x65, 0x78, 0x69, 0x74]
}

/// The four symbols of the object, in order: the entry point and the
/// three I/O routines the linked runtime must provide.
pub open spec fn object_symbols() -> Seq<Seq<u8>> {
    seq![start_name(), write_name(), read_name(), exit_name()]
}

/// The relocation triples (offset, symbol index, addend) of the
/// object: each recorded `bf_read` site, then each `bf_write` site,
/// then the final `bf_exit` call, all PC-relative with addend -4.
pub open spec fn object_relocs(rd: Seq<usize>, wr: Seq<usize>, cr: usize) -> Seq<(nat, nat, int)> {
    rd.map_values(|x: usize| (x as nat, 2nat, -4int)) + wr.map_values(
        |x: usize| (x as nat, 1nat, -4int),
    ) + seq![(cr as nat, 3nat, -4int)]
}

/// Materialise compiled code (object flavour) as a relocatable ELF
/// object: `_start` on the code in `.text`, undefined `bf_write`,
/// `bf_read` and `bf_exit`, and one relocation per recorded call site.
/// The serialisation always succeeds, and equal inputs yield
/// byte-identical files.
pub fn to_elf_object(c: &CompiledProgram) -> (bytes: Vec<u8>)
    requires
        c.call_relocation matches Some(_),
    ensures
        c.call_relocation matches Some(cr) && bytes@ == elf_object_bytes(
            object_symbols(),
            c.code@,
            object_relocs(c.read_relocations@, c.write_relocations@, cr),
        ),
{
    let mut o = new_object();
    let name_start: [u8; 6] = [0x5f, 0x73, 0x74, 0x61, 0x72, 0x74];
    let name_write: [u8; 8] = [0x62, 0x66, 0x5f, 0x77, 0x72, 0x69, 0x74, 0x65];
    let name_read: [u8; 7] = [0x62, 0x66, 0x5f, 0x72, 0x65, 0x61, 0x64];
    let name_exit: [u8; 7] = [0x62, 0x66, 0x5f, 0x65, 0x78, 0x69, 0x74];
    let start = add_undefined_text_symbol(&mut o, name_start.as_slice());
    let bf_write = add_undefined_text_symbol(&mut o, name_write.as_slice());
    let bf_read = add_undefined_text_symbol(&mut o, name_read.as_slice());
    let bf_exit = add_undefined_text_symbol(&mut o, name_exit.as_slice());
    proof {
        assert(name_start@ =~= start_name());
        assert(name_write@ =~= write_name());
        assert(name_read@ =~= read_name());
        assert(name_exit@ =~= exit_name());
        assert(obj_symbols(&o) =~= object_symbols());
    }
    let text = text_section(&mut o);
    proof {
        assert(sym_index(start) == 0);
    }
    add_text_data(&mut o, start, text, c.code.as_slice());
    let ghost rd = c.read_relocations@;
    let ghost wr = c.write_relocations@;
    let mut i: usize = 0;
    while i < c.read_relocations.len()
        invariant
            i <= rd.len(),
            c.read_relocations@ == rd,
            c.write_relocations@ == wr,
            obj_elf_x64(&o),
            is_text_section(text),
            obj_sections(&o) == 1,
            obj_text_placed(&o),
            obj_symbols(&o) == object_symbols(),
            obj_text(&o) == c.code@,
            sym_index(bf_read) == 2,
            sym_index(bf_write) == 1,
            sym_index(bf_exit) == 3,
            obj_relocs(&o) == rd.take(i as int).map_values(
                |x: usize| (x as nat, 2nat, -4int),
            ),
        decreases rd.len() - i,
    {
        add_pc32_relocation(&mut o, text, c.read_relocations[i] as u64, bf_read, -4);
        proof {
            assert(obj_relocs(&o) =~= rd.take(i + 1).map_values(
                |x: usize| (x as nat, 2nat, -4int),
            ));
        }
        i = i + 1;
    }
    proof {
        assert(rd.take(rd.len() as int) =~= rd);
    }
    let mut i: usize = 0;
    while i < c.write_relocations.len()
        invariant
            i <= wr.len(),
            c.read_relocations@ == rd,
            c.write_relocations@ == wr,
            obj_elf_x64(&o),
            is_text_section(text),
            obj_sections(&o) == 1,
            obj_text_placed(&o),
            obj_symbols(&o) == object_symbols(),
            obj_text(&o) == c.code@,
            sym_index(bf_read) == 2,
            sym_index(bf_write) == 1,
            sym_index(bf_exit) == 3,
            obj_relocs(&o) == rd.map_values(|x: usize| (x as nat, 2nat, -4int)) + wr.take(
                i as int,
            ).map_values(|x: usize| (x as nat, 1nat, -4int)),
        decreases wr.len() - i,
    {
        add_pc32_relocation(&mut o, text, c.write_relocations[i] as u64, bf_write, -4);
        proof {
            assert(obj_relocs(&o) =~= rd.map_values(|x: usize| (x as nat, 2nat, -4int))
                + wr.take(i + 1).map_values(|x: usize| (x as nat, 1nat, -4int)));
        }
        i = i + 1;
    }
    proof {
        assert(wr.take(wr.len() as int) =~= wr);
    }
    let cr = match c.call_relocation {
        Some(x) => x,
        None => {
            proof {
                assert(false);
            }
            0
        },
    };
    add_pc32_relocation(&mut o, text, cr as u64, bf_exit, -4);
    proof {
        assert(obj_relocs(&o) =~= object_relocs(rd, wr, cr));
        assert forall|j: int|
            0 <= j < obj_relocs(&o).len() implies (#[trigger] obj_relocs(&o)[j]).1 < obj_symbols(
            &o,
        ).len() by {
            let n_rd = rd.len() as int;
            let n_wr = wr.len() as int;
            if j < n_rd {
                assert(obj_relocs(&o)[j] == (rd[j] as nat, 2nat, -4int));
            } else if j < n_rd + n_wr {
                assert(obj_relocs(&o)[j] == (wr[j - n_rd] as nat, 1nat, -4int));
            } else {
                assert(obj_relocs(&o)[j] == (cr as nat, 3nat, -4int));
            }
        }
    }
    write_object(&o)
}

} // verus!
