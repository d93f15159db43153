//! Calls of kernel helpers in the object file of the probe.
//!
//! The compiler leaves calls of helpers as calls of functions that are not there. They are turned into calls by
//! number, which the kernel knows.

use vstd::prelude::*;

use crate::bytes;
use crate::text;

verus! {

/// The kind of a section that holds symbols.
pub const SHT_SYMTAB: u32 = 2;

/// The kind of a section that holds relocations.
pub const SHT_REL: u32 = 9;

/// The operation of an instruction that is a call.
pub const BPF_CALL: u8 = 0x85;

/// Why an object file is of no use.
#[derive(Debug, Clone, Copy, PartialEq, Eq, Structural)]
pub enum ElfError {
    /// The header is not that of a file of 64-bit words with the lowest byte first.
    UnsupportedHeader,
    /// The headers of sections are too short.
    ShortSectionHeader,
    /// The header of a section lies beyond all offsets.
    SectionHeaderOverflow,
    /// The section that relocations are for is not there.
    MissingTarget,
    /// The section with the symbols of relocations is not there.
    MissingSymbols,
    /// The section with the names of symbols is not there.
    MissingStrings,
    /// Relocations have no length.
    EmptyRelocations,
    /// A relocation lies beyond all offsets.
    RelocationOverflow,
    /// A symbol lies beyond all offsets.
    SymbolOverflow,
    /// An instruction lies beyond all offsets.
    InstructionOverflow,
    /// A string lies outside of the file.
    StringOutside,
    /// A string has no end.
    UnterminatedString,
    /// Something is cut off.
    ShortData,
    /// An instruction is cut off.
    ShortInstruction,
    /// A relocation of a helper is not for a call.
    NotACall,
}

/// A section of an object file.
#[derive(Clone, Copy, Debug, PartialEq, Eq, Structural)]
pub struct Section {
    /// Its kind.
    pub kind: u32,
    /// Its offset in the file.
    pub offset: u64,
    /// Its length.
    pub size: u64,
    /// The section that it refers to.
    pub link: u32,
    /// The section that it is for.
    pub info: u32,
    /// The length of one of its entries.
    pub entry_size: u64,
}

/// The number in two bytes, lowest byte first.
pub open spec fn le_u16(s: Seq<u8>, at: int) -> int {
    s[at] + 256 * s[at + 1]
}

/// The number in eight bytes, lowest byte first.
pub open spec fn le_u64(s: Seq<u8>, at: int) -> u64 {
    (bytes::le_u32(s, at) + 0x1_0000_0000 * bytes::le_u32(s, at + 4)) as u64
}

/// Whether so many bytes from an offset on lie in the file.
pub open spec fn inside(s: Seq<u8>, offset: int, len: int) -> bool {
    offset + len <= s.len()
}

/// The section whose header is at an offset.
pub open spec fn section_at(elf: Seq<u8>, offset: int) -> Section {
    Section {
        kind: bytes::le_u32(elf, offset + 4),
        offset: le_u64(elf, offset + 24),
        size: le_u64(elf, offset + 32),
        link: bytes::le_u32(elf, offset + 40),
        info: bytes::le_u32(elf, offset + 44),
        entry_size: le_u64(elf, offset + 56),
    }
}

/// The sections of an object file whose headers start at an offset, from a number on.
pub open spec fn sections_from(elf: Seq<u8>, start: u64, size: int, count: int, i: int) -> Result<
    Seq<Section>,
    ElfError,
>
    decreases count - i,
{
    if i >= count {
        Ok(Seq::empty())
    } else {
        let offset = start + i * size;
        if offset > u64::MAX {
            Err(ElfError::SectionHeaderOverflow)
        } else if !inside(elf, offset, 64) {
            Err(ElfError::ShortData)
        } else {
            match sections_from(elf, start, size, count, i + 1) {
                Ok(rest) => Ok(seq![section_at(elf, offset)] + rest),
                Err(error) => Err(error),
            }
        }
    }
}

/// Whether a file starts as it should.
pub open spec fn has_header(elf: Seq<u8>) -> bool {
    &&& elf.len() >= 64
    &&& elf[0] == 0x7f && elf[1] == 69 && elf[2] == 76 && elf[3] == 70
    &&& elf[4] == 2
    &&& elf[5] == 1
}

/// The sections of an object file.
pub open spec fn sections_of(elf: Seq<u8>) -> Result<Seq<Section>, ElfError> {
    if !has_header(elf) {
        Err(ElfError::UnsupportedHeader)
    } else if le_u16(elf, 58) < 64 {
        Err(ElfError::ShortSectionHeader)
    } else {
        sections_from(elf, le_u64(elf, 40), le_u16(elf, 58), le_u16(elf, 60), 0)
    }
}

/// The string at an offset of a section. There is none at the first one, nor where the bytes are not UTF-8.
pub open spec fn string_in(elf: Seq<u8>, section: Section, offset: u32) -> Result<Option<Seq<char>>, ElfError> {
    let start = section.offset + offset;
    if offset == 0 {
        Ok(None)
    } else if start > elf.len() {
        Err(ElfError::StringOutside)
    } else {
        let rest = elf.skip(start);
        let end = bytes::until_nul(rest);
        if end == rest.len() {
            Err(ElfError::UnterminatedString)
        } else if vstd::utf8::valid_utf8(rest.take(end)) {
            Ok(Some(vstd::utf8::decode_utf8(rest.take(end))))
        } else {
            Ok(None)
        }
    }
}

/// The number of the kernel helper that a symbol stands for, by the end of its name.
pub open spec fn helper_of(name: Seq<char>) -> Option<u32> {
    if "bpf_map_lookup_elem"@.is_suffix_of(name) {
        Some(1)
    } else if "bpf_probe_read"@.is_suffix_of(name) {
        Some(4)
    } else if "bpf_get_current_comm"@.is_suffix_of(name) {
        Some(16)
    } else if "bpf_perf_event_output"@.is_suffix_of(name) {
        Some(25)
    } else if "bpf_probe_read_kernel"@.is_suffix_of(name) {
        Some(113)
    } else if "bpf_probe_read_kernel_str"@.is_suffix_of(name) {
        Some(115)
    } else if "bpf_ringbuf_output"@.is_suffix_of(name) {
        Some(130)
    } else if "bpf_ringbuf_reserve"@.is_suffix_of(name) {
        Some(131)
    } else if "bpf_ringbuf_submit"@.is_suffix_of(name) {
        Some(132)
    } else if "bpf_ringbuf_discard"@.is_suffix_of(name) {
        Some(133)
    } else if "bpf_get_current_task_btf"@.is_suffix_of(name) {
        Some(158)
    } else {
        None
    }
}

/// A file in which the call at an offset is one of a kernel helper: the upper half of the second byte is cleared,
/// and the last four bytes are the number of the helper.
pub open spec fn with_call(elf: Seq<u8>, offset: int, helper: u32) -> Result<Seq<u8>, ElfError> {
    if !inside(elf, offset, 8) {
        Err(ElfError::ShortInstruction)
    } else if elf[offset] != BPF_CALL {
        Err(ElfError::NotACall)
    } else {
        let number = bytes::le_bytes(helper);
        Ok(
            Seq::new(
                elf.len(),
                |i: int|
                    if i == offset + 1 {
                        (elf[i] % 16) as u8
                    } else if offset + 4 <= i < offset + 8 {
                        number[i - offset - 4]
                    } else {
                        elf[i]
                    },
            ),
        )
    }
}

/// The sections that a section of relocations goes with.
pub ghost struct Related {
    pub target: Section,
    pub symbols: Section,
    pub strings: Section,
}

/// A file after one relocation was looked at.
pub open spec fn relocation_patched(elf: Seq<u8>, relocations: Section, related: Related, i: int) -> Result<
    Seq<u8>,
    ElfError,
> {
    let at = relocations.offset + i * relocations.entry_size;
    if at > u64::MAX {
        Err(ElfError::RelocationOverflow)
    } else if !inside(elf, at, 16) {
        Err(ElfError::ShortData)
    } else {
        let symbol = related.symbols.offset + (le_u64(elf, at + 8) / 0x1_0000_0000) * related.symbols.entry_size;
        if symbol > u64::MAX {
            Err(ElfError::SymbolOverflow)
        } else if !inside(elf, symbol, 4) {
            Err(ElfError::ShortData)
        } else {
            match string_in(elf, related.strings, bytes::le_u32(elf, symbol)) {
                Err(error) => Err(error),
                Ok(None) => Ok(elf),
                Ok(Some(name)) => match helper_of(name) {
                    None => Ok(elf),
                    Some(helper) => {
                        let instruction = related.target.offset + le_u64(elf, at);
                        if instruction > u64::MAX {
                            Err(ElfError::InstructionOverflow)
                        } else {
                            with_call(elf, instruction, helper)
                        }
                    },
                },
            }
        }
    }
}

/// A file after the relocations of a section were looked at, from a number on.
pub open spec fn relocations_patched(elf: Seq<u8>, relocations: Section, related: Related, i: int) -> Result<
    Seq<u8>,
    ElfError,
>
    decreases relocations.size / relocations.entry_size - i,
{
    if i >= relocations.size / relocations.entry_size {
        Ok(elf)
    } else {
        match relocation_patched(elf, relocations, related, i) {
            Err(error) => Err(error),
            Ok(next) => relocations_patched(next, relocations, related, i + 1),
        }
    }
}

/// A file after a section was looked at.
pub open spec fn section_patched(elf: Seq<u8>, sections: Seq<Section>, section: Section) -> Result<
    Seq<u8>,
    ElfError,
> {
    if section.kind != SHT_REL {
        Ok(elf)
    } else if section.info >= sections.len() {
        Err(ElfError::MissingTarget)
    } else if section.link >= sections.len() {
        Err(ElfError::MissingSymbols)
    } else {
        let symbols = sections[section.link as int];
        if symbols.kind != SHT_SYMTAB {
            Ok(elf)
        } else if symbols.link >= sections.len() {
            Err(ElfError::MissingStrings)
        } else if section.entry_size == 0 {
            Err(ElfError::EmptyRelocations)
        } else {
            relocations_patched(
                elf,
                section,
                Related {
                    target: sections[section.info as int],
                    symbols,
                    strings: sections[symbols.link as int],
                },
                0,
            )
        }
    }
}

/// A file after all sections were looked at, from a number on.
pub open spec fn patched_from(elf: Seq<u8>, sections: Seq<Section>, i: int) -> Result<Seq<u8>, ElfError>
    decreases sections.len() - i,
{
    if i >= sections.len() {
        Ok(elf)
    } else {
        match section_patched(elf, sections, sections[i]) {
            Err(error) => Err(error),
            Ok(next) => patched_from(next, sections, i + 1),
        }
    }
}

/// A file in which the calls of helpers are calls by number.
pub open spec fn patched(elf: Seq<u8>) -> Result<Seq<u8>, ElfError> {
    match sections_of(elf) {
        Err(error) => Err(error),
        Ok(sections) => patched_from(elf, sections, 0),
    }
}

/// The position of an offset from which so many bytes lie in the file.
fn place(bytes: &[u8], offset: u64, len: usize) -> (r: Option<usize>)
    ensures
        r is Some <==> inside(bytes@, offset as int, len as int),
        r matches Some(at) ==> at == offset && at + len <= usize::MAX,
{
    let total: usize = bytes.len();
    if len <= total && offset <= (total - len) as u64 {
        Some(offset as usize)
    } else {
        None
    }
}

/// Reads the number in eight bytes.
fn read_le_u64(bytes: &[u8], at: usize) -> (r: u64)
    requires
        at + 8 <= bytes@.len(),
        at + 8 <= usize::MAX,
    ensures
        r == le_u64(bytes@, at as int),
{
    bytes::read_le_u32(bytes, at) as u64 + 0x1_0000_0000 * (bytes::read_le_u32(bytes, at + 4) as u64)
}

/// The sections of an object file.
pub fn sections(elf: &[u8]) -> (r: Result<Vec<Section>, ElfError>)
    ensures
        match sections_of(elf@) {
            Ok(sections) => r matches Ok(found) && found@ == sections,
            Err(error) => r matches Err(found) && found == error,
        },
{
    if elf.len() < 64 || elf[0] != 0x7f || elf[1] != 69 || elf[2] != 76 || elf[3] != 70 || elf[4] != 2 || elf[5] != 1 {
        return Err(ElfError::UnsupportedHeader);
    }
    let start: u64 = read_le_u64(elf, 40);
    let size: u64 = elf[58] as u64 + 256 * (elf[59] as u64);
    let count: u64 = elf[60] as u64 + 256 * (elf[61] as u64);
    if size < 64 {
        return Err(ElfError::ShortSectionHeader);
    }
    let mut sections: Vec<Section> = Vec::new();
    let mut i: u64 = 0;
    let ghost all = sections_from(elf@, start, size as int, count as int, 0);
    while i < count
        invariant
            size < 0x1_0000,
            count < 0x1_0000,
            i <= count,
            sections_of(elf@) == all,
            match sections_from(elf@, start, size as int, count as int, i as int) {
                Ok(rest) => all matches Ok(found) && found == sections@ + rest,
                Err(error) => all matches Err(found) && found == error,
            },
        decreases count - i,
    {
        proof {
            assert(i * size <= 0xffff * 0xffff) by (nonlinear_arith)
                requires
                    0 <= i < 0x1_0000,
                    0 <= size < 0x1_0000,
            ;
        }
        let offset: u64 = match start.checked_add(i * size) {
            Some(offset) => offset,
            None => return Err(ElfError::SectionHeaderOverflow),
        };
        let at: usize = match place(elf, offset, 64) {
            Some(at) => at,
            None => return Err(ElfError::ShortData),
        };
        let section: Section = Section {
            kind: bytes::read_le_u32(elf, at + 4),
            offset: read_le_u64(elf, at + 24),
            size: read_le_u64(elf, at + 32),
            link: bytes::read_le_u32(elf, at + 40),
            info: bytes::read_le_u32(elf, at + 44),
            entry_size: read_le_u64(elf, at + 56),
        };
        let ghost before = sections@;
        sections.push(section);
        proof {
            if let Ok(rest) = sections_from(elf@, start, size as int, count as int, i + 1) {
                assert(before + (seq![section] + rest) =~= sections@ + rest);
            }
        }
        i += 1;
    }
    proof {
        assert(sections@ + Seq::<Section>::empty() =~= sections@);
    }
    Ok(sections)
}

/// The string at an offset of a section.
pub fn elf_string<'a>(elf: &'a [u8], section: &Section, offset: u32) -> (r: Result<Option<&'a str>, ElfError>)
    ensures
        match string_in(elf@, *section, offset) {
            Ok(Some(text)) => r matches Ok(Some(found)) && found@ == text,
            Ok(None) => r matches Ok(None),
            Err(error) => r matches Err(found) && found == error,
        },
{
    if offset == 0 {
        return Ok(None);
    }
    let total: usize = elf.len();
    let start: usize = match section.offset.checked_add(offset as u64) {
        Some(start) => match place(elf, start, 0) {
            Some(start) => start,
            None => return Err(ElfError::StringOutside),
        },
        None => return Err(ElfError::StringOutside),
    };
    let rest: &'a [u8] = vstd::slice::slice_subrange(elf, start, total);
    let end: usize = bytes::nul_or_len(rest);
    proof {
        assert(rest@ =~= elf@.skip(start as int));
    }
    if end == rest.len() {
        return Err(ElfError::UnterminatedString);
    }
    let name: &'a [u8] = vstd::slice::slice_subrange(rest, 0, end);
    proof {
        assert(name@ =~= rest@.take(end as int));
    }
    Ok(text::from_utf8(name))
}

/// The number of the kernel helper that a symbol stands for.
pub fn helper_id(name: &str) -> (r: Option<u32>)
    ensures
        r == helper_of(name@),
{
    if text::ends_with(name, "bpf_map_lookup_elem") {
        Some(1)
    } else if text::ends_with(name, "bpf_probe_read") {
        Some(4)
    } else if text::ends_with(name, "bpf_get_current_comm") {
        Some(16)
    } else if text::ends_with(name, "bpf_perf_event_output") {
        Some(25)
    } else if text::ends_with(name, "bpf_probe_read_kernel") {
        Some(113)
    } else if text::ends_with(name, "bpf_probe_read_kernel_str") {
        Some(115)
    } else if text::ends_with(name, "bpf_ringbuf_output") {
        Some(130)
    } else if text::ends_with(name, "bpf_ringbuf_reserve") {
        Some(131)
    } else if text::ends_with(name, "bpf_ringbuf_submit") {
        Some(132)
    } else if text::ends_with(name, "bpf_ringbuf_discard") {
        Some(133)
    } else if text::ends_with(name, "bpf_get_current_task_btf") {
        Some(158)
    } else {
        None
    }
}

/// Makes the call at an offset one of a kernel helper. A file without a call there stays as it is.
pub fn patch_call_instruction(elf: &mut Vec<u8>, offset: u64, helper_id: u32) -> (r: Result<(), ElfError>)
    ensures
        match with_call(old(elf)@, offset as int, helper_id) {
            Ok(next) => r is Ok && final(elf)@ == next,
            Err(error) => r == Err::<(), ElfError>(error) && final(elf)@ == old(elf)@,
        },
{
    let ghost before = elf@;
    let at: usize = match place(elf.as_slice(), offset, 8) {
        Some(at) => at,
        None => return Err(ElfError::ShortInstruction),
    };
    if elf[at] != BPF_CALL {
        return Err(ElfError::NotACall);
    }
    elf[at + 1] = elf[at + 1] % 16;
    elf[at + 4] = (helper_id % 256) as u8;
    elf[at + 5] = (helper_id / 256 % 256) as u8;
    elf[at + 6] = (helper_id / 65536 % 256) as u8;
    elf[at + 7] = (helper_id / 16777216) as u8;
    proof {
        assert(elf@ =~= with_call(before, offset as int, helper_id)->Ok_0);
    }
    Ok(())
}

/// Looks at one relocation, and makes the call that it is for one of a kernel helper.
fn patch_relocation(
    elf: &mut Vec<u8>,
    relocations: &Section,
    target: &Section,
    symbols: &Section,
    strings: &Section,
    i: u64,
) -> (r: Result<(), ElfError>)
    requires
        i < relocations.size / relocations.entry_size,
        relocations.entry_size > 0,
    ensures
        match relocation_patched(
            old(elf)@,
            *relocations,
            Related { target: *target, symbols: *symbols, strings: *strings },
            i as int,
        ) {
            Ok(next) => r is Ok && final(elf)@ == next,
            Err(error) => r == Err::<(), ElfError>(error),
        },
{
    proof {
        let size = relocations.size as int;
        let entry = relocations.entry_size as int;
        assert(i * entry <= size) by (nonlinear_arith)
            requires
                0 <= i < size / entry,
                entry > 0,
                size >= 0,
        ;
    }
    let at: u64 = match relocations.offset.checked_add(i * relocations.entry_size) {
        Some(at) => at,
        None => return Err(ElfError::RelocationOverflow),
    };
    let at: usize = match place(elf.as_slice(), at, 16) {
        Some(at) => at,
        None => return Err(ElfError::ShortData),
    };
    let distance: u64 = read_le_u64(elf.as_slice(), at);
    let symbol_index: u64 = bytes::read_le_u32(elf.as_slice(), at + 12) as u64;
    proof {
        let low = bytes::le_u32(elf@, at + 8);
        let high = bytes::le_u32(elf@, at + 12);
        assert(le_u64(elf@, at + 8) == low + 0x1_0000_0000 * high);
        assert((low + 0x1_0000_0000 * high) / 0x1_0000_0000 == high) by (nonlinear_arith)
            requires
                0 <= low < 0x1_0000_0000,
                0 <= high,
        ;
    }
    let symbol: u64 = match symbol_index.checked_mul(symbols.entry_size) {
        Some(past) => match symbols.offset.checked_add(past) {
            Some(symbol) => symbol,
            None => return Err(ElfError::SymbolOverflow),
        },
        None => return Err(ElfError::SymbolOverflow),
    };
    let symbol: usize = match place(elf.as_slice(), symbol, 4) {
        Some(symbol) => symbol,
        None => return Err(ElfError::ShortData),
    };
    let name_offset: u32 = bytes::read_le_u32(elf.as_slice(), symbol);
    let helper: u32 = match elf_string(elf.as_slice(), strings, name_offset) {
        Ok(Some(name)) => match helper_id(name) {
            Some(helper) => helper,
            None => return Ok(()),
        },
        Ok(None) => return Ok(()),
        Err(error) => return Err(error),
    };
    match target.offset.checked_add(distance) {
        Some(instruction) => patch_call_instruction(elf, instruction, helper),
        None => Err(ElfError::InstructionOverflow),
    }
}

/// Makes calls of helpers calls by number.
pub fn patch_helper_calls(elf: Vec<u8>) -> (r: Result<Vec<u8>, ElfError>)
    ensures
        match patched(elf@) {
            Ok(next) => r matches Ok(file) && file@ == next,
            Err(error) => r matches Err(found) && found == error,
        },
{
    let sections: Vec<Section> = match sections(elf.as_slice()) {
        Ok(sections) => sections,
        Err(error) => return Err(error),
    };
    let mut file: Vec<u8> = elf;
    let ghost all = patched_from(elf@, sections@, 0);
    let mut k: usize = 0;
    while k < sections.len()
        invariant
            k <= sections@.len(),
            all == patched_from(file@, sections@, k as int),
            all == patched(elf@),
        decreases sections@.len() - k,
    {
        let section: Section = sections[k];
        if section.kind == SHT_REL {
            if section.info as usize >= sections.len() {
                return Err(ElfError::MissingTarget);
            }
            if section.link as usize >= sections.len() {
                return Err(ElfError::MissingSymbols);
            }
            let target: Section = sections[section.info as usize];
            let symbols: Section = sections[section.link as usize];
            if symbols.kind == SHT_SYMTAB {
                if symbols.link as usize >= sections.len() {
                    return Err(ElfError::MissingStrings);
                }
                let strings: Section = sections[symbols.link as usize];
                if section.entry_size == 0 {
                    return Err(ElfError::EmptyRelocations);
                }
                let count: u64 = section.size / section.entry_size;
                let ghost related = Related { target, symbols, strings };
                let ghost whole = relocations_patched(file@, section, related, 0);
                let mut i: u64 = 0;
                while i < count
                    invariant
                        section.entry_size > 0,
                        count == section.size / section.entry_size,
                        i <= count,
                        related == (Related { target, symbols, strings }),
                        whole == relocations_patched(file@, section, related, i as int),
                        whole is Err ==> (all matches Err(found) && found == whole->Err_0),
                        all == patched(elf@),
                    decreases count - i,
                {
                    match patch_relocation(&mut file, &section, &target, &symbols, &strings, i) {
                        Ok(()) => {},
                        Err(error) => return Err(error),
                    }
                    i += 1;
                }
            }
        }
        k += 1;
    }
    Ok(file)
}

/// Whether a name is that of an object file of the probe.
pub open spec fn is_object_name(name: Seq<char>) -> bool {
    "execsnoop_ebpf-"@.is_prefix_of(name) && (".o"@.is_suffix_of(name) || ".O"@.is_suffix_of(name))
}

/// Whether a file is the object file of the probe, by its name.
pub fn is_ebpf_object(name: &str) -> (r: bool)
    ensures
        r == is_object_name(name@),
{
    text::starts_with(name, "execsnoop_ebpf-") && (text::ends_with(name, ".o") || text::ends_with(name, ".O"))
}

/// Making calls of helpers calls by number does not move anything in the file.
pub proof fn lemma_patched_in_place(elf: Seq<u8>)
    ensures
        patched(elf) matches Ok(next) ==> next.len() == elf.len(),
{
    if let Ok(sections) = sections_of(elf) {
        lemma_patched_len(elf, sections, 0);
    }
}

proof fn lemma_patched_len(elf: Seq<u8>, sections: Seq<Section>, i: int)
    ensures
        patched_from(elf, sections, i) matches Ok(next) ==> next.len() == elf.len(),
    decreases sections.len() - i,
{
    if i < sections.len() {
        let section = sections[i];
        if section.kind == SHT_REL && section.info < sections.len() && section.link < sections.len()
            && sections[section.link as int].link < sections.len() && section.entry_size > 0 {
            lemma_relocations_len(
                elf,
                section,
                Related {
                    target: sections[section.info as int],
                    symbols: sections[section.link as int],
                    strings: sections[sections[section.link as int].link as int],
                },
                0,
            );
        }
        if let Ok(next) = section_patched(elf, sections, section) {
            lemma_patched_len(next, sections, i + 1);
        }
    }
}

proof fn lemma_relocations_len(elf: Seq<u8>, relocations: Section, related: Related, i: int)
    ensures
        relocations_patched(elf, relocations, related, i) matches Ok(next) ==> next.len() == elf.len(),
    decreases relocations.size / relocations.entry_size - i,
{
    if i < relocations.size / relocations.entry_size {
        if let Ok(next) = relocation_patched(elf, relocations, related, i) {
            lemma_relocations_len(next, relocations, related, i + 1);
        }
    }
}

} // verus!
