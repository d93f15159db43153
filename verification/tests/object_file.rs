use process_scheduler::elf::{
    elf_string, helper_id, is_ebpf_object, patch_call_instruction, patch_helper_calls, sections,
    ElfError, Section,
};

const TEXT: usize = 64;
const SYMBOLS: usize = TEXT + 16;
const STRINGS: usize = SYMBOLS + 48;
const RELOCATIONS: usize = STRINGS + 64;
const HEADERS: usize = RELOCATIONS + 32;

fn section(kind: u32, offset: usize, size: usize, link: u32, info: u32, entry: u64) -> Vec<u8> {
    let mut header = vec![0; 64];
    header[4..8].copy_from_slice(&kind.to_le_bytes());
    header[24..32].copy_from_slice(&(offset as u64).to_le_bytes());
    header[32..40].copy_from_slice(&(size as u64).to_le_bytes());
    header[40..44].copy_from_slice(&link.to_le_bytes());
    header[44..48].copy_from_slice(&info.to_le_bytes());
    header[56..64].copy_from_slice(&entry.to_le_bytes());
    header
}

/// Two instructions, of which the second calls a helper by a relocation.
fn object() -> Vec<u8> {
    let mut elf = vec![0; HEADERS];
    elf[..6].copy_from_slice(b"\x7fELF\x02\x01");
    elf[40..48].copy_from_slice(&(HEADERS as u64).to_le_bytes());
    elf[58..60].copy_from_slice(&64u16.to_le_bytes());
    elf[60..62].copy_from_slice(&5u16.to_le_bytes());
    elf[TEXT..TEXT + 8].copy_from_slice(&[0x85, 0x10, 0, 0, 9, 9, 9, 9]);
    elf[TEXT + 8..TEXT + 16].copy_from_slice(&[0x85, 0x1f, 7, 7, 0xff, 0xff, 0xff, 0xff]);
    elf[SYMBOLS + 24..SYMBOLS + 28].copy_from_slice(&1u32.to_le_bytes());
    let name = b"\0aya::bpf_probe_read_kernel_str\0other\0";
    elf[STRINGS..STRINGS + name.len()].copy_from_slice(name);
    elf[RELOCATIONS..RELOCATIONS + 8].copy_from_slice(&8u64.to_le_bytes());
    elf[RELOCATIONS + 8..RELOCATIONS + 16].copy_from_slice(&((1u64 << 32) | 10).to_le_bytes());
    elf.extend(section(0, 0, 0, 0, 0, 0));
    elf.extend(section(1, TEXT, 16, 0, 0, 0));
    elf.extend(section(2, SYMBOLS, 48, 3, 0, 24));
    elf.extend(section(3, STRINGS, 64, 0, 0, 0));
    elf.extend(section(9, RELOCATIONS, 16, 2, 1, 16));
    elf
}

#[test]
fn helper_calls_become_calls_by_number() {
    let before = object();
    let after = patch_helper_calls(before.clone()).unwrap();
    assert_eq!(after[TEXT + 8..TEXT + 16], [0x85, 0x0f, 7, 7, 115, 0, 0, 0]);
    assert_eq!(after.len(), before.len());
    assert_eq!(after[..TEXT + 8], before[..TEXT + 8]);
    assert_eq!(after[TEXT + 16..], before[TEXT + 16..]);
}

#[test]
fn symbols_that_are_no_helpers_are_left() {
    let mut elf = object();
    elf[SYMBOLS + 24] = 32;
    assert_eq!(patch_helper_calls(elf.clone()).unwrap(), elf);
    elf[SYMBOLS + 24] = 0;
    assert_eq!(patch_helper_calls(elf.clone()).unwrap(), elf);
}

#[test]
fn sections_are_read() {
    let found = sections(&object()).unwrap();
    assert_eq!(found.len(), 5);
    assert_eq!(
        found[2],
        Section {
            kind: 2,
            offset: SYMBOLS as u64,
            size: 48,
            link: 3,
            info: 0,
            entry_size: 24,
        }
    );
    assert_eq!(
        elf_string(&object(), &found[3], 32).unwrap(),
        Some("other")
    );
}

fn broken(change: impl Fn(&mut Vec<u8>)) -> ElfError {
    let mut elf = object();
    change(&mut elf);
    patch_helper_calls(elf).unwrap_err()
}

fn header(number: usize) -> usize {
    HEADERS + 64 * number
}

#[test]
fn broken_files_are_refused() {
    assert_eq!(broken(|elf| elf.truncate(63)), ElfError::UnsupportedHeader);
    assert_eq!(broken(|elf| elf[4] = 1), ElfError::UnsupportedHeader);
    assert_eq!(broken(|elf| elf[58] = 63), ElfError::ShortSectionHeader);
    assert_eq!(
        broken(|elf| elf[40..48].copy_from_slice(&u64::MAX.to_le_bytes())),
        ElfError::ShortData
    );
    assert_eq!(
        broken(|elf| elf[40..48].copy_from_slice(&(u64::MAX - 63).to_le_bytes())),
        ElfError::ShortData
    );
    assert_eq!(broken(|elf| elf.truncate(HEADERS + 100)), ElfError::ShortData);
    assert_eq!(broken(|elf| elf[header(4) + 44] = 5), ElfError::MissingTarget);
    assert_eq!(broken(|elf| elf[header(4) + 40] = 5), ElfError::MissingSymbols);
    assert_eq!(broken(|elf| elf[header(2) + 40] = 5), ElfError::MissingStrings);
    assert_eq!(broken(|elf| elf[header(4) + 56] = 0), ElfError::EmptyRelocations);
}

#[test]
fn broken_relocations_are_refused() {
    let far = |at: usize| move |elf: &mut Vec<u8>| elf[at..at + 8].copy_from_slice(&[0xff; 8]);
    assert_eq!(broken(far(header(4) + 24)), ElfError::ShortData);
    assert_eq!(broken(far(header(2) + 24)), ElfError::SymbolOverflow);
    assert_eq!(broken(far(header(2) + 56)), ElfError::SymbolOverflow);
    assert_eq!(broken(far(header(3) + 24)), ElfError::StringOutside);
    assert_eq!(broken(far(header(1) + 24)), ElfError::InstructionOverflow);
    assert_eq!(broken(|elf| elf[TEXT + 8] = 0x84), ElfError::NotACall);
    assert_eq!(
        broken(|elf| elf[RELOCATIONS + 3] = 1),
        ElfError::ShortInstruction
    );
    let found = sections(&object()).unwrap();
    assert_eq!(
        elf_string(b"abc", &found[0], 1).unwrap_err(),
        ElfError::UnterminatedString
    );
}

#[test]
fn a_section_header_can_lie_beyond_all_offsets() {
    let mut elf = object();
    elf[40..48].copy_from_slice(&(u64::MAX - 10).to_le_bytes());
    assert_eq!(sections(&elf).unwrap_err(), ElfError::ShortData);
    elf[60] = 0;
    assert!(sections(&elf).unwrap().is_empty());
}

#[test]
fn helpers_are_known_by_the_end_of_their_names() {
    assert_eq!(helper_id("bpf_probe_read"), Some(4));
    assert_eq!(helper_id("x_bpf_probe_read_kernel"), Some(113));
    assert_eq!(helper_id("bpf_get_current_task_btf"), Some(158));
    assert_eq!(helper_id("bpf_map_lookup_elem"), Some(1));
    assert_eq!(helper_id("bpf_get_current_comm"), Some(16));
    assert_eq!(helper_id("bpf_perf_event_output"), Some(25));
    assert_eq!(helper_id("bpf_ringbuf_output"), Some(130));
    assert_eq!(helper_id("bpf_ringbuf_reserve"), Some(131));
    assert_eq!(helper_id("bpf_ringbuf_submit"), Some(132));
    assert_eq!(helper_id("bpf_ringbuf_discard"), Some(133));
    assert_eq!(helper_id("bpf_probe_read_x"), None);
}

#[test]
fn calls_are_patched_in_place() {
    let mut code = vec![0x85, 0xf3, 1, 2, 3, 4, 5, 6, 7];
    patch_call_instruction(&mut code, 0, 0x0102_0304).unwrap();
    assert_eq!(code, [0x85, 3, 1, 2, 4, 3, 2, 1, 7]);
    assert_eq!(
        patch_call_instruction(&mut code, 2, 1).unwrap_err(),
        ElfError::ShortInstruction
    );
    assert_eq!(
        patch_call_instruction(&mut code, 1, 1).unwrap_err(),
        ElfError::NotACall
    );
}

#[test]
fn object_files_have_names() {
    assert!(is_ebpf_object("execsnoop_ebpf-1234.o"));
    assert!(is_ebpf_object("execsnoop_ebpf-1234.O"));
    assert!(!is_ebpf_object("execsnoop_ebpf-1234.d"));
    assert!(!is_ebpf_object("libexecsnoop_ebpf-1234.o"));
    assert!(!is_ebpf_object("execsnoop_ebpf-o"));
}
