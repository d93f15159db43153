//! What is turned into calls of kernel helpers, and what stays as it is.

use vstd::prelude::*;

use crate::bytes;
use crate::elf;
use crate::elf::{ElfError, Related, Section};

verus! {

proof fn lemma_ends(rest: Seq<char>, word: Seq<char>, other: Seq<char>)
    ensures
        word.is_suffix_of(rest + word),
        other.is_suffix_of(rest + word) ==> forall|i: int|
            1 <= i <= word.len() && i <= other.len() ==> word[word.len() - i] == #[trigger] other[other.len() - i],
{
    let s = rest + word;
    assert(s.subrange(s.len() - word.len(), s.len() as int) =~= word);
    if other.is_suffix_of(s) {
        assert forall|i: int| 1 <= i <= word.len() && i <= other.len() implies word[word.len() - i]
            == #[trigger] other[other.len() - i] by {
            assert(s[s.len() - i] == word[word.len() - i]);
            assert(s.subrange(s.len() - other.len(), s.len() as int)[other.len() - i] == s[s.len() - i]);
        }
    }
}

/// How long a name is, and its last character, the one before it and the eighth from the end.
spec fn ends_in(word: Seq<char>, len: int, last: char, before: char, middle: char) -> bool {
    word.len() == len && word[len - 1] == last && word[len - 2] == before && word[len - 8] == middle
}

proof fn lemma_words()
    ensures
        ends_in("bpf_map_lookup_elem"@, 19, 'm', 'e', 'k'),
        ends_in("bpf_probe_read"@, 14, 'd', 'a', 'o'),
        ends_in("bpf_get_current_comm"@, 20, 'm', 'm', 'e'),
        ends_in("bpf_perf_event_output"@, 21, 't', 'u', 't'),
        ends_in("bpf_probe_read_kernel"@, 21, 'l', 'e', 'd'),
        ends_in("bpf_probe_read_kernel_str"@, 25, 'r', 't', 'r'),
        ends_in("bpf_ringbuf_output"@, 18, 't', 'u', 'f'),
        ends_in("bpf_ringbuf_reserve"@, 19, 'e', 'v', '_'),
        ends_in("bpf_ringbuf_submit"@, 18, 't', 'i', 'f'),
        ends_in("bpf_ringbuf_discard"@, 19, 'd', 'r', '_'),
        ends_in("bpf_get_current_task_btf"@, 24, 'f', 't', 't'),
{
    reveal_strlit("bpf_map_lookup_elem");
    reveal_strlit("bpf_probe_read");
    reveal_strlit("bpf_get_current_comm");
    reveal_strlit("bpf_perf_event_output");
    reveal_strlit("bpf_probe_read_kernel");
    reveal_strlit("bpf_probe_read_kernel_str");
    reveal_strlit("bpf_ringbuf_output");
    reveal_strlit("bpf_ringbuf_reserve");
    reveal_strlit("bpf_ringbuf_submit");
    reveal_strlit("bpf_ringbuf_discard");
    reveal_strlit("bpf_get_current_task_btf");
}

proof fn lemma_apart(rest: Seq<char>, word: Seq<char>)
    ensures
        word.is_suffix_of(rest + word),
        word.len() >= 8 ==> {
            let last = word[word.len() - 1];
            let before = word[word.len() - 2];
            let middle = word[word.len() - 8];
            let name = rest + word;
            &&& "bpf_map_lookup_elem"@.is_suffix_of(name) ==> last == 'm' && before == 'e'
            &&& "bpf_probe_read"@.is_suffix_of(name) ==> last == 'd' && before == 'a'
            &&& "bpf_get_current_comm"@.is_suffix_of(name) ==> last == 'm' && before == 'm'
            &&& "bpf_perf_event_output"@.is_suffix_of(name) ==> last == 't' && before == 'u' && middle == 't'
            &&& "bpf_probe_read_kernel"@.is_suffix_of(name) ==> last == 'l'
            &&& "bpf_probe_read_kernel_str"@.is_suffix_of(name) ==> last == 'r'
            &&& "bpf_ringbuf_output"@.is_suffix_of(name) ==> last == 't' && before == 'u' && middle == 'f'
            &&& "bpf_ringbuf_reserve"@.is_suffix_of(name) ==> last == 'e'
            &&& "bpf_ringbuf_submit"@.is_suffix_of(name) ==> last == 't' && before == 'i'
            &&& "bpf_ringbuf_discard"@.is_suffix_of(name) ==> last == 'd' && before == 'r'
            &&& "bpf_get_current_task_btf"@.is_suffix_of(name) ==> last == 'f'
        },
{
    lemma_words();
    lemma_last(rest, word, "bpf_map_lookup_elem"@);
    lemma_last(rest, word, "bpf_probe_read"@);
    lemma_last(rest, word, "bpf_get_current_comm"@);
    lemma_last(rest, word, "bpf_perf_event_output"@);
    lemma_last(rest, word, "bpf_probe_read_kernel"@);
    lemma_last(rest, word, "bpf_probe_read_kernel_str"@);
    lemma_last(rest, word, "bpf_ringbuf_output"@);
    lemma_last(rest, word, "bpf_ringbuf_reserve"@);
    lemma_last(rest, word, "bpf_ringbuf_submit"@);
    lemma_last(rest, word, "bpf_ringbuf_discard"@);
    lemma_last(rest, word, "bpf_get_current_task_btf"@);
}

proof fn lemma_last(rest: Seq<char>, word: Seq<char>, other: Seq<char>)
    ensures
        word.is_suffix_of(rest + word),
        other.is_suffix_of(rest + word) && word.len() >= 8 && other.len() >= 8 ==> word[word.len() - 1] == other[other.len()
            - 1] && word[word.len() - 2] == other[other.len() - 2] && word[word.len() - 8] == other[other.len() - 8],
{
    lemma_ends(rest, word, other);
    if other.is_suffix_of(rest + word) && word.len() >= 8 && other.len() >= 8 {
        assert(other[other.len() - 1] == word[word.len() - 1]);
        assert(other[other.len() - 2] == word[word.len() - 2]);
        assert(other[other.len() - 8] == word[word.len() - 8]);
    }
}

/// The numbers of the helpers, whatever stands before their names.
pub proof fn lemma_helpers(rest: Seq<char>)
    ensures
        elf::helper_of(rest + "bpf_map_lookup_elem"@) == Some(1u32),
        elf::helper_of(rest + "bpf_probe_read"@) == Some(4u32),
        elf::helper_of(rest + "bpf_get_current_comm"@) == Some(16u32),
        elf::helper_of(rest + "bpf_perf_event_output"@) == Some(25u32),
        elf::helper_of(rest + "bpf_probe_read_kernel"@) == Some(113u32),
        elf::helper_of(rest + "bpf_probe_read_kernel_str"@) == Some(115u32),
        elf::helper_of(rest + "bpf_ringbuf_output"@) == Some(130u32),
        elf::helper_of(rest + "bpf_ringbuf_reserve"@) == Some(131u32),
        elf::helper_of(rest + "bpf_ringbuf_submit"@) == Some(132u32),
        elf::helper_of(rest + "bpf_ringbuf_discard"@) == Some(133u32),
        elf::helper_of(rest + "bpf_get_current_task_btf"@) == Some(158u32),
{
    lemma_words();
    assert(elf::helper_of(rest + "bpf_map_lookup_elem"@) == Some(1u32)) by {
        lemma_apart(rest, "bpf_map_lookup_elem"@);
    }
    assert(elf::helper_of(rest + "bpf_probe_read"@) == Some(4u32)) by {
        lemma_apart(rest, "bpf_probe_read"@);
    }
    assert(elf::helper_of(rest + "bpf_get_current_comm"@) == Some(16u32)) by {
        lemma_apart(rest, "bpf_get_current_comm"@);
    }
    assert(elf::helper_of(rest + "bpf_perf_event_output"@) == Some(25u32)) by {
        lemma_apart(rest, "bpf_perf_event_output"@);
    }
    assert(elf::helper_of(rest + "bpf_probe_read_kernel"@) == Some(113u32)) by {
        lemma_apart(rest, "bpf_probe_read_kernel"@);
    }
    assert(elf::helper_of(rest + "bpf_probe_read_kernel_str"@) == Some(115u32)) by {
        lemma_apart(rest, "bpf_probe_read_kernel_str"@);
    }
    assert(elf::helper_of(rest + "bpf_ringbuf_output"@) == Some(130u32)) by {
        lemma_apart(rest, "bpf_ringbuf_output"@);
    }
    assert(elf::helper_of(rest + "bpf_ringbuf_reserve"@) == Some(131u32)) by {
        lemma_apart(rest, "bpf_ringbuf_reserve"@);
    }
    assert(elf::helper_of(rest + "bpf_ringbuf_submit"@) == Some(132u32)) by {
        lemma_apart(rest, "bpf_ringbuf_submit"@);
    }
    assert(elf::helper_of(rest + "bpf_ringbuf_discard"@) == Some(133u32)) by {
        lemma_apart(rest, "bpf_ringbuf_discard"@);
    }
    assert(elf::helper_of(rest + "bpf_get_current_task_btf"@) == Some(158u32)) by {
        lemma_apart(rest, "bpf_get_current_task_btf"@);
    }
}

/// Whether a name is that of a helper, with something before it or not.
pub open spec fn names(name: Seq<char>, word: Seq<char>) -> bool {
    exists|rest: Seq<char>| name == #[trigger] (rest + word)
}

/// A name that is that of no helper has no number.
pub proof fn lemma_no_helper(name: Seq<char>)
    ensures
        elf::helper_of(name) is Some ==> names(name, "bpf_map_lookup_elem"@) || names(name, "bpf_probe_read"@) || names(
            name,
            "bpf_get_current_comm"@,
        ) || names(name, "bpf_perf_event_output"@) || names(name, "bpf_probe_read_kernel"@) || names(
            name,
            "bpf_probe_read_kernel_str"@,
        ) || names(name, "bpf_ringbuf_output"@) || names(name, "bpf_ringbuf_reserve"@) || names(
            name,
            "bpf_ringbuf_submit"@,
        ) || names(name, "bpf_ringbuf_discard"@) || names(name, "bpf_get_current_task_btf"@),
{
    lemma_named(name, "bpf_map_lookup_elem"@);
    lemma_named(name, "bpf_probe_read"@);
    lemma_named(name, "bpf_get_current_comm"@);
    lemma_named(name, "bpf_perf_event_output"@);
    lemma_named(name, "bpf_probe_read_kernel"@);
    lemma_named(name, "bpf_probe_read_kernel_str"@);
    lemma_named(name, "bpf_ringbuf_output"@);
    lemma_named(name, "bpf_ringbuf_reserve"@);
    lemma_named(name, "bpf_ringbuf_submit"@);
    lemma_named(name, "bpf_ringbuf_discard"@);
    lemma_named(name, "bpf_get_current_task_btf"@);
}

proof fn lemma_named(name: Seq<char>, word: Seq<char>)
    ensures
        word.is_suffix_of(name) ==> names(name, word),
{
    if word.is_suffix_of(name) {
        let rest = name.take(name.len() - word.len());
        assert(name =~= rest + word);
    }
}

/// Numbers of eight bytes stand with the lower half first, and numbers of two bytes with the lower byte first.
pub proof fn lemma_wide(s: Seq<u8>, at: int)
    ensures
        elf::le_u64(s, at) % 0x1_0000_0000 == bytes::le_u32(s, at),
        elf::le_u64(s, at) / 0x1_0000_0000 == bytes::le_u32(s, at + 4),
        elf::le_u16(s, at) % 256 == s[at],
        elf::le_u16(s, at) / 256 == s[at + 1],
{
    let n = bytes::le_u32(s, at) + 0x1_0000_0000 * bytes::le_u32(s, at + 4);
    assert(0 <= n <= u64::MAX);
    assert(elf::le_u64(s, at) == n);
}

/// A call takes the number of a helper in its last four bytes, and loses the upper half of its second byte. Nothing
/// else changes. What is not eight bytes that begin as a call is refused.
pub proof fn lemma_call(s: Seq<u8>, offset: int, helper: u32)
    requires
        offset >= 0,
    ensures
        offset + 8 > s.len() ==> elf::with_call(s, offset, helper) == Err::<Seq<u8>, ElfError>(
            ElfError::ShortInstruction,
        ),
        offset + 8 <= s.len() && s[offset] != 0x85 ==> elf::with_call(s, offset, helper) == Err::<Seq<u8>, ElfError>(
            ElfError::NotACall,
        ),
        offset + 8 <= s.len() && s[offset] == 0x85 ==> (elf::with_call(s, offset, helper) matches Ok(next) && {
            &&& next.len() == s.len()
            &&& next[offset + 1] < 16
            &&& next[offset + 1] % 16 == s[offset + 1] % 16
            &&& bytes::le_u32(next, offset + 4) == helper
            &&& forall|i: int|
                0 <= i < s.len() && i != offset + 1 && !(offset + 4 <= i < offset + 8) ==> next[i] == s[i]
        }),
{
    if offset + 8 <= s.len() && s[offset] == 0x85 {
        let next = elf::with_call(s, offset, helper)->Ok_0;
        assert(next.subrange(offset + 4, offset + 8) =~= bytes::le_bytes(helper));
        bytes::lemma_le_read_back(helper, next, offset + 4);
    }
}

/// A file that does not begin as an object of 64 bits with the lower byte first, or whose section headers are too
/// short, is refused.
pub proof fn lemma_refused(s: Seq<u8>)
    ensures
        s.len() < 64 || s[0] != 0x7f || s[1] != 'E' as u8 || s[2] != 'L' as u8 || s[3] != 'F' as u8 || s[4] != 2 || s[5]
            != 1 ==> elf::sections_of(s) == Err::<Seq<Section>, ElfError>(ElfError::UnsupportedHeader),
        s.len() >= 64 && s[0] == 0x7f && s[1] == 'E' as u8 && s[2] == 'L' as u8 && s[3] == 'F' as u8 && s[4] == 2 && s[5]
            == 1 && s[58] + 256 * s[59] < 64 ==> elf::sections_of(s) == Err::<Seq<Section>, ElfError>(
            ElfError::ShortSectionHeader,
        ),
{
}

/// The sections of an object, in the order of their headers, which stand one behind the other from where the object
/// says and are as long as it says.
pub proof fn lemma_sections(s: Seq<u8>, i: int)
    requires
        elf::sections_of(s) is Ok,
        0 <= i < s[60] + 256 * s[61],
    ensures
        elf::sections_of(s)->Ok_0.len() == s[60] + 256 * s[61],
        ({
            let section = elf::sections_of(s)->Ok_0[i];
            let at = elf::le_u64(s, 40) + i * (s[58] + 256 * s[59]);
            &&& at + 64 <= s.len()
            &&& section.kind == bytes::le_u32(s, at + 4)
            &&& section.offset == elf::le_u64(s, at + 24)
            &&& section.size == elf::le_u64(s, at + 32)
            &&& section.link == bytes::le_u32(s, at + 40)
            &&& section.info == bytes::le_u32(s, at + 44)
            &&& section.entry_size == elf::le_u64(s, at + 56)
        }),
{
    lemma_sections_from(s, elf::le_u64(s, 40), elf::le_u16(s, 58), elf::le_u16(s, 60), 0, i);
}

proof fn lemma_sections_from(s: Seq<u8>, start: u64, size: int, count: int, from: int, i: int)
    requires
        elf::sections_from(s, start, size, count, from) is Ok,
        0 <= from <= i < count,
    ensures
        elf::sections_from(s, start, size, count, from)->Ok_0.len() == count - from,
        elf::sections_from(s, start, size, count, from)->Ok_0[i - from] == elf::section_at(s, start + i * size),
        start + i * size + 64 <= s.len(),
    decreases count - from,
{
    let rest = elf::sections_from(s, start, size, count, from + 1);
    if from + 1 < count {
        lemma_sections_from(
            s,
            start,
            size,
            count,
            from + 1,
            if i > from {
                i
            } else {
                from + 1
            },
        );
    } else {
        assert(rest == Ok::<Seq<Section>, ElfError>(Seq::empty()));
    }
    if i > from {
        assert((seq![elf::section_at(s, start + from * size)] + rest->Ok_0)[i - from] == rest->Ok_0[i - from - 1]);
    }
}

/// All headers are there when the last of them is: an object that holds them is not refused.
pub proof fn lemma_accepted(s: Seq<u8>)
    requires
        s.len() >= 64,
        s[0] == 0x7f && s[1] == 'E' as u8 && s[2] == 'L' as u8 && s[3] == 'F' as u8 && s[4] == 2 && s[5] == 1,
        s[58] + 256 * s[59] >= 64,
        elf::le_u64(s, 40) + (s[60] + 256 * s[61]) * (s[58] + 256 * s[59]) <= s.len(),
        s.len() <= u64::MAX,
    ensures
        elf::sections_of(s) is Ok,
        s[60] + 256 * s[61] == 0 ==> elf::sections_of(s)->Ok_0.len() == 0,
{
    lemma_accepted_from(s, elf::le_u64(s, 40), elf::le_u16(s, 58), elf::le_u16(s, 60), 0);
}

proof fn lemma_accepted_from(s: Seq<u8>, start: u64, size: int, count: int, from: int)
    requires
        size >= 64,
        0 <= from <= count,
        start + count * size <= s.len() <= u64::MAX,
    ensures
        elf::sections_from(s, start, size, count, from) is Ok,
        count == from ==> elf::sections_from(s, start, size, count, from)->Ok_0.len() == 0,
    decreases count - from,
{
    if from < count {
        assert(from * size + size <= count * size) by (nonlinear_arith)
            requires
                from + 1 <= count,
                size >= 64,
        ;
        lemma_accepted_from(s, start, size, count, from + 1);
    }
}

/// A text of a section stands from where it is said to the next NUL. The first place holds none.
pub proof fn lemma_text(s: Seq<u8>, section: Section, offset: u32, end: int)
    requires
        offset > 0,
        section.offset + offset <= end < s.len(),
        forall|i: int| section.offset + offset <= i < end ==> s[i] != 0,
        s[end] == 0,
    ensures
        ({
            let text = s.subrange(section.offset + offset, end);
            &&& vstd::utf8::valid_utf8(text) ==> elf::string_in(s, section, offset) == Ok::<Option<Seq<char>>, ElfError>(
                Some(vstd::utf8::decode_utf8(text)),
            )
            &&& !vstd::utf8::valid_utf8(text) ==> elf::string_in(s, section, offset) == Ok::<
                Option<Seq<char>>,
                ElfError,
            >(None)
        }),
        elf::string_in(s, section, 0) == Ok::<Option<Seq<char>>, ElfError>(None),
{
    let start = section.offset + offset;
    let rest = s.skip(start);
    bytes::lemma_until_nul(rest, end - start);
    assert(rest.take(end - start) =~= s.subrange(start, end));
}

/// A relocation whose symbol is named as a helper turns the instruction that it is about into a call of it. One whose
/// symbol is named otherwise changes nothing.
///
/// A relocation says the place of its instruction in its first eight bytes and the number of its symbol in its last
/// four. A symbol says the place of its name in its first four.
pub proof fn lemma_relocation(s: Seq<u8>, relocations: Section, related: Related, i: int, end: int)
    requires
        i >= 0,
        ({
            let at = relocations.offset + i * relocations.entry_size;
            let symbol = related.symbols.offset + bytes::le_u32(s, at + 12) * related.symbols.entry_size;
            let name = related.strings.offset + bytes::le_u32(s, symbol);
            &&& 0 <= at && at + 16 <= s.len() <= u64::MAX
            &&& 0 <= symbol && symbol + 4 <= s.len()
            &&& bytes::le_u32(s, symbol) > 0
            &&& name <= end < s.len()
            &&& forall|j: int| name <= j < end ==> s[j] != 0
            &&& s[end] == 0
            &&& vstd::utf8::valid_utf8(s.subrange(name, end))
        }),
    ensures
        ({
            let at = relocations.offset + i * relocations.entry_size;
            let symbol = related.symbols.offset + bytes::le_u32(s, at + 12) * related.symbols.entry_size;
            let name = vstd::utf8::decode_utf8(s.subrange(related.strings.offset + bytes::le_u32(s, symbol), end));
            let instruction = related.target.offset + elf::le_u64(s, at);
            &&& elf::helper_of(name) is None ==> elf::relocation_patched(s, relocations, related, i) == Ok::<
                Seq<u8>,
                ElfError,
            >(s)
            &&& elf::helper_of(name) is Some && instruction <= u64::MAX ==> elf::relocation_patched(
                s,
                relocations,
                related,
                i,
            ) == elf::with_call(s, instruction, elf::helper_of(name)->0)
            &&& elf::helper_of(name) is Some && instruction > u64::MAX ==> elf::relocation_patched(
                s,
                relocations,
                related,
                i,
            ) == Err::<Seq<u8>, ElfError>(ElfError::InstructionOverflow)
        }),
{
    let at = relocations.offset + i * relocations.entry_size;
    lemma_wide(s, at + 8);
    let symbol = related.symbols.offset + bytes::le_u32(s, at + 12) * related.symbols.entry_size;
    lemma_text(s, related.strings, bytes::le_u32(s, symbol), end);
}

/// A relocation whose symbol has no name changes nothing.
pub proof fn lemma_unnamed(s: Seq<u8>, relocations: Section, related: Related, i: int)
    requires
        i >= 0,
        ({
            let at = relocations.offset + i * relocations.entry_size;
            let symbol = related.symbols.offset + bytes::le_u32(s, at + 12) * related.symbols.entry_size;
            &&& 0 <= at && at + 16 <= s.len() <= u64::MAX
            &&& 0 <= symbol && symbol + 4 <= s.len()
            &&& bytes::le_u32(s, symbol) == 0
        }),
    ensures
        elf::relocation_patched(s, relocations, related, i) == Ok::<Seq<u8>, ElfError>(s),
{
    let at = relocations.offset + i * relocations.entry_size;
    lemma_wide(s, at + 8);
}

/// Whether files come one from the other by the relocations of a section, each taken once and in order.
pub open spec fn relocated(files: Seq<Seq<u8>>, relocations: Section, related: Related) -> bool {
    forall|i: int|
        0 <= i < files.len() - 1 ==> elf::relocation_patched(#[trigger] files[i], relocations, related, i) == Ok::<
            Seq<u8>,
            ElfError,
        >(files[i + 1])
}

/// What relocations make of a file is what the last of them leaves: there are as many as entries fit into the section.
pub proof fn lemma_relocated(files: Seq<Seq<u8>>, relocations: Section, related: Related)
    requires
        relocations.entry_size > 0,
        files.len() == relocations.size / relocations.entry_size + 1,
        relocated(files, relocations, related),
    ensures
        elf::relocations_patched(files[0], relocations, related, 0) == Ok::<Seq<u8>, ElfError>(files.last()),
{
    assert(relocations.size / relocations.entry_size >= 0);
    lemma_relocated_from(files, relocations, related, 0);
}

proof fn lemma_relocated_from(files: Seq<Seq<u8>>, relocations: Section, related: Related, i: int)
    requires
        files.len() == relocations.size / relocations.entry_size + 1,
        relocated(files, relocations, related),
        0 <= i < files.len(),
    ensures
        elf::relocations_patched(files[i], relocations, related, i) == Ok::<Seq<u8>, ElfError>(files.last()),
    decreases files.len() - i,
{
    if i < files.len() - 1 {
        assert(elf::relocation_patched(files[i], relocations, related, i) == Ok::<Seq<u8>, ElfError>(files[i + 1]));
        lemma_relocated_from(files, relocations, related, i + 1);
    }
}

/// Only sections of relocations that are about a table of symbols are looked at. They are about the section and the
/// table that they name, and the table names its texts.
pub proof fn lemma_section(s: Seq<u8>, sections: Seq<Section>, section: Section)
    ensures
        section.kind != 9 ==> elf::section_patched(s, sections, section) == Ok::<Seq<u8>, ElfError>(s),
        section.kind == 9 && section.info >= sections.len() ==> elf::section_patched(s, sections, section) == Err::<
            Seq<u8>,
            ElfError,
        >(ElfError::MissingTarget),
        section.kind == 9 && section.info < sections.len() && section.link >= sections.len() ==> elf::section_patched(
            s,
            sections,
            section,
        ) == Err::<Seq<u8>, ElfError>(ElfError::MissingSymbols),
        section.kind == 9 && section.info < sections.len() && section.link < sections.len() ==> {
            let target = sections[section.info as int];
            let symbols = sections[section.link as int];
            let strings = sections[symbols.link as int];
            &&& symbols.kind != 2 ==> elf::section_patched(s, sections, section) == Ok::<Seq<u8>, ElfError>(s)
            &&& symbols.kind == 2 && symbols.link >= sections.len() ==> elf::section_patched(s, sections, section)
                == Err::<Seq<u8>, ElfError>(ElfError::MissingStrings)
            &&& symbols.kind == 2 && symbols.link < sections.len() && section.entry_size == 0 ==> elf::section_patched(
                s,
                sections,
                section,
            ) == Err::<Seq<u8>, ElfError>(ElfError::EmptyRelocations)
            &&& symbols.kind == 2 && symbols.link < sections.len() && section.entry_size > 0 ==> elf::section_patched(
                s,
                sections,
                section,
            ) == elf::relocations_patched(s, section, Related { target, symbols, strings }, 0)
        },
{
}

/// Whether files come one from the other by the sections of an object, each taken once and in order.
pub open spec fn gone_through(files: Seq<Seq<u8>>, sections: Seq<Section>) -> bool {
    &&& files.len() == sections.len() + 1
    &&& forall|i: int|
        0 <= i < sections.len() ==> elf::section_patched(#[trigger] files[i], sections, sections[i]) == Ok::<
            Seq<u8>,
            ElfError,
        >(files[i + 1])
}

/// What becomes of an object is what the last of its sections leaves. The sections are those of the object as it was.
pub proof fn lemma_gone_through(files: Seq<Seq<u8>>, sections: Seq<Section>)
    requires
        gone_through(files, sections),
        elf::sections_of(files[0]) == Ok::<Seq<Section>, ElfError>(sections),
    ensures
        elf::patched(files[0]) == Ok::<Seq<u8>, ElfError>(files.last()),
{
    lemma_gone_through_from(files, sections, 0);
}

proof fn lemma_gone_through_from(files: Seq<Seq<u8>>, sections: Seq<Section>, i: int)
    requires
        gone_through(files, sections),
        0 <= i < files.len(),
    ensures
        elf::patched_from(files[i], sections, i) == Ok::<Seq<u8>, ElfError>(files.last()),
    decreases files.len() - i,
{
    if i < sections.len() {
        assert(elf::section_patched(files[i], sections, sections[i]) == Ok::<Seq<u8>, ElfError>(files[i + 1]));
        lemma_gone_through_from(files, sections, i + 1);
    }
}

/// The object file of the probe is known by how its name begins and how it ends, whatever stands between.
pub proof fn lemma_object_name(middle: Seq<char>, other: Seq<char>)
    ensures
        elf::is_object_name("execsnoop_ebpf-"@ + middle + ".o"@),
        elf::is_object_name("execsnoop_ebpf-"@ + middle + ".O"@),
        other.len() < 15 || other.take(15) != "execsnoop_ebpf-"@ ==> !elf::is_object_name(other),
        other.len() < 2 || other[other.len() - 2] != '.' || (other.last() != 'o' && other.last() != 'O')
            ==> !elf::is_object_name(other),
{
    reveal_strlit("execsnoop_ebpf-");
    reveal_strlit(".o");
    reveal_strlit(".O");
    let start = "execsnoop_ebpf-"@;
    let small = start + middle + ".o"@;
    let large = start + middle + ".O"@;
    assert(small.subrange(0, 15) =~= start);
    assert(large.subrange(0, 15) =~= start);
    assert(small.subrange(small.len() - 2, small.len() as int) =~= ".o"@);
    assert(large.subrange(large.len() - 2, large.len() as int) =~= ".O"@);
    if elf::is_object_name(other) {
        assert(other.take(15) =~= other.subrange(0, 15));
        let end = other.subrange(other.len() - 2, other.len() as int);
        assert(end[0] == other[other.len() - 2]);
        assert(end[1] == other.last());
    }
}

} // verus!
