//! Where the kernel's type information says the parent and the process ID of a task stand.

use vstd::prelude::*;

use crate::btf;
use crate::btf::{BtfError, StructView, TaskStructOffsets};
use crate::bytes;

verus! {

/// How many bytes of a record stand behind the three words that every record begins with: one word for an integer, a
/// variable and a tag of a declaration, three for an array, three for each member of a structure, of a union and of a
/// section and for each value of an enumeration of 64 bits, and two for each parameter and each value of another
/// enumeration. Nothing for other kinds. Kinds from 20 on are not known.
pub open spec fn tail_len(kind: u32, count: int) -> int {
    match kind {
        1 => 4,
        3 => 12,
        4 => 12 * count,
        5 => 12 * count,
        6 => 8 * count,
        13 => 8 * count,
        14 => 4,
        15 => 12 * count,
        17 => 4,
        19 => 12 * count,
        _ => 0,
    }
}

/// The length of a record of each kind.
pub proof fn lemma_record_len(kind: u32, count: int)
    ensures
        kind < 20 ==> btf::record_len(kind, count) == Ok::<int, BtfError>(12 + tail_len(kind, count)),
        kind >= 20 ==> btf::record_len(kind, count) == Err::<int, BtfError>(BtfError::UnsupportedKind(kind)),
        btf::record_len(btf::BTF_KIND_STRUCT, count) == btf::record_len(5, count),
{
}

/// The kind of a record, the number of its members and whether these are marked stand in one word.
pub proof fn lemma_info(kind: u32, count: u32, marked: bool, info: u32)
    requires
        kind < 32,
        count < 0x1_0000,
    ensures
        ({
            let word = (count + 0x100_0000 * kind + (if marked {
                0x8000_0000int
            } else {
                0
            })) as u32;
            &&& btf::kind_of(word) == kind
            &&& btf::count_of(word) == count
            &&& btf::has_kind_flag(word) == marked
        }),
        btf::count_of(info) == info & 0xffff,
        btf::kind_of(info) == (info >> 24) & 0x1f,
        btf::has_kind_flag(info) <==> info >> 31 == 1,
{
    assert(info % 0x1_0000 == info & 0xffff) by (bit_vector);
    assert(info / 0x100_0000 % 32 == (info >> 24) & 0x1f) by (bit_vector);
    assert(info >= 0x8000_0000 <==> info >> 31 == 1) by (bit_vector);
}

/// Whether bytes are one record: three words, and what follows them by their kind.
pub open spec fn is_record(s: Seq<u8>) -> bool {
    &&& s.len() >= 12
    &&& btf::kind_of(bytes::le_u32(s, 4)) < 20
    &&& s.len() == 12 + tail_len(btf::kind_of(bytes::le_u32(s, 4)), btf::count_of(bytes::le_u32(s, 4)) as int)
}

/// Whether a record is not that of a structure of a name.
pub open spec fn is_other(s: Seq<u8>, strings: Seq<u8>, name: Seq<char>) -> bool {
    btf::kind_of(bytes::le_u32(s, 4)) == 4 ==> (btf::string_at(strings, bytes::le_u32(s, 0)) is Ok
        && btf::string_at(strings, bytes::le_u32(s, 0))->Ok_0 != Some(name))
}

proof fn lemma_word_shifted(first: Seq<u8>, rest: Seq<u8>, offset: int)
    requires
        0 <= offset,
        first.len() + rest.len() + 4 <= usize::MAX,
        offset <= rest.len(),
    ensures
        btf::word_at(first + rest, first.len() + offset) == btf::word_at(rest, offset),
{
    let all = first + rest;
    if offset + 4 <= rest.len() {
        assert(all[first.len() + offset] == rest[offset]);
        assert(all[first.len() + offset + 1] == rest[offset + 1]);
        assert(all[first.len() + offset + 2] == rest[offset + 2]);
        assert(all[first.len() + offset + 3] == rest[offset + 3]);
    }
}

/// Looking for a structure from a place on does not depend on what stands before.
proof fn lemma_shifted(first: Seq<u8>, rest: Seq<u8>, strings: Seq<u8>, name: Seq<char>, offset: int)
    requires
        0 <= offset,
        first.len() + rest.len() + 0x10_0000 <= usize::MAX,
    ensures
        btf::struct_from(first + rest, strings, name, first.len() + offset) == btf::struct_from(
            rest,
            strings,
            name,
            offset,
        ),
    decreases
        (if offset < rest.len() {
            rest.len() - offset
        } else {
            0
        }),
{
    let all = first + rest;
    let from = first.len() + offset;
    if offset < rest.len() {
        lemma_word_shifted(first, rest, offset);
        if offset + 4 <= rest.len() {
            lemma_word_shifted(first, rest, offset + 4);
        }
        if offset + 8 <= rest.len() {
            lemma_word_shifted(first, rest, offset + 8);
        }
        if offset + 12 <= rest.len() {
            let info = bytes::le_u32(rest, offset + 4);
            let kind = btf::kind_of(info);
            let count = btf::count_of(info) as int;
            if offset + 12 + 12 * count <= rest.len() {
                assert(all.subrange(from + 12, from + 12 + 12 * count) =~= rest.subrange(
                    offset + 12,
                    offset + 12 + 12 * count,
                ));
            }
            if let Ok(len) = btf::record_len(kind, count) {
                assert(12 <= len <= 12 + 12 * 0x1_0000);
                assert(from + len == first.len() + (offset + len));
                lemma_shifted(first, rest, strings, name, offset + len);
            }
        }
    }
}

/// A record that is not that of the structure changes nothing where it is put before others.
pub proof fn lemma_record_before(first: Seq<u8>, rest: Seq<u8>, strings: Seq<u8>, name: Seq<char>)
    requires
        is_record(first),
        is_other(first, strings, name),
        first.len() + rest.len() + 0x10_0000 <= usize::MAX,
    ensures
        btf::struct_from(first + rest, strings, name, 0) == btf::struct_from(rest, strings, name, 0),
{
    let all = first + rest;
    assert forall|i: int| 0 <= i < first.len() implies all[i] == first[i] by {}
    let info = bytes::le_u32(first, 4);
    assert(bytes::le_u32(all, 0) == bytes::le_u32(first, 0));
    assert(bytes::le_u32(all, 4) == info);
    assert(bytes::le_u32(all, 8) == bytes::le_u32(first, 8));
    lemma_record_len(btf::kind_of(info), btf::count_of(info) as int);
    lemma_shifted(first, rest, strings, name, 0);
}

/// Records one behind the other.
pub open spec fn joined(records: Seq<Seq<u8>>) -> Seq<u8>
    decreases records.len(),
{
    if records.len() == 0 {
        Seq::empty()
    } else {
        records[0] + joined(records.skip(1))
    }
}

/// However many records of whatever kinds stand before that of a structure, the structure is found as if it stood
/// first.
pub proof fn lemma_records_before(records: Seq<Seq<u8>>, rest: Seq<u8>, strings: Seq<u8>, name: Seq<char>)
    requires
        forall|i: int| 0 <= i < records.len() ==> is_record(#[trigger] records[i]) && is_other(records[i], strings, name),
        joined(records).len() + rest.len() + 0x10_0000 <= usize::MAX,
    ensures
        btf::struct_from(joined(records) + rest, strings, name, 0) == btf::struct_from(rest, strings, name, 0),
    decreases records.len(),
{
    if records.len() == 0 {
        assert(joined(records) + rest =~= rest);
    } else {
        let others = records.skip(1);
        assert forall|i: int| 0 <= i < others.len() implies is_record(#[trigger] others[i]) && is_other(
            others[i],
            strings,
            name,
        ) by {
            assert(others[i] == records[i + 1]);
        }
        lemma_records_before(others, rest, strings, name);
        assert(is_record(records[0]));
        lemma_record_before(records[0], joined(others) + rest, strings, name);
        assert(joined(records) + rest =~= records[0] + (joined(others) + rest));
    }
}

/// A structure that stands first under its name is found, with its members, whatever follows.
pub proof fn lemma_struct_first(record: Seq<u8>, rest: Seq<u8>, strings: Seq<u8>, name: Seq<char>)
    requires
        is_record(record),
        btf::kind_of(bytes::le_u32(record, 4)) == 4,
        btf::string_at(strings, bytes::le_u32(record, 0)) == Ok::<Option<Seq<char>>, BtfError>(Some(name)),
        record.len() + rest.len() + 0x10_0000 <= usize::MAX,
    ensures
        btf::struct_from(record + rest, strings, name, 0) == Ok::<Option<StructView>, BtfError>(
            Some(
                StructView {
                    kind_flag: btf::has_kind_flag(bytes::le_u32(record, 4)),
                    members: record.skip(12),
                    size: bytes::le_u32(record, 8),
                },
            ),
        ),
{
    let all = record + rest;
    assert forall|i: int| 0 <= i < record.len() implies all[i] == record[i] by {}
    assert(bytes::le_u32(all, 0) == bytes::le_u32(record, 0));
    assert(bytes::le_u32(all, 4) == bytes::le_u32(record, 4));
    assert(bytes::le_u32(all, 8) == bytes::le_u32(record, 8));
    assert(all.subrange(12, record.len() as int) =~= record.skip(12));
}

/// A structure that is nowhere under its name is not found.
pub proof fn lemma_no_struct(records: Seq<Seq<u8>>, strings: Seq<u8>, name: Seq<char>)
    requires
        forall|i: int| 0 <= i < records.len() ==> is_record(#[trigger] records[i]) && is_other(records[i], strings, name),
        joined(records).len() + 0x10_0000 <= usize::MAX,
    ensures
        btf::struct_from(joined(records), strings, name, 0) == Ok::<Option<StructView>, BtfError>(None),
{
    lemma_records_before(records, Seq::empty(), strings, name);
    assert(joined(records) + Seq::<u8>::empty() =~= joined(records));
}

/// The name at a place is what stands there up to the next NUL. The empty place has no name.
pub proof fn lemma_string(before: Seq<u8>, text: Seq<u8>, after: Seq<u8>, offset: u32)
    requires
        offset == before.len(),
        forall|i: int| 0 <= i < text.len() ==> #[trigger] text[i] != 0,
        vstd::utf8::valid_utf8(text),
    ensures
        offset > 0 ==> btf::string_at(before + text + seq![0u8] + after, offset) == Ok::<Option<Seq<char>>, BtfError>(
            Some(vstd::utf8::decode_utf8(text)),
        ),
        offset > 0 ==> btf::string_at(before + text, offset) == Err::<Option<Seq<char>>, BtfError>(
            BtfError::UnterminatedString,
        ),
        btf::string_at(before, 0) == Ok::<Option<Seq<char>>, BtfError>(None),
{
    let all = before + text + seq![0u8] + after;
    let rest = all.skip(offset as int);
    assert(rest =~= text + seq![0u8] + after);
    bytes::lemma_until_nul(rest, text.len() as int);
    assert(rest.take(text.len() as int) =~= text);
    let open = (before + text).skip(offset as int);
    assert(open =~= text);
    bytes::lemma_until_nul(text, text.len() as int);
}

/// The offset of a member is that of the first member of its name, in bytes. It is an error if the member is not one of
/// whole bytes.
pub proof fn lemma_member(found: StructView, strings: Seq<u8>, name: &'static str, from: int, i: int)
    requires
        0 <= from <= i,
        12 * i + 12 <= found.members.len(),
        btf::string_at(strings, bytes::le_u32(found.members, 12 * i)) == Ok::<Option<Seq<char>>, BtfError>(Some(name@)),
        forall|j: int|
            from <= j < i ==> btf::string_at(strings, #[trigger] bytes::le_u32(found.members, 12 * j)) is Ok
                && btf::string_at(strings, bytes::le_u32(found.members, 12 * j))->Ok_0 != Some(name@),
    ensures
        ({
            let bits = bytes::le_u32(found.members, 12 * i + 8);
            let offset = btf::member_from(found, strings, name, from);
            &&& found.kind_flag && bits >= 0x100_0000 ==> offset == Err::<u32, BtfError>(BtfError::Bitfield(name))
            &&& !(found.kind_flag && bits >= 0x100_0000) && bits % 8 != 0 ==> offset == Err::<u32, BtfError>(
                BtfError::Unaligned(name),
            )
            &&& !(found.kind_flag && bits >= 0x100_0000) && bits % 8 == 0 ==> offset is Ok && 8 * offset->Ok_0 == bits
        }),
    decreases i - from,
{
    if from < i {
        assert(12 * from + 12 <= found.members.len());
        assert(btf::string_at(strings, bytes::le_u32(found.members, 12 * from)) is Ok);
        lemma_member(found, strings, name, from + 1, i);
    }
}

/// A member that is nowhere under its name is missing.
pub proof fn lemma_no_member(found: StructView, strings: Seq<u8>, name: &'static str, from: int)
    requires
        0 <= from,
        forall|j: int|
            from <= j && 12 * j + 12 <= found.members.len() ==> btf::string_at(
                strings,
                #[trigger] bytes::le_u32(found.members, 12 * j),
            ) is Ok && btf::string_at(strings, bytes::le_u32(found.members, 12 * j))->Ok_0 != Some(name@),
    ensures
        btf::member_from(found, strings, name, from) == Err::<u32, BtfError>(BtfError::MissingMember(name)),
    decreases found.members.len() - 12 * from,
{
    if 12 * from + 12 <= found.members.len() {
        assert(btf::string_at(strings, bytes::le_u32(found.members, 12 * from)) is Ok);
        lemma_no_member(found, strings, name, from + 1);
    }
}

/// Where the records and the names stand: behind the header, as far from its end and as long as it says. What is too
/// short, of another byte order or version, or says more than there is, is refused.
pub proof fn lemma_sections(s: Seq<u8>)
    ensures
        s.len() < 24 ==> btf::sections(s) == Err::<(Seq<u8>, Seq<u8>), BtfError>(BtfError::ShortHeader),
        s.len() >= 24 && !(s[0] == 0x9f && s[1] == 0xeb) ==> btf::sections(s) == Err::<(Seq<u8>, Seq<u8>), BtfError>(
            BtfError::UnsupportedMagic,
        ),
        s.len() >= 24 && s[0] == 0x9f && s[1] == 0xeb && s[2] != 1 ==> btf::sections(s) == Err::<
            (Seq<u8>, Seq<u8>),
            BtfError,
        >(BtfError::UnsupportedVersion(s[2])),
        s.len() >= 24 && s[0] == 0x9f && s[1] == 0xeb && s[2] == 1 ==> {
            let header = bytes::le_u32(s, 4);
            let types = header + bytes::le_u32(s, 8);
            let types_end = types + bytes::le_u32(s, 12);
            let strings = header + bytes::le_u32(s, 16);
            let strings_end = strings + bytes::le_u32(s, 20);
            &&& types_end <= s.len() && strings_end <= s.len() ==> btf::sections(s) == Ok::<
                (Seq<u8>, Seq<u8>),
                BtfError,
            >((s.subrange(types, types_end), s.subrange(strings, strings_end)))
            &&& types_end > s.len() || strings_end > s.len() ==> btf::sections(s) == Err::<
                (Seq<u8>, Seq<u8>),
                BtfError,
            >(BtfError::Invalid)
        },
{
}

/// The offsets of the parent and of the process ID of a task are those of the first members of these names in the
/// structure of tasks, whatever records stand before it and behind it.
pub proof fn lemma_task_offsets(
    s: Seq<u8>,
    records: Seq<Seq<u8>>,
    task: Seq<u8>,
    rest: Seq<u8>,
    strings: Seq<u8>,
    parent: int,
    tgid: int,
)
    requires
        btf::sections(s) == Ok::<(Seq<u8>, Seq<u8>), BtfError>((joined(records) + (task + rest), strings)),
        forall|i: int|
            0 <= i < records.len() ==> is_record(#[trigger] records[i]) && is_other(
                records[i],
                strings,
                "task_struct"@,
            ),
        is_record(task),
        btf::kind_of(bytes::le_u32(task, 4)) == 4,
        !btf::has_kind_flag(bytes::le_u32(task, 4)),
        btf::string_at(strings, bytes::le_u32(task, 0)) == Ok::<Option<Seq<char>>, BtfError>(Some("task_struct"@)),
        joined(records).len() + task.len() + rest.len() + 0x10_0000 <= usize::MAX,
        is_first_member(task.skip(12), strings, "real_parent"@, parent),
        is_first_member(task.skip(12), strings, "tgid"@, tgid),
        bytes::le_u32(task.skip(12), 12 * parent + 8) % 8 == 0,
        bytes::le_u32(task.skip(12), 12 * tgid + 8) % 8 == 0,
    ensures
        btf::task_offsets(s) == Ok::<TaskStructOffsets, BtfError>(
            TaskStructOffsets {
                real_parent: bytes::le_u32(task.skip(12), 12 * parent + 8) / 8,
                tgid: bytes::le_u32(task.skip(12), 12 * tgid + 8) / 8,
            },
        ),
{
    lemma_records_before(records, task + rest, strings, "task_struct"@);
    lemma_struct_first(task, rest, strings, "task_struct"@);
    let found = StructView {
        kind_flag: btf::has_kind_flag(bytes::le_u32(task, 4)),
        members: task.skip(12),
        size: bytes::le_u32(task, 8),
    };
    lemma_member(found, strings, "real_parent", 0, parent);
    lemma_member(found, strings, "tgid", 0, tgid);
}

/// Whether a member is the first of its name among members whose names can be read.
pub open spec fn is_first_member(members: Seq<u8>, strings: Seq<u8>, name: Seq<char>, i: int) -> bool {
    &&& 0 <= i
    &&& 12 * i + 12 <= members.len()
    &&& btf::string_at(strings, bytes::le_u32(members, 12 * i)) == Ok::<Option<Seq<char>>, BtfError>(Some(name))
    &&& forall|j: int|
        0 <= j < i ==> btf::string_at(strings, #[trigger] bytes::le_u32(members, 12 * j)) is Ok && btf::string_at(
            strings,
            bytes::le_u32(members, 12 * j),
        )->Ok_0 != Some(name)
}

} // verus!
