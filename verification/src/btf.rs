//! The layout of the kernel's tasks, out of its BTF type information.

use vstd::prelude::*;

use crate::bytes;
use crate::text;

verus! {

/// The kind of a type that is a structure.
pub const BTF_KIND_STRUCT: u32 = 4;

/// Why type information is of no use.
#[derive(Debug, Clone, Copy, PartialEq, Eq)]
pub enum BtfError {
    /// The header is cut off.
    ShortHeader,
    /// The bytes do not start as they should.
    UnsupportedMagic,
    /// The version is not known.
    UnsupportedVersion(u8),
    /// A part lies outside of the bytes.
    Invalid,
    /// A record is cut off.
    ShortRecord,
    /// A string has no end.
    UnterminatedString,
    /// A type is of an unknown kind.
    UnsupportedKind(u32),
    /// Tasks are not described.
    MissingTaskStruct,
    /// A member of a task is not a whole number of bytes.
    Bitfield(&'static str),
    /// A member of a task does not start at a byte.
    Unaligned(&'static str),
    /// A member of a task is not described.
    MissingMember(&'static str),
}

/// The offsets of the members of a task that are looked at.
#[derive(Clone, Copy, Debug, PartialEq, Eq, Structural)]
pub struct TaskStructOffsets {
    /// Offset of the parent.
    pub real_parent: u32,
    /// Offset of the process ID.
    pub tgid: u32,
}

/// The number at an offset, which may lie outside of the bytes.
pub open spec fn word_at(s: Seq<u8>, offset: int) -> Result<u32, BtfError> {
    if offset + 4 > usize::MAX {
        Err(BtfError::Invalid)
    } else if offset + 4 > s.len() {
        Err(BtfError::ShortRecord)
    } else {
        Ok(bytes::le_u32(s, offset))
    }
}

/// The part of bytes from an offset of a length, after the header. It may lie outside of the bytes.
pub open spec fn section(s: Seq<u8>, header: u32, offset: u32, len: u32) -> Option<Seq<u8>> {
    if header + offset + len > s.len() {
        None
    } else {
        Some(s.subrange(header + offset, header + offset + len))
    }
}

/// The types and the strings in type information.
pub open spec fn sections(s: Seq<u8>) -> Result<(Seq<u8>, Seq<u8>), BtfError> {
    if s.len() < 24 {
        Err(BtfError::ShortHeader)
    } else if s[0] + 256 * s[1] != 0xeb9f {
        Err(BtfError::UnsupportedMagic)
    } else if s[2] != 1 {
        Err(BtfError::UnsupportedVersion(s[2]))
    } else {
        let header = bytes::le_u32(s, 4);
        let types = section(s, header, bytes::le_u32(s, 8), bytes::le_u32(s, 12));
        let strings = section(s, header, bytes::le_u32(s, 16), bytes::le_u32(s, 20));
        match (types, strings) {
            (Some(types), Some(strings)) => Ok((types, strings)),
            _ => Err(BtfError::Invalid),
        }
    }
}

/// The string at an offset. There is none at the first one, nor where the bytes are not UTF-8.
pub open spec fn string_at(strings: Seq<u8>, offset: u32) -> Result<Option<Seq<char>>, BtfError> {
    if offset == 0 {
        Ok(None)
    } else if offset > strings.len() {
        Err(BtfError::Invalid)
    } else {
        let rest = strings.skip(offset as int);
        let end = bytes::until_nul(rest);
        if end == rest.len() {
            Err(BtfError::UnterminatedString)
        } else if vstd::utf8::valid_utf8(rest.take(end)) {
            Ok(Some(vstd::utf8::decode_utf8(rest.take(end))))
        } else {
            Ok(None)
        }
    }
}

/// The kind of a type.
pub open spec fn kind_of(info: u32) -> u32 {
    info / 0x100_0000 % 32
}

/// Whether the offsets of members hold sizes of bit fields.
pub open spec fn has_kind_flag(info: u32) -> bool {
    info >= 0x8000_0000
}

/// The number of things that a type is made of.
pub open spec fn count_of(info: u32) -> u32 {
    info % 0x1_0000
}

/// The length of the record of a type.
pub open spec fn record_len(kind: u32, count: int) -> Result<int, BtfError> {
    if kind == 0 || kind == 2 || 7 <= kind <= 12 || kind == 16 || kind == 18 {
        Ok(12)
    } else if kind == 1 || kind == 14 || kind == 17 {
        Ok(16)
    } else if kind == 3 {
        Ok(24)
    } else if kind == 4 || kind == 5 || kind == 15 || kind == 19 {
        Ok(12 + 12 * count)
    } else if kind == 6 || kind == 13 {
        Ok(12 + 8 * count)
    } else {
        Err(BtfError::UnsupportedKind(kind))
    }
}

/// What is known of a structure: whether offsets hold sizes of bit fields, the members and the size.
pub ghost struct StructView {
    pub kind_flag: bool,
    pub members: Seq<u8>,
    pub size: u32,
}

/// The first structure of a name among the types from an offset on.
pub open spec fn struct_from(types: Seq<u8>, strings: Seq<u8>, name: Seq<char>, offset: int) -> Result<
    Option<StructView>,
    BtfError,
>
    decreases
        (if offset < types.len() {
            types.len() - offset
        } else {
            0
        }),
{
    if offset >= types.len() {
        Ok(None)
    } else {
        match (word_at(types, offset), word_at(types, offset + 4), word_at(types, offset + 8)) {
            (Ok(name_offset), Ok(info), Ok(size)) => {
                let kind = kind_of(info);
                let count = count_of(info) as int;
                let named: Result<Option<Seq<char>>, BtfError> = if kind == BTF_KIND_STRUCT {
                    string_at(strings, name_offset)
                } else {
                    Ok(None)
                };
                match named {
                    Err(error) => Err(error),
                    Ok(found) => if found == Some(name) {
                        if offset + 12 + 12 * count > types.len() {
                            Err(BtfError::Invalid)
                        } else {
                            Ok(
                                Some(
                                    StructView {
                                        kind_flag: has_kind_flag(info),
                                        members: types.subrange(offset + 12, offset + 12 + 12 * count),
                                        size,
                                    },
                                ),
                            )
                        }
                    } else {
                        match record_len(kind, count) {
                            Err(error) => Err(error),
                            Ok(len) => if offset + len > usize::MAX {
                                Err(BtfError::Invalid)
                            } else {
                                struct_from(types, strings, name, offset + len)
                            },
                        }
                    },
                }
            },
            (Err(error), _, _) => Err(error),
            (_, Err(error), _) => Err(error),
            (_, _, Err(error)) => Err(error),
        }
    }
}

/// The byte offset that the number in a member stands for.
pub open spec fn byte_offset(kind_flag: bool, bit_offset: u32, name: &'static str) -> Result<u32, BtfError> {
    if kind_flag && bit_offset >= 0x100_0000 {
        Err(BtfError::Bitfield(name))
    } else if bit_offset % 8 != 0 {
        Err(BtfError::Unaligned(name))
    } else {
        Ok(bit_offset / 8)
    }
}

/// The byte offset of a member of a structure, looked for from the given member on.
pub open spec fn member_from(found: StructView, strings: Seq<u8>, name: &'static str, i: int) -> Result<u32, BtfError>
    decreases found.members.len() - 12 * i,
{
    if 12 * i + 12 > found.members.len() {
        Err(BtfError::MissingMember(name))
    } else {
        match string_at(strings, bytes::le_u32(found.members, 12 * i)) {
            Err(error) => Err(error),
            Ok(field) => if field == Some(name@) {
                byte_offset(found.kind_flag, bytes::le_u32(found.members, 12 * i + 8), name)
            } else {
                member_from(found, strings, name, i + 1)
            },
        }
    }
}

/// The offsets of the members of a task in type information.
pub open spec fn task_offsets(s: Seq<u8>) -> Result<TaskStructOffsets, BtfError> {
    match sections(s) {
        Err(error) => Err(error),
        Ok((types, strings)) => match struct_from(types, strings, "task_struct"@, 0) {
            Err(error) => Err(error),
            Ok(None) => Err(BtfError::MissingTaskStruct),
            Ok(Some(task)) => match (
                member_from(task, strings, "real_parent", 0),
                member_from(task, strings, "tgid", 0),
            ) {
                (Err(error), _) => Err(error),
                (_, Err(error)) => Err(error),
                (Ok(real_parent), Ok(tgid)) => Ok(TaskStructOffsets { real_parent, tgid }),
            },
        },
    }
}

/// Reads the number at an offset.
pub fn read_u32(bytes: &[u8], offset: usize) -> (r: Result<u32, BtfError>)
    ensures
        r == word_at(bytes@, offset as int),
{
    if offset > usize::MAX - 4 {
        return Err(BtfError::Invalid);
    }
    if offset + 4 > bytes.len() {
        return Err(BtfError::ShortRecord);
    }
    Ok(bytes::read_le_u32(bytes, offset))
}

/// Reads the number at an offset and moves the offset past it.
pub fn read_u32_at(bytes: &[u8], offset: &mut usize) -> (r: Result<u32, BtfError>)
    ensures
        r == word_at(bytes@, *old(offset) as int),
        r is Ok ==> *final(offset) == *old(offset) + 4,
        r is Err ==> *final(offset) == *old(offset),
{
    let value: u32 = match read_u32(bytes, *offset) {
        Ok(value) => value,
        Err(error) => return Err(error),
    };
    *offset = *offset + 4;
    Ok(value)
}

/// The length of the record of a type.
pub fn type_record_len(kind: u32, vlen: usize) -> (r: Result<usize, BtfError>)
    ensures
        match record_len(kind, vlen as int) {
            Ok(len) => r == (if len > usize::MAX {
                Err::<usize, BtfError>(BtfError::Invalid)
            } else {
                Ok(len as usize)
            }),
            Err(error) => r == Err::<usize, BtfError>(error),
        },
{
    let size: usize = match kind {
        0 | 2 | 7..=12 | 16 | 18 => return Ok(12),
        1 | 14 | 17 => return Ok(16),
        3 => return Ok(24),
        4 | 5 | 15 | 19 => 12,
        6 | 13 => 8,
        unknown => return Err(BtfError::UnsupportedKind(unknown)),
    };
    let extra: usize = match vlen.checked_mul(size) {
        Some(extra) => extra,
        None => return Err(BtfError::Invalid),
    };
    match extra.checked_add(12) {
        Some(len) => Ok(len),
        None => Err(BtfError::Invalid),
    }
}

/// Type information.
pub struct Btf<'a> {
    /// The records of the types.
    pub types: &'a [u8],
    /// The names of types and members, with a zero byte behind each.
    pub strings: &'a [u8],
}

impl<'a> Btf<'a> {
    /// Finds the types and the strings.
    pub fn parse(bytes: &'a [u8]) -> (r: Result<Self, BtfError>)
        ensures
            match sections(bytes@) {
                Ok((types, strings)) => r matches Ok(btf) && btf.types@ == types && btf.strings@ == strings,
                Err(error) => r matches Err(found) && found == error,
            },
    {
        if bytes.len() < 24 {
            return Err(BtfError::ShortHeader);
        }
        let magic: u32 = bytes[0] as u32 + 256 * (bytes[1] as u32);
        if magic != 0xeb9f {
            return Err(BtfError::UnsupportedMagic);
        }
        let version: u8 = bytes[2];
        if version != 1 {
            return Err(BtfError::UnsupportedVersion(version));
        }
        let header_len: u32 = bytes::read_le_u32(bytes, 4);
        let types = subsection(bytes, header_len, bytes::read_le_u32(bytes, 8), bytes::read_le_u32(bytes, 12));
        let strings = subsection(bytes, header_len, bytes::read_le_u32(bytes, 16), bytes::read_le_u32(bytes, 20));
        match (types, strings) {
            (Some(types), Some(strings)) => Ok(Btf { types, strings }),
            _ => Err(BtfError::Invalid),
        }
    }

    /// Finds the first structure of a name.
    pub fn find_struct<'btf>(&'btf self, name: &str) -> (r: Result<Option<BtfStruct<'btf, 'a>>, BtfError>)
        ensures
            match struct_from(self.types@, self.strings@, name@, 0) {
                Ok(Some(found)) => r matches Ok(Some(task)) && task@ == found && task.btf == self,
                Ok(None) => r matches Ok(None),
                Err(error) => r matches Err(found) && found == error,
            },
    {
        let mut offset: usize = 0;
        while offset < self.types.len()
            invariant
                struct_from(self.types@, self.strings@, name@, 0) == struct_from(
                    self.types@,
                    self.strings@,
                    name@,
                    offset as int,
                ),
            decreases
                (if offset < self.types@.len() {
                    self.types@.len() - offset
                } else {
                    0
                }),
        {
            let type_start: usize = offset;
            let name_offset: u32 = match read_u32_at(self.types, &mut offset) {
                Ok(value) => value,
                Err(error) => return Err(error),
            };
            let info: u32 = match read_u32_at(self.types, &mut offset) {
                Ok(value) => value,
                Err(error) => return Err(error),
            };
            let size: u32 = match read_u32_at(self.types, &mut offset) {
                Ok(value) => value,
                Err(error) => return Err(error),
            };
            let kind: u32 = (info >> 24) & 0x1f;
            let kind_flag: bool = info >> 31 != 0;
            let vlen: usize = (info & 0xffff) as usize;
            proof {
                assert((info >> 24) & 0x1f == info / 0x100_0000 % 32) by (bit_vector);
                assert((info >> 31 != 0) == (info >= 0x8000_0000)) by (bit_vector);
                assert(info & 0xffff == info % 0x1_0000) by (bit_vector);
            }
            if kind == BTF_KIND_STRUCT {
                let found: bool = match self.string(name_offset) {
                    Ok(Some(found)) => text::same(found, name),
                    Ok(None) => false,
                    Err(error) => return Err(error),
                };
                if found {
                    let left: usize = self.types.len() - offset;
                    if vlen > left / 12 {
                        return Err(BtfError::Invalid);
                    }
                    let members: &[u8] = vstd::slice::slice_subrange(self.types, offset, offset + vlen * 12);
                    return Ok(Some(BtfStruct { btf: self, kind_flag, members, size }));
                }
            }
            let len: usize = match type_record_len(kind, vlen) {
                Ok(len) => len,
                Err(error) => return Err(error),
            };
            offset = match type_start.checked_add(len) {
                Some(offset) => offset,
                None => return Err(BtfError::Invalid),
            };
        }
        Ok(None)
    }

    /// The string at an offset.
    pub fn string(&self, offset: u32) -> (r: Result<Option<&'a str>, BtfError>)
        ensures
            match string_at(self.strings@, offset) {
                Ok(Some(text)) => r matches Ok(Some(found)) && found@ == text,
                Ok(None) => r matches Ok(None),
                Err(error) => r matches Err(found) && found == error,
            },
    {
        if offset == 0 {
            return Ok(None);
        }
        let offset: usize = offset as usize;
        if offset > self.strings.len() {
            return Err(BtfError::Invalid);
        }
        let rest: &'a [u8] = vstd::slice::slice_subrange(self.strings, offset, self.strings.len());
        let end: usize = bytes::nul_or_len(rest);
        proof {
            assert(rest@ =~= self.strings@.skip(offset as int));
        }
        if end == rest.len() {
            return Err(BtfError::UnterminatedString);
        }
        let name: &'a [u8] = vstd::slice::slice_subrange(rest, 0, end);
        proof {
            assert(name@ =~= rest@.take(end as int));
        }
        Ok(text::from_utf8(name))
    }
}

/// The part of bytes from an offset of a length, after the header.
fn subsection(bytes: &[u8], header: u32, offset: u32, len: u32) -> (r: Option<&[u8]>)
    ensures
        match r {
            Some(part) => section(bytes@, header, offset, len) == Some(part@),
            None => section(bytes@, header, offset, len) is None,
        },
{
    let start: u64 = header as u64 + offset as u64;
    let end: u64 = start + len as u64;
    if end > bytes.len() as u64 {
        return None;
    }
    Some(vstd::slice::slice_subrange(bytes, start as usize, end as usize))
}

/// A structure.
pub struct BtfStruct<'btf, 'data> {
    /// The type information that it is part of.
    pub btf: &'btf Btf<'data>,
    /// Whether the offsets of members hold sizes of bit fields.
    pub kind_flag: bool,
    /// The records of the members.
    pub members: &'btf [u8],
    /// Its size.
    pub size: u32,
}

impl<'btf, 'data> View for BtfStruct<'btf, 'data> {
    type V = StructView;

    open spec fn view(&self) -> StructView {
        StructView { kind_flag: self.kind_flag, members: self.members@, size: self.size }
    }
}

impl<'btf, 'data> BtfStruct<'btf, 'data> {
    /// The byte offset of a member.
    pub fn member_offset(&self, name: &'static str) -> (r: Result<u32, BtfError>)
        ensures
            r == member_from(self@, self.btf.strings@, name, 0),
    {
        let mut at: usize = 0;
        let ghost mut i: int = 0;
        while self.members.len() - at >= 12
            invariant
                at == 12 * i,
                0 <= i,
                at <= self.members@.len(),
                member_from(self@, self.btf.strings@, name, 0) == member_from(self@, self.btf.strings@, name, i),
            decreases self.members@.len() - at,
        {
            let name_offset: u32 = bytes::read_le_u32(self.members, at);
            let bit_offset: u32 = bytes::read_le_u32(self.members, at + 8);
            let found: bool = match self.btf.string(name_offset) {
                Ok(Some(found)) => text::same(found, name),
                Ok(None) => false,
                Err(error) => return Err(error),
            };
            if found {
                proof {
                    assert((bit_offset >> 24 != 0) == (bit_offset >= 0x100_0000)) by (bit_vector);
                    assert(bit_offset < 0x100_0000 ==> bit_offset & 0x00ff_ffff == bit_offset) by (bit_vector);
                }
                let bitfield_size: u32 = if self.kind_flag {
                    bit_offset >> 24
                } else {
                    0
                };
                if bitfield_size != 0 {
                    return Err(BtfError::Bitfield(name));
                }
                let bit_offset: u32 = if self.kind_flag {
                    bit_offset & 0x00ff_ffff
                } else {
                    bit_offset
                };
                if bit_offset % 8 != 0 {
                    return Err(BtfError::Unaligned(name));
                }
                return Ok(bit_offset / 8);
            }
            at += 12;
            proof {
                i = i + 1;
            }
        }
        Err(BtfError::MissingMember(name))
    }
}

impl TaskStructOffsets {
    /// Finds the members of a task in type information.
    pub fn parse(btf: &[u8]) -> (r: Result<Self, BtfError>)
        ensures
            r == task_offsets(btf@),
    {
        let parsed: Btf<'_> = match Btf::parse(btf) {
            Ok(parsed) => parsed,
            Err(error) => return Err(error),
        };
        let task: BtfStruct<'_, '_> = match parsed.find_struct("task_struct") {
            Ok(Some(task)) => task,
            Ok(None) => return Err(BtfError::MissingTaskStruct),
            Err(error) => return Err(error),
        };
        let real_parent: u32 = match task.member_offset("real_parent") {
            Ok(offset) => offset,
            Err(error) => return Err(error),
        };
        let tgid: u32 = match task.member_offset("tgid") {
            Ok(offset) => offset,
            Err(error) => return Err(error),
        };
        Ok(TaskStructOffsets { real_parent, tgid })
    }
}

} // verus!
