//! Where the kernel puts the fields of the tracepoint of successful execs.

use vstd::prelude::*;

use crate::btf::TaskStructOffsets;
use crate::number;
use crate::text;

verus! {

/// Why the description of the tracepoint is of no use.
#[derive(Debug)]
pub enum FormatError {
    /// There is no such field.
    MissingField {
        /// Name of the field.
        name: &'static str,
    },
    /// The offset of the field is not a number.
    InvalidOffset {
        /// Name of the field.
        name: &'static str,
        /// What stands for the offset.
        offset: String,
    },
}

/// Whether a line, without white space around it, describes a field.
pub open spec fn describes(line: Seq<char>, name: Seq<char>) -> bool {
    &&& "field:"@.is_prefix_of(line)
    &&& text::occurs(line, " "@ + name + ";"@)
}

/// What stands for the offset in the parts of a line: what follows the first `offset:` that a part begins with.
pub open spec fn offset_part(parts: Seq<Seq<char>>) -> Option<Seq<char>>
    decreases parts.len(),
{
    if parts.len() == 0 {
        None
    } else {
        let part = text::trimmed(parts[0]);
        if "offset:"@.is_prefix_of(part) {
            Some(text::trimmed(part.skip("offset:"@.len() as int)))
        } else {
            offset_part(parts.skip(1))
        }
    }
}

/// What stands for the offset of a field: that of the first line that describes it and holds an offset.
pub open spec fn offset_text(lines: Seq<Seq<char>>, name: Seq<char>) -> Option<Seq<char>>
    decreases lines.len(),
{
    if lines.len() == 0 {
        None
    } else {
        let line = text::trimmed(lines[0]);
        let found = if describes(line, name) {
            offset_part(text::pieces(line, ';'))
        } else {
            None
        };
        match found {
            Some(offset) => Some(offset),
            None => offset_text(lines.skip(1), name),
        }
    }
}

/// What stands for the offset of a field in a description.
pub open spec fn offset_in(format: Seq<char>, name: Seq<char>) -> Option<Seq<char>> {
    offset_text(text::pieces(format, '\n'), name)
}

/// Whether a result is the offset of a field in a description, or says why there is none.
pub open spec fn offset_found(format: Seq<char>, name: &'static str, r: Result<u32, FormatError>) -> bool {
    match offset_in(format, name@) {
        Some(offset) => match number::parsed(offset, u32::MAX as int) {
            Some(n) => r matches Ok(found) && found == n,
            None => r matches Err(FormatError::InvalidOffset { name: field, offset: text }) && field == name && text@
                == offset,
        },
        None => r matches Err(FormatError::MissingField { name: field }) && field == name,
    }
}

/// What stands for the offset in a line.
fn find_offset(line: &str) -> (r: Option<String>)
    ensures
        (match r {
            Some(offset) => Some(offset@),
            None => None,
        }) == offset_part(text::pieces(line@, ';')),
{
    let parts: Vec<String> = text::split(line, ';');
    let ghost all = text::texts(parts@);
    let mut i: usize = 0;
    proof {
        assert(all.skip(0) =~= all);
    }
    while i < parts.len()
        invariant
            i <= parts@.len(),
            all == text::texts(parts@),
            all == text::pieces(line@, ';'),
            offset_part(all) == offset_part(all.skip(i as int)),
        decreases parts@.len() - i,
    {
        proof {
            assert(all.skip(i as int)[0] == parts@[i as int]@);
            assert(all.skip(i as int).skip(1) =~= all.skip(i + 1));
        }
        let part: String = text::trim(parts[i].as_str());
        if let Some(offset) = text::strip_prefix(part.as_str(), "offset:") {
            return Some(text::trim(offset.as_str()));
        }
        i += 1;
    }
    None
}

/// The offset of a field.
pub fn field_offset(format: &str, name: &'static str) -> (r: Result<u32, FormatError>)
    ensures
        offset_found(format@, name, r),
{
    let lines: Vec<String> = text::split(format, '\n');
    let ghost all = text::texts(lines@);
    let mut pattern: String = " ".to_owned();
    pattern.append(name);
    pattern.append(";");
    let mut i: usize = 0;
    proof {
        assert(all.skip(0) =~= all);
    }
    while i < lines.len()
        invariant
            i <= lines@.len(),
            all == text::texts(lines@),
            all == text::pieces(format@, '\n'),
            pattern@ == " "@ + name@ + ";"@,
            offset_text(all, name@) == offset_text(all.skip(i as int), name@),
        decreases lines@.len() - i,
    {
        proof {
            assert(all.skip(i as int)[0] == lines@[i as int]@);
            assert(all.skip(i as int).skip(1) =~= all.skip(i + 1));
        }
        let line: String = text::trim(lines[i].as_str());
        if text::starts_with(line.as_str(), "field:") && text::find(line.as_str(), pattern.as_str()).is_some() {
            if let Some(offset) = find_offset(line.as_str()) {
                return match number::parse(offset.as_str(), u32::MAX as u64) {
                    Some(n) => Ok(n as u32),
                    None => Err(FormatError::InvalidOffset { name, offset }),
                };
            }
        }
        i += 1;
    }
    Err(FormatError::MissingField { name })
}

/// The offsets of the fields that are looked at.
#[derive(Clone, Copy, Debug, PartialEq, Eq, Structural)]
pub struct TracepointFormat {
    /// Offset of the process ID.
    pub pid_offset: u32,
    /// Offset of the location of the filename.
    pub filename_offset: u32,
}

impl TracepointFormat {
    /// Whether this is what is read of a description.
    pub open spec fn is_read_of(r: Result<Self, FormatError>, format: Seq<char>) -> bool {
        match r {
            Ok(parsed) => {
                &&& offset_found(format, "pid", Ok(parsed.pid_offset))
                &&& offset_found(format, "filename", Ok(parsed.filename_offset))
            },
            Err(error) => {
                ||| offset_found(format, "pid", Err(error))
                ||| (exists|pid: u32| offset_found(format, "pid", Ok(pid))) && offset_found(
                    format,
                    "filename",
                    Err(error),
                )
            },
        }
    }

    /// Reads the description that the kernel gives of the tracepoint.
    pub fn parse(format: &str) -> (r: Result<Self, FormatError>)
        ensures
            Self::is_read_of(r, format@),
    {
        let pid_offset: u32 = match field_offset(format, "pid") {
            Ok(offset) => offset,
            Err(error) => return Err(error),
        };
        let filename_offset: u32 = match field_offset(format, "filename") {
            Ok(offset) => offset,
            Err(error) => return Err(error),
        };
        Ok(TracepointFormat { pid_offset, filename_offset })
    }
}

/// What the probe is told of the running kernel.
#[derive(Clone, Copy, Debug, PartialEq, Eq, Structural)]
pub struct TracepointConfig {
    /// Offset of the process ID in the tracepoint.
    pub pid_offset: u32,
    /// Offset of the location of the filename in the tracepoint.
    pub filename_offset: u32,
    /// Offset of the parent in a task.
    pub task_real_parent_offset: u32,
    /// Offset of the process ID in a task.
    pub task_tgid_offset: u32,
}

impl TracepointConfig {
    /// Joins what is known of the tracepoint and of tasks.
    pub fn new(format: TracepointFormat, task_offsets: TaskStructOffsets) -> (r: Self)
        ensures
            r.pid_offset == format.pid_offset,
            r.filename_offset == format.filename_offset,
            r.task_real_parent_offset == task_offsets.real_parent,
            r.task_tgid_offset == task_offsets.tgid,
    {
        TracepointConfig {
            pid_offset: format.pid_offset,
            filename_offset: format.filename_offset,
            task_real_parent_offset: task_offsets.real_parent,
            task_tgid_offset: task_offsets.tgid,
        }
    }
}

} // verus!
