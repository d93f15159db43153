//! Where the description of the tracepoint says its fields stand.

use vstd::prelude::*;

use crate::number;
use crate::text;
use crate::tracepoint;
use crate::tracepoint::{FormatError, TracepointFormat};

verus! {

/// Of the parts of a line, the first that begins with `offset:` says the offset: what stands behind that.
pub proof fn lemma_offset_part(parts: Seq<Seq<char>>, j: int)
    requires
        0 <= j <= parts.len(),
        forall|k: int| 0 <= k < j ==> !"offset:"@.is_prefix_of(text::trimmed(#[trigger] parts[k])),
        j < parts.len() ==> "offset:"@.is_prefix_of(text::trimmed(parts[j])),
    ensures
        j < parts.len() ==> tracepoint::offset_part(parts) == Some(text::trimmed(text::trimmed(parts[j]).skip(7))),
        j == parts.len() ==> tracepoint::offset_part(parts) is None,
    decreases j,
{
    reveal_strlit("offset:");
    if j > 0 {
        let rest = parts.skip(1);
        assert(!"offset:"@.is_prefix_of(text::trimmed(parts[0])));
        assert forall|k: int| 0 <= k < j - 1 implies !"offset:"@.is_prefix_of(text::trimmed(#[trigger] rest[k])) by {
            assert(rest[k] == parts[k + 1]);
        }
        lemma_offset_part(rest, j - 1);
    }
}

/// Whether a line describes a field: it begins with `field:`, and the name stands in it behind a blank and before a
/// semicolon.
pub open spec fn is_field(line: Seq<char>, name: Seq<char>) -> bool {
    &&& line.len() >= 6
    &&& line.take(6) == seq!['f', 'i', 'e', 'l', 'd', ':']
    &&& exists|i: int|
        {
            &&& 0 <= i
            &&& i + name.len() + 2 <= line.len()
            &&& #[trigger] line[i] == ' '
            &&& line.subrange(i + 1, i + 1 + name.len()) == name
            &&& line[i + 1 + name.len()] == ';'
        }
}

proof fn lemma_is_field(line: Seq<char>, name: Seq<char>)
    ensures
        is_field(line, name) == tracepoint::describes(line, name),
{
    reveal_strlit("field:");
    reveal_strlit(" ");
    reveal_strlit(";");
    let pattern = " "@ + name + ";"@;
    assert("field:"@ =~= seq!['f', 'i', 'e', 'l', 'd', ':']);
    if is_field(line, name) {
        assert(line.subrange(0, 6) =~= line.take(6));
        assert("field:"@.is_prefix_of(line));
        let i = choose|i: int|
            {
                &&& 0 <= i
                &&& i + name.len() + 2 <= line.len()
                &&& #[trigger] line[i] == ' '
                &&& line.subrange(i + 1, i + 1 + name.len()) == name
                &&& line[i + 1 + name.len()] == ';'
            };
        assert forall|k: int| 0 <= k < pattern.len() implies line.subrange(i, i + pattern.len())[k] == pattern[k] by {
            if 1 <= k < 1 + name.len() {
                assert(line.subrange(i + 1, i + 1 + name.len())[k - 1] == name[k - 1]);
            }
        }
        assert(line.subrange(i, i + pattern.len()) =~= pattern);
        assert(text::occurs_at(line, pattern, i));
    }
    if tracepoint::describes(line, name) {
        assert(line.take(6) =~= line.subrange(0, 6));
        let i = choose|i: int| text::occurs_at(line, pattern, i);
        let part = line.subrange(i, i + pattern.len());
        assert(part[0] == line[i]);
        assert(part[1 + name.len() as int] == line[i + 1 + name.len()]);
        assert(line.subrange(i + 1, i + 1 + name.len()) =~= name) by {
            assert forall|k: int| 0 <= k < name.len() implies line[i + 1 + k] == name[k] by {
                assert(part[k + 1] == pattern[k + 1]);
            }
        }
    }
}

/// The offset of a field is said by the first line that describes the field and says an offset, in the first part of it
/// that does. It is that number. Where no line does, the field is missing.
pub proof fn lemma_field_offset(lines: Seq<Seq<char>>, name: Seq<char>, i: int, j: int)
    requires
        0 <= i <= lines.len(),
        forall|k: int|
            0 <= k < i ==> !is_field(text::trimmed(#[trigger] lines[k]), name) || tracepoint::offset_part(
                text::pieces(text::trimmed(lines[k]), ';'),
            ) is None,
        i < lines.len() ==> {
            let parts = text::pieces(text::trimmed(lines[i]), ';');
            &&& is_field(text::trimmed(lines[i]), name)
            &&& 0 <= j < parts.len()
            &&& forall|k: int| 0 <= k < j ==> !"offset:"@.is_prefix_of(text::trimmed(#[trigger] parts[k]))
            &&& "offset:"@.is_prefix_of(text::trimmed(parts[j]))
        },
    ensures
        i < lines.len() ==> tracepoint::offset_text(lines, name) == Some(
            text::trimmed(text::trimmed(text::pieces(text::trimmed(lines[i]), ';')[j]).skip(7)),
        ),
        i == lines.len() ==> tracepoint::offset_text(lines, name) is None,
    decreases i,
{
    if i > 0 {
        let rest = lines.skip(1);
        assert(!is_field(text::trimmed(lines[0]), name) || tracepoint::offset_part(
            text::pieces(text::trimmed(lines[0]), ';'),
        ) is None);
        lemma_is_field(text::trimmed(lines[0]), name);
        assert forall|k: int| 0 <= k < i - 1 implies !is_field(text::trimmed(#[trigger] rest[k]), name)
            || tracepoint::offset_part(text::pieces(text::trimmed(rest[k]), ';')) is None by {
            assert(rest[k] == lines[k + 1]);
        }
        lemma_field_offset(rest, name, i - 1, j);
    } else if i < lines.len() {
        lemma_is_field(text::trimmed(lines[0]), name);
        lemma_offset_part(text::pieces(text::trimmed(lines[0]), ';'), j);
    }
}

/// What is found for a field: the number that its offset is, an error that names the offset where it is none, and an
/// error where there is no offset.
pub proof fn lemma_offset_found(format: Seq<char>, name: &'static str, r: Result<u32, FormatError>)
    requires
        tracepoint::offset_found(format, name, r),
    ensures
        ({
            let said = tracepoint::offset_text(text::pieces(format, '\n'), name@);
            &&& said is None ==> r is Err && r->Err_0 is MissingField && r->Err_0->MissingField_name == name
            &&& said is Some && number::parsed(said->0, 0xffff_ffff) is Some ==> r is Ok && r->Ok_0 == number::parsed(
                said->0,
                0xffff_ffff,
            )->0
            &&& said is Some && number::parsed(said->0, 0xffff_ffff) is None ==> r is Err && r->Err_0 is InvalidOffset
                && r->Err_0->InvalidOffset_name == name && r->Err_0->offset@ == said->0
        }),
{
}

/// A description is read if both the process ID and the filename have an offset that is a number. The offsets are then
/// those of the fields of these names. Else the error is that of the process ID, or, if that has an offset, of the
/// filename.
pub proof fn lemma_format(format: Seq<char>, r: Result<TracepointFormat, FormatError>)
    requires
        TracepointFormat::is_read_of(r, format),
    ensures
        ({
            let lines = text::pieces(format, '\n');
            let pid = tracepoint::offset_text(lines, "pid"@);
            let filename = tracepoint::offset_text(lines, "filename"@);
            &&& r is Ok <==> pid is Some && filename is Some && number::parsed(pid->0, 0xffff_ffff) is Some
                && number::parsed(filename->0, 0xffff_ffff) is Some
            &&& r is Ok ==> r->Ok_0.pid_offset == number::parsed(pid->0, 0xffff_ffff)->0
            &&& r is Ok ==> r->Ok_0.filename_offset == number::parsed(filename->0, 0xffff_ffff)->0
            &&& pid is None ==> r is Err && r->Err_0 is MissingField && r->Err_0->MissingField_name@ == "pid"@
            &&& pid is Some && number::parsed(pid->0, 0xffff_ffff) is None ==> r is Err && r->Err_0 is InvalidOffset
                && r->Err_0->InvalidOffset_name@ == "pid"@ && r->Err_0->offset@ == pid->0
            &&& pid is Some && number::parsed(pid->0, 0xffff_ffff) is Some && filename is None ==> r is Err && r->Err_0
                is MissingField && r->Err_0->MissingField_name@ == "filename"@
            &&& pid is Some && number::parsed(pid->0, 0xffff_ffff) is Some && filename is Some && number::parsed(
                filename->0,
                0xffff_ffff,
            ) is None ==> r is Err && r->Err_0 is InvalidOffset && r->Err_0->InvalidOffset_name@ == "filename"@
                && r->Err_0->offset@ == filename->0
        }),
{
}

} // verus!
