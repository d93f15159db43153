use process_scheduler::btf::{type_record_len, Btf, BtfError, TaskStructOffsets, BTF_KIND_STRUCT};
use process_scheduler::execsnoop::{
    decode_event, ExecStats, OwnedProcess, PendingProcesses, Process, RawExecEvent, Received,
    StatsLog, FILENAME_LEN, FLAG_FILENAME_MISSING, FLAG_FILENAME_TRUNCATED,
    FLAG_PARENT_PID_MISSING, TASK_COMM_LEN,
};
use process_scheduler::probe::{
    output_event, read_parent_pid, try_sched_process_exec, ExecReadings, FilenameReading,
};
use process_scheduler::tracepoint::{FormatError, TracepointConfig, TracepointFormat};

fn event(comm: &[u8], filename: &[u8], flags: u32) -> RawExecEvent {
    let mut event = RawExecEvent {
        pid: 42,
        parent_pid: 7,
        flags,
        filename_len: filename.len().min(FILENAME_LEN) as u32,
        comm: [0; TASK_COMM_LEN],
        filename: [0; FILENAME_LEN],
    };
    event.comm[..comm.len().min(TASK_COMM_LEN)]
        .copy_from_slice(&comm[..comm.len().min(TASK_COMM_LEN)]);
    event.filename[..filename.len().min(FILENAME_LEN)]
        .copy_from_slice(&filename[..filename.len().min(FILENAME_LEN)]);
    event
}

fn bytes(event: &RawExecEvent) -> Vec<u8> {
    let mut bytes = Vec::new();
    bytes.extend_from_slice(&event.pid.to_le_bytes());
    bytes.extend_from_slice(&event.parent_pid.to_le_bytes());
    bytes.extend_from_slice(&event.flags.to_le_bytes());
    bytes.extend_from_slice(&event.filename_len.to_le_bytes());
    bytes.extend_from_slice(&event.comm);
    bytes.extend_from_slice(&event.filename);
    bytes
}

#[test]
fn decodes_binary_event_with_spaces() {
    let raw = event(b"my shell", b"/tmp/path with spaces/script", 0);
    let decoded = decode_event(&bytes(&raw)).unwrap();
    let process = OwnedProcess::try_from(decoded).unwrap();
    assert_eq!(process.name, b"my shell");
    assert_eq!(process.cmd, b"/tmp/path with spaces/script");
}

#[test]
fn preserves_newline_like_bytes() {
    let raw = event(b"runner", b"/tmp/script\narg", 0);
    let process = OwnedProcess::try_from(decode_event(&bytes(&raw)).unwrap()).unwrap();
    assert_eq!(process.cmd, b"/tmp/script\narg");
}

#[test]
fn lossy_conversion_handles_invalid_utf8() {
    let raw = event(b"bad\xffname", b"/tmp/\xff/bin", 0);
    let process = OwnedProcess::try_from(decode_event(&bytes(&raw)).unwrap()).unwrap();
    let public = Process {
        name: &process.name,
        cmd: &process.cmd,
        pid: process.pid,
        parent_pid: process.parent_pid,
    };

    assert_eq!(public.name_lossy(), "bad\u{fffd}name");
    assert_eq!(public.cmd_lossy(), "/tmp/\u{fffd}/bin");
}

#[test]
fn lossy_conversion_keeps_utf8() {
    let public = Process {
        name: "n\u{e9}".as_bytes(),
        cmd: b"/bin/true",
        pid: 1,
        parent_pid: 0,
    };
    assert_eq!(public.name_lossy(), "n\u{e9}");
    assert_eq!(public.cmd_lossy(), "/bin/true");
}

#[test]
fn keeps_truncation_boundary() {
    let filename = [b'a'; FILENAME_LEN];
    let raw = event(b"boundary", &filename, FLAG_FILENAME_TRUNCATED);
    let process = OwnedProcess::try_from(decode_event(&bytes(&raw)).unwrap()).unwrap();
    assert_eq!(process.cmd.len(), FILENAME_LEN);
    assert!(raw.flags & FLAG_FILENAME_TRUNCATED != 0);
}

#[test]
fn missing_parent_pid_stays_zero() {
    let mut raw = event(b"runner", b"/bin/true", 1 << 1);
    raw.parent_pid = 0;
    let process = OwnedProcess::try_from(decode_event(&bytes(&raw)).unwrap()).unwrap();
    assert_eq!(process.parent_pid, 0);
}

#[test]
fn rejects_short_binary_event() {
    assert!(decode_event(&[0; 12]).is_none());
    assert!(decode_event(&[0; 289]).is_none());
}

#[test]
fn an_event_is_read_back_from_its_bytes() {
    let mut raw = event(b"0123456789abcdef", b"/x", 0x0102_0304);
    raw.pid = 0x1122_3344;
    raw.filename_len = 3000;
    let decoded = decode_event(&bytes(&raw)).unwrap();
    assert_eq!(decoded, raw);
    assert!(OwnedProcess::try_from(decoded).is_err());
    raw.flags = 0;
    let process = OwnedProcess::try_from(raw).unwrap();
    assert_eq!(process.name, b"0123456789abcdef");
    assert_eq!(process.cmd.len(), FILENAME_LEN);
}

#[test]
fn events_are_taken_in_order() {
    let mut pending = PendingProcesses::new();
    assert!(pending.take().is_none());
    assert_eq!(
        pending.receive(&bytes(&event(b"a", b"/a", 0))),
        Received::Queued { pid: 42, truncated: false }
    );
    assert_eq!(
        pending.receive(&bytes(&event(b"b", b"/b", FLAG_FILENAME_TRUNCATED))),
        Received::Queued { pid: 42, truncated: true }
    );
    assert_eq!(
        pending.receive(&bytes(&event(b"c", b"/c", FLAG_FILENAME_MISSING))),
        Received::Nameless { pid: 42, truncated: false }
    );
    assert_eq!(pending.receive(b"short"), Received::Malformed);
    assert_eq!(pending.take().unwrap().cmd, b"/a");
    assert_eq!(pending.take().unwrap().cmd, b"/b");
    assert!(pending.take().is_none());
}

#[test]
fn counters_are_logged_when_they_change() {
    let mut log = StatsLog::new();
    let mut stats = ExecStats::default();
    assert!(log.is_due(stats));
    assert!(log.is_due(stats));
    assert!(log.is_due(stats));
    assert!(!log.is_due(stats));
    stats.entered = 1;
    assert!(log.is_due(stats));
    assert!(!log.is_due(stats));
}

#[test]
fn parses_tracepoint_format_offsets() {
    let format = "\
field:unsigned short common_type;\toffset:0;\tsize:2;\tsigned:0;
field:pid_t pid;\toffset:24;\tsize:4;\tsigned:1;
field:__data_loc char[] filename;\toffset:32;\tsize:4;\tsigned:1;
";
    let parsed = TracepointFormat::parse(format).unwrap();
    assert_eq!(parsed.pid_offset, 24);
    assert_eq!(parsed.filename_offset, 32);
}

#[test]
fn a_tracepoint_format_without_offsets_is_refused() {
    let missing = TracepointFormat::parse("field:pid_t pid;\toffset:24;").unwrap_err();
    assert!(matches!(missing, FormatError::MissingField { name: "filename" }));
    let missing = TracepointFormat::parse("  field:int other_pid; offset:1;\n").unwrap_err();
    assert!(matches!(missing, FormatError::MissingField { name: "pid" }));
    let invalid = TracepointFormat::parse("field:pid_t pid; offset: x1 ;").unwrap_err();
    match invalid {
        FormatError::InvalidOffset { name, offset } => {
            assert_eq!(name, "pid");
            assert_eq!(offset, "x1");
        }
        other => panic!("{other:?}"),
    }
    let text = "field:int pid;\r\nfield:int pid; offset: +4;\r\nfield:int filename;offset:8\n";
    let parsed = TracepointFormat::parse(text).unwrap();
    assert_eq!((parsed.pid_offset, parsed.filename_offset), (4, 8));
}

fn btf(types: &[u8], strings: &[u8]) -> Vec<u8> {
    let mut btf = Vec::new();
    btf.extend_from_slice(&0xeb9fu16.to_le_bytes());
    btf.push(1);
    btf.push(0);
    btf.extend_from_slice(&24u32.to_le_bytes());
    btf.extend_from_slice(&0u32.to_le_bytes());
    btf.extend_from_slice(&(types.len() as u32).to_le_bytes());
    btf.extend_from_slice(&(types.len() as u32).to_le_bytes());
    btf.extend_from_slice(&(strings.len() as u32).to_le_bytes());
    btf.extend_from_slice(types);
    btf.extend_from_slice(strings);
    btf
}

fn words(words: &[u32]) -> Vec<u8> {
    words.iter().flat_map(|word| word.to_le_bytes()).collect()
}

#[test]
fn parses_task_struct_offsets_from_btf() {
    let strings = b"\0task_struct\0real_parent\0tgid\0";
    let task_struct_name = 1u32;
    let real_parent_name = 13u32;
    let tgid_name = 25u32;
    let mut btf = Vec::new();

    btf.extend_from_slice(&0xeb9fu16.to_le_bytes());
    btf.push(1);
    btf.push(0);
    btf.extend_from_slice(&24u32.to_le_bytes());
    btf.extend_from_slice(&0u32.to_le_bytes());
    btf.extend_from_slice(&36u32.to_le_bytes());
    btf.extend_from_slice(&36u32.to_le_bytes());
    btf.extend_from_slice(&(strings.len() as u32).to_le_bytes());

    btf.extend_from_slice(&task_struct_name.to_le_bytes());
    btf.extend_from_slice(&((BTF_KIND_STRUCT << 24) | 2).to_le_bytes());
    btf.extend_from_slice(&64u32.to_le_bytes());
    btf.extend_from_slice(&real_parent_name.to_le_bytes());
    btf.extend_from_slice(&1u32.to_le_bytes());
    btf.extend_from_slice(&(16u32 * 8).to_le_bytes());
    btf.extend_from_slice(&tgid_name.to_le_bytes());
    btf.extend_from_slice(&2u32.to_le_bytes());
    btf.extend_from_slice(&(32u32 * 8).to_le_bytes());
    btf.extend_from_slice(strings);

    let offsets = TaskStructOffsets::parse(&btf).unwrap();
    assert_eq!(offsets.real_parent, 16);
    assert_eq!(offsets.tgid, 32);
}

const NAMES: &[u8] = b"\0task_struct\0real_parent\0tgid\0\xff\0";

fn task(info: u32, members: &[u32]) -> Result<TaskStructOffsets, BtfError> {
    let mut types = vec![1, info, 64];
    types.extend_from_slice(members);
    TaskStructOffsets::parse(&btf(&words(&types), NAMES))
}

#[test]
fn btf_headers_are_checked() {
    assert_eq!(TaskStructOffsets::parse(&[0; 23]).unwrap_err(), BtfError::ShortHeader);
    assert_eq!(TaskStructOffsets::parse(&[0; 24]).unwrap_err(), BtfError::UnsupportedMagic);
    let mut version = btf(&[], NAMES);
    version[2] = 2;
    assert_eq!(
        TaskStructOffsets::parse(&version).unwrap_err(),
        BtfError::UnsupportedVersion(2)
    );
    let mut long = btf(&[], NAMES);
    long[20] += 1;
    assert_eq!(TaskStructOffsets::parse(&long).unwrap_err(), BtfError::Invalid);
    let mut far = btf(&[], NAMES);
    far[4..8].copy_from_slice(&u32::MAX.to_le_bytes());
    assert_eq!(TaskStructOffsets::parse(&far).unwrap_err(), BtfError::Invalid);
    assert_eq!(
        TaskStructOffsets::parse(&btf(&[], NAMES)).unwrap_err(),
        BtfError::MissingTaskStruct
    );
}

#[test]
fn btf_types_are_checked() {
    assert_eq!(
        TaskStructOffsets::parse(&btf(&[0; 8], NAMES)).unwrap_err(),
        BtfError::ShortRecord
    );
    assert_eq!(
        task(31 << 24, &[]).unwrap_err(),
        BtfError::UnsupportedKind(31)
    );
    assert_eq!(
        task((BTF_KIND_STRUCT << 24) | 2, &[13, 1, 0]).unwrap_err(),
        BtfError::Invalid
    );
    let unterminated = btf(&words(&[1, BTF_KIND_STRUCT << 24, 0]), b"\0task");
    assert_eq!(
        TaskStructOffsets::parse(&unterminated).unwrap_err(),
        BtfError::UnterminatedString
    );
    let outside = btf(&words(&[99, BTF_KIND_STRUCT << 24, 0]), NAMES);
    assert_eq!(TaskStructOffsets::parse(&outside).unwrap_err(), BtfError::Invalid);
}

#[test]
fn btf_members_are_checked() {
    let info = (BTF_KIND_STRUCT << 24) | 2;
    assert_eq!(
        task(info, &[13, 1, 12, 25, 2, 0]).unwrap_err(),
        BtfError::Unaligned("real_parent")
    );
    assert_eq!(
        task(info, &[13, 1, 8, 30, 2, 0]).unwrap_err(),
        BtfError::MissingMember("tgid")
    );
    let flagged = info | (1 << 31);
    assert_eq!(
        task(flagged, &[13, 1, 8, 25, 2, (5 << 24) | 8]).unwrap_err(),
        BtfError::Bitfield("tgid")
    );
    let offsets = task(flagged, &[13, 1, 64, 25, 2, 128]).unwrap();
    assert_eq!((offsets.real_parent, offsets.tgid), (8, 16));
    let offsets = task(info, &[13, 1, 64, 25, 2, (5 << 24) | 8]).unwrap();
    assert_eq!(offsets.tgid, ((5 << 24) | 8) / 8);
}

#[test]
fn btf_types_before_the_struct_are_skipped() {
    let mut types = vec![0, 1 << 24, 4, 0];
    types.extend_from_slice(&[0, (13 << 24) | 1, 0, 7, 7]);
    types.extend_from_slice(&[13, (BTF_KIND_STRUCT << 24) | 1, 0, 1, 1, 1]);
    types.extend_from_slice(&[1, (BTF_KIND_STRUCT << 24) | 2, 64]);
    types.extend_from_slice(&[25, 0, 80, 13, 0, 160]);
    let offsets = TaskStructOffsets::parse(&btf(&words(&types), NAMES)).unwrap();
    assert_eq!((offsets.tgid, offsets.real_parent), (10, 20));
    assert_eq!(type_record_len(3, 0).unwrap(), 24);
    assert_eq!(type_record_len(2, 9).unwrap(), 12);
    assert_eq!(type_record_len(17, 9).unwrap(), 16);
    assert_eq!(type_record_len(19, 2).unwrap(), 36);
    assert_eq!(type_record_len(6, 2).unwrap(), 28);
    assert_eq!(type_record_len(4, usize::MAX).unwrap_err(), BtfError::Invalid);
}

#[test]
fn btf_strings_are_text() {
    let bytes = btf(&[], NAMES);
    let btf = Btf::parse(&bytes).unwrap();
    assert_eq!(btf.string(0).unwrap(), None);
    assert_eq!(btf.string(1).unwrap(), Some("task_struct"));
    assert_eq!(btf.string(30).unwrap(), None);
    assert_eq!(btf.string(32).unwrap_err(), BtfError::UnterminatedString);
    assert_eq!(btf.string(33).unwrap_err(), BtfError::Invalid);
}

fn readings() -> ExecReadings {
    let mut buffer = [0; FILENAME_LEN];
    buffer[..9].copy_from_slice(b"/bin/true");
    ExecReadings {
        config: Some(TracepointConfig {
            pid_offset: 24,
            filename_offset: 8,
            task_real_parent_offset: 16,
            task_tgid_offset: 32,
        }),
        parent_tgid: Some(7),
        pid: Some(42),
        comm: Some(*b"true\0\0\0\0\0\0\0\0\0\0\0\0"),
        data_loc: Some((10 << 16) | 40),
        filename: Some(FilenameReading {
            len: 9,
            bytes: buffer,
        }),
    }
}

#[test]
fn the_probe_emits_what_it_reads() {
    let mut stats = ExecStats::default();
    let event = try_sched_process_exec(&mut stats, &readings()).unwrap();
    assert_eq!((event.pid, event.parent_pid, event.flags), (42, 7, 0));
    output_event(&mut stats, true);
    assert_eq!(
        stats,
        ExecStats {
            entered: 1,
            output_attempted: 1,
            ..ExecStats::default()
        }
    );
    let mut pending = PendingProcesses::new();
    pending.receive(&bytes(&event));
    let process = pending.take().unwrap();
    assert_eq!(process.name, b"true");
    assert_eq!(process.cmd, b"/bin/true");
    output_event(&mut stats, false);
    assert_eq!((stats.output_attempted, stats.output_failed), (2, 1));
}

#[test]
fn the_probe_counts_what_it_misses() {
    let mut stats = ExecStats::default();
    stats.entered = u64::MAX;
    let mut unconfigured = readings();
    unconfigured.config = None;
    assert!(try_sched_process_exec(&mut stats, &unconfigured).is_none());
    assert_eq!((stats.entered, stats.missing_config), (0, 1));

    let mut unset = readings();
    unset.config.as_mut().unwrap().pid_offset = 0;
    assert!(try_sched_process_exec(&mut stats, &unset).is_none());
    assert_eq!(stats.invalid_config, 1);

    let mut orphan = readings();
    orphan.parent_tgid = Some(0);
    orphan.pid = None;
    assert!(try_sched_process_exec(&mut stats, &orphan).is_none());
    assert_eq!((stats.parent_pid_failed, stats.pid_read_failed), (1, 1));

    let mut nowhere = readings();
    nowhere.data_loc = None;
    assert!(try_sched_process_exec(&mut stats, &nowhere).is_none());
    assert_eq!(stats.filename_loc_read_failed, 1);

    let mut nameless = readings();
    nameless.data_loc = Some(40);
    let event = try_sched_process_exec(&mut stats, &nameless).unwrap();
    assert_eq!(event.flags, FLAG_FILENAME_MISSING);
    assert_eq!(event.filename_len, 0);
    assert_eq!(stats.filename_missing, 1);

    let mut unreadable = readings();
    unreadable.filename = None;
    unreadable.parent_tgid = None;
    unreadable.comm = None;
    let event = try_sched_process_exec(&mut stats, &unreadable).unwrap();
    assert_eq!(event.flags, FLAG_FILENAME_MISSING | FLAG_PARENT_PID_MISSING);
    assert_eq!(event.parent_pid, 0);
    assert_eq!(event.comm, [0; TASK_COMM_LEN]);
    assert_eq!(stats.filename_read_failed, 1);

    let mut long = readings();
    long.data_loc = Some((256 << 16) | 40);
    let event = try_sched_process_exec(&mut stats, &long).unwrap();
    assert_eq!(event.flags, FLAG_FILENAME_TRUNCATED);
    let mut full = readings();
    full.filename.as_mut().unwrap().len = 255;
    try_sched_process_exec(&mut stats, &full);
    assert_eq!(stats.filename_truncated, 2);
    assert_eq!(stats.entered, 7);
}

#[test]
fn the_parent_needs_offsets() {
    let mut config = readings().config.unwrap();
    assert_eq!(read_parent_pid(&config, Some(3)), Some(3));
    assert_eq!(read_parent_pid(&config, Some(-3)), None);
    config.task_tgid_offset = 0;
    assert_eq!(read_parent_pid(&config, Some(3)), None);
}
