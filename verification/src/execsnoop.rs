//! The events by which the kernel makes successful execs known.

use std::collections::VecDeque;

use vstd::prelude::*;

use crate::bytes;

verus! {

/// Length of a command name.
pub const TASK_COMM_LEN: usize = 16;

/// Length of the buffer for a filename.
pub const FILENAME_LEN: usize = 256;

/// Length of an event.
pub const EVENT_LEN: usize = 288;

/// The filename did not fit into the event.
pub const FLAG_FILENAME_TRUNCATED: u32 = 1;

/// The parent process is not known.
pub const FLAG_PARENT_PID_MISSING: u32 = 2;

/// The filename is not known.
pub const FLAG_FILENAME_MISSING: u32 = 4;

/// Fixed-size binary event emitted by the eBPF program.
#[derive(Clone, Copy, Debug, Eq, PartialEq)]
pub struct RawExecEvent {
    /// Process ID, using userspace PID terminology (`task->tgid`).
    pub pid: u32,
    /// Parent process ID. Zero means unavailable.
    pub parent_pid: u32,
    /// Bitmask describing truncation or missing optional fields.
    pub flags: u32,
    /// Number of bytes copied into `filename`, excluding a trailing NUL.
    pub filename_len: u32,
    /// Current task command name.
    pub comm: [u8; 16],
    /// Executable filename/path from the tracepoint.
    pub filename: [u8; 256],
}

/// The bytes of an event: the numbers with the lowest byte first, the command name and the filename.
pub open spec fn event_bytes(event: RawExecEvent) -> Seq<u8> {
    bytes::le_bytes(event.pid) + bytes::le_bytes(event.parent_pid) + bytes::le_bytes(event.flags) + bytes::le_bytes(
        event.filename_len,
    ) + event.comm@ + event.filename@
}

/// Whether an event is the one in bytes.
pub open spec fn is_event_in(event: RawExecEvent, s: Seq<u8>) -> bool {
    &&& event.pid == bytes::le_u32(s, 0)
    &&& event.parent_pid == bytes::le_u32(s, 4)
    &&& event.flags == bytes::le_u32(s, 8)
    &&& event.filename_len == bytes::le_u32(s, 12)
    &&& event.comm@ == s.subrange(16, 32)
    &&& event.filename@ == s.subrange(32, 288)
}

/// Reads an event. Bytes of another length are none.
pub fn decode_event(bytes: &[u8]) -> (r: Option<RawExecEvent>)
    ensures
        r is Some <==> bytes@.len() == EVENT_LEN,
        r matches Some(event) ==> is_event_in(event, bytes@),
{
    if bytes.len() != EVENT_LEN {
        return None;
    }
    let mut comm: [u8; 16] = [0u8;16];
    let mut i: usize = 0;
    while i < TASK_COMM_LEN
        invariant
            bytes@.len() == EVENT_LEN,
            i <= TASK_COMM_LEN,
            forall|j: int| 0 <= j < i ==> (#[trigger] comm@[j]) == bytes@[16 + j],
        decreases TASK_COMM_LEN - i,
    {
        comm[i] = bytes[16 + i];
        i += 1;
    }
    let mut filename: [u8; 256] = [0u8;256];
    let mut k: usize = 0;
    while k < FILENAME_LEN
        invariant
            bytes@.len() == EVENT_LEN,
            k <= FILENAME_LEN,
            forall|j: int| 0 <= j < k ==> (#[trigger] filename@[j]) == bytes@[32 + j],
        decreases FILENAME_LEN - k,
    {
        filename[k] = bytes[32 + k];
        k += 1;
    }
    proof {
        assert(comm@ =~= bytes@.subrange(16, 32));
        assert(filename@ =~= bytes@.subrange(32, 288));
    }
    Some(
        RawExecEvent {
            pid: bytes::read_le_u32(bytes, 0),
            parent_pid: bytes::read_le_u32(bytes, 4),
            flags: bytes::read_le_u32(bytes, 8),
            filename_len: bytes::read_le_u32(bytes, 12),
            comm,
            filename,
        },
    )
}

/// An event is the one in its bytes.
pub proof fn lemma_event_read_back(event: RawExecEvent)
    ensures
        event_bytes(event).len() == EVENT_LEN,
        is_event_in(event, event_bytes(event)),
{
    let s = event_bytes(event);
    assert(s.subrange(0, 4) =~= bytes::le_bytes(event.pid));
    assert(s.subrange(4, 8) =~= bytes::le_bytes(event.parent_pid));
    assert(s.subrange(8, 12) =~= bytes::le_bytes(event.flags));
    assert(s.subrange(12, 16) =~= bytes::le_bytes(event.filename_len));
    assert(s.subrange(16, 32) =~= event.comm@);
    assert(s.subrange(32, 288) =~= event.filename@);
    bytes::lemma_le_read_back(event.pid, s, 0);
    bytes::lemma_le_read_back(event.parent_pid, s, 4);
    bytes::lemma_le_read_back(event.flags, s, 8);
    bytes::lemma_le_read_back(event.filename_len, s, 12);
}

/// A process that was started, with its own copy of what is known of it.
#[derive(Debug)]
pub struct OwnedProcess {
    /// Process name.
    pub name: Vec<u8>,
    /// Executable filename.
    pub cmd: Vec<u8>,
    /// Process ID.
    pub pid: u32,
    /// Parent process ID.
    pub parent_pid: u32,
}

/// Whether the filename of an event is missing.
pub open spec fn filename_missing(event: RawExecEvent) -> bool {
    event.flags / FLAG_FILENAME_MISSING % 2 == 1
}

/// Whether the filename of an event was cut off.
pub open spec fn filename_truncated(event: RawExecEvent) -> bool {
    event.flags % 2 == 1
}

/// The name in an event: its command name up to a zero byte.
pub open spec fn event_name(event: RawExecEvent) -> Seq<u8> {
    event.comm@.take(bytes::until_nul(event.comm@))
}

/// The filename in an event: as many bytes as were copied.
pub open spec fn event_filename(event: RawExecEvent) -> Seq<u8> {
    event.filename@.take(
        if event.filename_len <= FILENAME_LEN {
            event.filename_len as int
        } else {
            FILENAME_LEN as int
        },
    )
}

/// Whether a process is the one that an event is about.
pub open spec fn is_process_of(process: OwnedProcess, event: RawExecEvent) -> bool {
    &&& process.name@ == event_name(event)
    &&& process.cmd@ == event_filename(event)
    &&& process.pid == event.pid
    &&& process.parent_pid == event.parent_pid
}

impl OwnedProcess {
    /// The process that an event is about. An event without a filename has none.
    pub fn try_from(event: RawExecEvent) -> (r: Result<Self, ()>)
        ensures
            r is Err <==> filename_missing(event),
            r matches Ok(process) ==> is_process_of(process, event),
    {
        let flags: u32 = event.flags;
        let pid: u32 = event.pid;
        let truncated: bool = flags & FLAG_FILENAME_TRUNCATED != 0;
        proof {
            assert((flags & 4 != 0) == (flags / 4 % 2 == 1)) by (bit_vector);
        }
        if flags & FLAG_FILENAME_MISSING != 0 {
            return Err(());
        }
        let filename_len: usize = if event.filename_len as usize <= FILENAME_LEN {
            event.filename_len as usize
        } else {
            FILENAME_LEN
        };
        let comm: &[u8] = &event.comm;
        let filename: &[u8] = &event.filename;
        let name_len: usize = bytes::nul_or_len(comm);
        proof {
            assert(comm@.subrange(0, name_len as int) =~= event_name(event));
            assert(filename@.subrange(0, filename_len as int) =~= event_filename(event));
        }
        Ok(
            OwnedProcess {
                name: vstd::slice::slice_to_vec(vstd::slice::slice_subrange(comm, 0, name_len)),
                cmd: vstd::slice::slice_to_vec(vstd::slice::slice_subrange(filename, 0, filename_len)),
                pid: event.pid,
                parent_pid: event.parent_pid,
            },
        )
    }
}

/// The text that `String::from_utf8_lossy` makes of bytes: what is not UTF-8 is replaced.
pub uninterp spec fn lossy_text(s: Seq<u8>) -> Seq<char>;

/// Calls `String::from_utf8_lossy`, which decodes bytes and puts a replacement character where they are not UTF-8.
/// Bytes that are UTF-8 are decoded as they are. What stands for other bytes is not stated but for its name.
#[verifier::external_body]
fn from_utf8_lossy(bytes: &[u8]) -> (r: String)
    ensures
        r@ == lossy_text(bytes@),
        vstd::utf8::valid_utf8(bytes@) ==> r@ == vstd::utf8::decode_utf8(bytes@),
{
    String::from_utf8_lossy(bytes).into_owned()
}

/// Process info.
#[derive(Clone, Copy, Debug)]
pub struct Process<'a> {
    /// Process name.
    pub name: &'a [u8],
    /// Process command line: the executable filename/path rather than argv.
    pub cmd: &'a [u8],
    /// Process PID.
    pub pid: u32,
    /// Process parent PID.
    pub parent_pid: u32,
}

impl<'a> Process<'a> {
    /// Process command line/path converted lossily for API consumers that need
    /// Rust strings.
    pub fn cmd_lossy(&self) -> (r: String)
        ensures
            r@ == lossy_text(self.cmd@),
            vstd::utf8::valid_utf8(self.cmd@) ==> r@ == vstd::utf8::decode_utf8(self.cmd@),
    {
        from_utf8_lossy(self.cmd)
    }

    /// Process name converted lossily for API consumers that need Rust strings.
    pub fn name_lossy(&self) -> (r: String)
        ensures
            r@ == lossy_text(self.name@),
            vstd::utf8::valid_utf8(self.name@) ==> r@ == vstd::utf8::decode_utf8(self.name@),
    {
        from_utf8_lossy(self.name)
    }
}

/// What became of an event that was received.
#[derive(Clone, Copy, Debug, PartialEq, Eq, Structural)]
pub enum Received {
    /// The bytes are not an event.
    Malformed,
    /// The event has no filename.
    Nameless {
        /// Process ID.
        pid: u32,
        /// Whether its filename was cut off.
        truncated: bool,
    },
    /// The process waits to be taken.
    Queued {
        /// Process ID.
        pid: u32,
        /// Whether its filename was cut off.
        truncated: bool,
    },
}

/// The processes that were started and not yet taken.
pub struct PendingProcesses {
    /// The processes, in the order in which they came.
    pub pending: VecDeque<OwnedProcess>,
}

impl PendingProcesses {
    /// None was started.
    pub fn new() -> (r: Self)
        ensures
            r.pending@.len() == 0,
    {
        PendingProcesses { pending: VecDeque::new() }
    }

    /// Whether later processes are these after the bytes of an event were taken in, with what became of the event.
    pub open spec fn takes_in(&self, after: PendingProcesses, bytes: Seq<u8>, r: Received) -> bool {
        &&& bytes.len() != EVENT_LEN ==> r == Received::Malformed
        &&& bytes.len() == EVENT_LEN ==> exists|event: RawExecEvent|
            #![trigger is_event_in(event, bytes)]
            is_event_in(event, bytes) && r == (if filename_missing(event) {
                Received::Nameless { pid: event.pid, truncated: filename_truncated(event) }
            } else {
                Received::Queued { pid: event.pid, truncated: filename_truncated(event) }
            }) && (r is Queued ==> after.pending@.len() == self.pending@.len() + 1 && is_process_of(
                after.pending@.last(),
                event,
            ))
        &&& r is Queued ==> after.pending@.drop_last() == self.pending@
        &&& !(r is Queued) ==> after.pending@ == self.pending@
    }

    /// Takes in the bytes of an event.
    pub fn receive(&mut self, bytes: &[u8]) -> (r: Received)
        ensures
            old(self).takes_in(*final(self), bytes@, r),
    {
        let event: RawExecEvent = match decode_event(bytes) {
            Some(event) => event,
            None => return Received::Malformed,
        };
        let flags: u32 = event.flags;
        let pid: u32 = event.pid;
        let truncated: bool = flags & FLAG_FILENAME_TRUNCATED != 0;
        proof {
            assert((flags & 1 != 0) == (flags % 2 == 1)) by (bit_vector);
            assert(is_event_in(event, bytes@));
        }
        let ghost before = self.pending@;
        match OwnedProcess::try_from(event) {
            Ok(process) => {
                self.pending.push_back(process);
                proof {
                    assert(self.pending@.drop_last() =~= before);
                }
                Received::Queued { pid, truncated }
            },
            Err(()) => Received::Nameless { pid, truncated },
        }
    }

    /// Takes the process that was started first.
    pub fn take(&mut self) -> (r: Option<OwnedProcess>)
        ensures
            r is Some <==> old(self).pending@.len() > 0,
            r matches Some(process) ==> process == old(self).pending@[0] && final(self).pending@
                == old(self).pending@.skip(1),
            r is None ==> final(self).pending@ == old(self).pending@,
    {
        let ghost before = self.pending@;
        let process = self.pending.pop_front();
        proof {
            if before.len() > 0 {
                assert(before.subrange(1, before.len() as int) =~= before.skip(1));
            }
        }
        process
    }
}

/// Diagnostic counters exported by the eBPF program.
#[derive(Clone, Copy, Debug, Eq, PartialEq, Structural)]
pub struct ExecStats {
    /// Tracepoint program entries.
    pub entered: u64,
    /// The config map entry was unavailable.
    pub missing_config: u64,
    /// Config offsets were unset or invalid.
    pub invalid_config: u64,
    /// The tracepoint PID field could not be read.
    pub pid_read_failed: u64,
    /// Parent PID could not be read from `task_struct`.
    pub parent_pid_failed: u64,
    /// The tracepoint filename `__data_loc` field could not be read.
    pub filename_loc_read_failed: u64,
    /// The tracepoint reported an empty filename.
    pub filename_missing: u64,
    /// The filename string read failed.
    pub filename_read_failed: u64,
    /// The filename was truncated into the fixed event buffer.
    pub filename_truncated: u64,
    /// The eBPF program attempted to emit an event to the ring buffer.
    pub output_attempted: u64,
    /// The eBPF program failed to emit an event to the ring buffer.
    pub output_failed: u64,
}

impl ExecStats {
    /// Nothing was counted.
    pub open spec fn zero() -> ExecStats {
        ExecStats {
            entered: 0,
            missing_config: 0,
            invalid_config: 0,
            pid_read_failed: 0,
            parent_pid_failed: 0,
            filename_loc_read_failed: 0,
            filename_missing: 0,
            filename_read_failed: 0,
            filename_truncated: 0,
            output_attempted: 0,
            output_failed: 0,
        }
    }
}

impl Default for ExecStats {
    fn default() -> (r: Self)
        ensures
            r == ExecStats::zero(),
    {
        ExecStats {
            entered: 0,
            missing_config: 0,
            invalid_config: 0,
            pid_read_failed: 0,
            parent_pid_failed: 0,
            filename_loc_read_failed: 0,
            filename_missing: 0,
            filename_read_failed: 0,
            filename_truncated: 0,
            output_attempted: 0,
            output_failed: 0,
        }
    }
}

/// Which counters were logged last, and how often counters were looked at.
pub struct StatsLog {
    /// The counters that were logged last.
    pub last_stats: ExecStats,
    /// How often counters were looked at.
    pub stats_logs: u64,
}

impl StatsLog {
    /// Whether the counters are to be logged, and the later state is this one after that was asked.
    pub open spec fn logs(&self, after: StatsLog, stats: ExecStats, due: bool) -> bool {
        &&& due == (stats != self.last_stats || self.stats_logs < 3)
        &&& after.stats_logs == self.stats_logs + 1
        &&& after.last_stats == (if due {
            stats
        } else {
            self.last_stats
        })
    }

    /// Nothing was logged.
    pub fn new() -> (r: Self)
        ensures
            r.last_stats == ExecStats::zero(),
            r.stats_logs == 0,
    {
        StatsLog { last_stats: ExecStats::default(), stats_logs: 0 }
    }

    /// Whether counters are worth logging: they have changed, or are among the first three that are looked at.
    pub fn is_due(&mut self, stats: ExecStats) -> (r: bool)
        requires
            old(self).stats_logs < u64::MAX,
        ensures
            old(self).logs(*final(self), stats, r),
    {
        self.stats_logs += 1;
        if stats != self.last_stats || self.stats_logs <= 3 {
            self.last_stats = stats;
            return true;
        }
        false
    }
}

/// Processes are taken in the order in which they came: one that is received is taken when all that waited before
/// it were taken.
pub proof fn lemma_first_come_first_taken(pending: Seq<OwnedProcess>, process: OwnedProcess, taken: int)
    requires
        0 <= taken <= pending.len(),
    ensures
        pending.push(process).skip(taken)[0] == (if taken < pending.len() {
            pending[taken]
        } else {
            process
        }),
{
}

/// What is read from the bytes of an event is that event.
pub proof fn lemma_event_same(event: RawExecEvent, decoded: RawExecEvent)
    requires
        is_event_in(decoded, event_bytes(event)),
    ensures
        decoded.pid == event.pid,
        decoded.parent_pid == event.parent_pid,
        decoded.flags == event.flags,
        decoded.filename_len == event.filename_len,
        decoded.comm@ == event.comm@,
        decoded.filename@ == event.filename@,
        event_name(decoded) == event_name(event),
        event_filename(decoded) == event_filename(event),
{
    lemma_event_read_back(event);
}

} // verus!
