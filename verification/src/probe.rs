//! What the probe in the kernel makes of a successful exec.

use vstd::prelude::*;

use crate::execsnoop;
use crate::execsnoop::{
    ExecStats, RawExecEvent, FILENAME_LEN, FLAG_FILENAME_MISSING, FLAG_FILENAME_TRUNCATED, FLAG_PARENT_PID_MISSING,
};
use crate::tracepoint::TracepointConfig;

verus! {

/// A filename that was copied out of the kernel.
pub struct FilenameReading {
    /// Number of bytes copied, without a trailing NUL.
    pub len: u32,
    /// The buffer that they were copied to.
    pub bytes: [u8; 256],
}

/// What was read when a process was started. Where a reading depends on another that is not there, it is not
/// looked at.
pub struct ExecReadings {
    /// What the probe was told of the running kernel.
    pub config: Option<TracepointConfig>,
    /// The process ID of the parent of the present task.
    pub parent_tgid: Option<i32>,
    /// The process ID at its offset in the tracepoint.
    pub pid: Option<u32>,
    /// The command name of the present task.
    pub comm: Option<[u8; 16]>,
    /// The location at its offset in the tracepoint: offset of the filename in the lower half, length in the upper.
    pub data_loc: Option<u32>,
    /// The filename at that location.
    pub filename: Option<FilenameReading>,
}

/// A counter after one more was counted.
pub open spec fn counted(n: u64) -> u64 {
    if n == u64::MAX {
        0
    } else {
        (n + 1) as u64
    }
}

/// A counter after one more was counted or not.
pub open spec fn counted_if(n: u64, count: bool) -> u64 {
    if count {
        counted(n)
    } else {
        n
    }
}

/// Whether the probe was told where to find the process ID and the filename.
pub open spec fn is_usable(config: TracepointConfig) -> bool {
    config.pid_offset != 0 && config.filename_offset != 0
}

/// The process ID of the parent: it is not known without the offsets, nor where it is not positive.
pub open spec fn parent_pid(config: TracepointConfig, tgid: Option<i32>) -> Option<u32> {
    match tgid {
        Some(tgid) if config.task_real_parent_offset != 0 && config.task_tgid_offset != 0 && tgid > 0 => Some(
            tgid as u32,
        ),
        _ => None,
    }
}

impl ExecReadings {
    /// The probe knows the running kernel.
    pub open spec fn configured(&self) -> bool {
        self.config is Some && is_usable(self.config->0)
    }

    /// The parent is not known.
    pub open spec fn parent_missing(&self) -> bool {
        parent_pid(self.config->0, self.parent_tgid) is None
    }

    /// There is an event to be emitted.
    pub open spec fn emits(&self) -> bool {
        self.configured() && self.pid is Some && self.data_loc is Some
    }

    /// The tracepoint has no filename.
    pub open spec fn no_filename(&self) -> bool {
        self.data_loc->0 % 0x1_0000 == 0 || self.data_loc->0 / 0x1_0000 == 0
    }

    /// The filename was copied.
    pub open spec fn copied(&self) -> bool {
        !self.no_filename() && self.filename is Some
    }

    /// The filename did not fit into the event.
    pub open spec fn truncated(&self) -> bool {
        self.copied() && (self.data_loc->0 / 0x1_0000 >= FILENAME_LEN || self.filename->0.len == FILENAME_LEN - 1)
    }

    /// Whether an event is the one to be emitted.
    pub open spec fn is_event(&self, event: RawExecEvent) -> bool {
        &&& self.pid == Some(event.pid)
        &&& event.parent_pid == (match parent_pid(self.config->0, self.parent_tgid) {
            Some(pid) => pid,
            None => 0,
        })
        &&& event.flags == (if self.parent_missing() {
            FLAG_PARENT_PID_MISSING
        } else {
            0
        }) + (if !self.copied() {
            FLAG_FILENAME_MISSING as int
        } else if self.truncated() {
            FLAG_FILENAME_TRUNCATED as int
        } else {
            0
        })
        &&& event.comm@ == (match self.comm {
            Some(comm) => comm@,
            None => Seq::new(16, |i: int| 0u8),
        })
        &&& event.filename_len == (if self.copied() {
            self.filename->0.len
        } else {
            0
        })
        &&& event.filename@ == (if self.copied() {
            self.filename->0.bytes@
        } else {
            Seq::new(256, |i: int| 0u8)
        })
    }

    /// The counters after the exec.
    pub open spec fn counters(&self, stats: ExecStats) -> ExecStats {
        ExecStats {
            entered: counted(stats.entered),
            missing_config: counted_if(stats.missing_config, self.config is None),
            invalid_config: counted_if(stats.invalid_config, self.config is Some && !self.configured()),
            parent_pid_failed: counted_if(stats.parent_pid_failed, self.configured() && self.parent_missing()),
            pid_read_failed: counted_if(stats.pid_read_failed, self.configured() && self.pid is None),
            filename_loc_read_failed: counted_if(
                stats.filename_loc_read_failed,
                self.configured() && self.pid is Some && self.data_loc is None,
            ),
            filename_missing: counted_if(stats.filename_missing, self.emits() && self.no_filename()),
            filename_read_failed: counted_if(
                stats.filename_read_failed,
                self.emits() && !self.no_filename() && self.filename is None,
            ),
            filename_truncated: counted_if(stats.filename_truncated, self.emits() && self.truncated()),
            ..stats
        }
    }
}

/// The process ID of the parent.
pub fn read_parent_pid(config: &TracepointConfig, tgid: Option<i32>) -> (r: Option<u32>)
    ensures
        r == parent_pid(*config, tgid),
{
    if config.task_real_parent_offset == 0 || config.task_tgid_offset == 0 {
        return None;
    }
    match tgid {
        Some(tgid) if tgid > 0 => Some(tgid as u32),
        _ => None,
    }
}

/// Counts what was read, and makes the event that is to be emitted, if there is one.
pub fn try_sched_process_exec(stats: &mut ExecStats, readings: &ExecReadings) -> (r: Option<RawExecEvent>)
    ensures
        *final(stats) == readings.counters(*old(stats)),
        r is Some <==> readings.emits(),
        r matches Some(event) ==> readings.is_event(event),
{
    stats.entered = stats.entered.wrapping_add(1);
    let config: &TracepointConfig = match &readings.config {
        Some(config) => config,
        None => {
            stats.missing_config = stats.missing_config.wrapping_add(1);
            return None;
        },
    };
    if config.pid_offset == 0 || config.filename_offset == 0 {
        stats.invalid_config = stats.invalid_config.wrapping_add(1);
        return None;
    }
    let (parent_pid, parent_missing): (u32, bool) = match read_parent_pid(config, readings.parent_tgid) {
        Some(pid) => (pid, false),
        None => (0, true),
    };
    if parent_missing {
        stats.parent_pid_failed = stats.parent_pid_failed.wrapping_add(1);
    }
    let pid: u32 = match readings.pid {
        Some(pid) => pid,
        None => {
            stats.pid_read_failed = stats.pid_read_failed.wrapping_add(1);
            return None;
        },
    };
    let mut event: RawExecEvent = RawExecEvent {
        pid,
        parent_pid,
        flags: if parent_missing {
            FLAG_PARENT_PID_MISSING
        } else {
            0
        },
        filename_len: 0,
        comm: match readings.comm {
            Some(comm) => comm,
            None => [0u8;16],
        },
        filename: [0u8;256],
    };
    proof {
        if readings.comm is None {
            assert(event.comm@ =~= Seq::new(16, |i: int| 0u8));
        }
        assert(event.filename@ =~= Seq::new(256, |i: int| 0u8));
    }
    let data_loc: u32 = match readings.data_loc {
        Some(data_loc) => data_loc,
        None => {
            stats.filename_loc_read_failed = stats.filename_loc_read_failed.wrapping_add(1);
            return None;
        },
    };
    let filename_offset: u32 = data_loc & 0xffff;
    let filename_len: u32 = data_loc >> 16;
    let flags: u32 = event.flags;
    proof {
        assert(data_loc & 0xffff == data_loc % 0x1_0000) by (bit_vector);
        assert(data_loc >> 16 == data_loc / 0x1_0000) by (bit_vector);
        assert(flags == 0 || flags == 2 ==> flags | 4 == flags + 4) by (bit_vector);
        assert(flags == 0 || flags == 2 ==> flags | 1 == flags + 1) by (bit_vector);
    }
    if filename_offset == 0 || filename_len == 0 {
        stats.filename_missing = stats.filename_missing.wrapping_add(1);
        event.flags = flags | FLAG_FILENAME_MISSING;
        return Some(event);
    }
    match &readings.filename {
        Some(copied) => {
            event.filename = copied.bytes;
            event.filename_len = copied.len;
            if filename_len >= FILENAME_LEN as u32 || copied.len == FILENAME_LEN as u32 - 1 {
                stats.filename_truncated = stats.filename_truncated.wrapping_add(1);
                event.flags = flags | FLAG_FILENAME_TRUNCATED;
            }
        },
        None => {
            stats.filename_read_failed = stats.filename_read_failed.wrapping_add(1);
            event.flags = flags | FLAG_FILENAME_MISSING;
        },
    }
    Some(event)
}

/// The counters after an event was emitted, or could not be.
pub open spec fn after_output(stats: ExecStats, emitted: bool) -> ExecStats {
    ExecStats {
        output_attempted: counted(stats.output_attempted),
        output_failed: counted_if(stats.output_failed, !emitted),
        ..stats
    }
}

/// Counts an event that was emitted, or that could not be.
pub fn output_event(stats: &mut ExecStats, emitted: bool)
    ensures
        *final(stats) == after_output(*old(stats), emitted),
{
    stats.output_attempted = stats.output_attempted.wrapping_add(1);
    if !emitted {
        stats.output_failed = stats.output_failed.wrapping_add(1);
    }
}

/// An event that the probe emits says by its flags what is missing: userspace gets a process out of it if and only
/// if the filename was copied, and that process has the filename as it was copied.
pub proof fn lemma_event_reaches_userspace(readings: ExecReadings, event: RawExecEvent)
    requires
        readings.emits(),
        readings.is_event(event),
    ensures
        execsnoop::filename_missing(event) <==> !readings.copied(),
        execsnoop::filename_truncated(event) <==> readings.truncated(),
        readings.copied() && readings.filename->0.len <= FILENAME_LEN ==> execsnoop::event_filename(event)
            == readings.filename->0.bytes@.take(readings.filename->0.len as int),
        event.parent_pid == 0 <==> readings.parent_missing(),
        event.flags / FLAG_PARENT_PID_MISSING % 2 == 1 <==> readings.parent_missing(),
{
}

} // verus!
