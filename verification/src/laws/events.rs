//! What the probe says of a process that was started, what is counted, and what userspace makes of it.

use vstd::prelude::*;

use crate::bytes;
use crate::execsnoop;
use crate::execsnoop::{ExecStats, PendingProcesses, RawExecEvent, Received, StatsLog};
use crate::probe;
use crate::probe::ExecReadings;

verus! {

/// Whether the ID of the parent can be told: both offsets are set, and a positive number was read.
pub open spec fn parent_told(readings: ExecReadings) -> bool {
    let config = readings.config->0;
    config.task_real_parent_offset != 0 && config.task_tgid_offset != 0 && readings.parent_tgid is Some
        && readings.parent_tgid->0 > 0
}

/// Whether a filename is where the tracepoint says: not at its beginning, and not empty.
pub open spec fn filename_told(readings: ExecReadings) -> bool {
    readings.data_loc->0 % 0x1_0000 != 0 && readings.data_loc->0 >= 0x1_0000
}

/// There is an event when the offsets of the tracepoint are set and the process ID and the place of the filename were
/// read.
pub proof fn lemma_emits(readings: ExecReadings)
    ensures
        readings.emits() <==> readings.config is Some && readings.config->0.pid_offset != 0
            && readings.config->0.filename_offset != 0 && readings.pid is Some && readings.data_loc is Some,
{
}

/// The event has the IDs and the name that were read. A parent that cannot be told is zero, and is marked. So is a
/// filename that is not there or could not be read, which is empty, and one that is as long as there is room for.
pub proof fn lemma_event(readings: ExecReadings, event: RawExecEvent)
    requires
        readings.emits(),
        readings.is_event(event),
    ensures
        event.pid == readings.pid->0,
        parent_told(readings) ==> event.parent_pid == readings.parent_tgid->0,
        !parent_told(readings) ==> event.parent_pid == 0,
        event.flags / 2 % 2 == (if parent_told(readings) {
            0int
        } else {
            1
        }),
        event.flags / 4 % 2 == (if filename_told(readings) && readings.filename is Some {
            0int
        } else {
            1
        }),
        event.flags % 2 == (if filename_told(readings) && readings.filename is Some && (readings.data_loc->0 / 0x1_0000
            >= 256 || readings.filename->0.len == 255) {
            1int
        } else {
            0
        }),
        event.flags < 8,
        readings.comm is Some ==> event.comm@ == readings.comm->0@,
        readings.comm is None ==> forall|i: int| 0 <= i < 16 ==> event.comm@[i] == 0,
        filename_told(readings) && readings.filename is Some ==> event.filename@ == readings.filename->0.bytes@
            && event.filename_len == readings.filename->0.len,
        !filename_told(readings) || readings.filename is None ==> event.filename_len == 0 && forall|i: int|
            0 <= i < 256 ==> event.filename@[i] == 0,
{
}

/// How much a counter went up.
pub open spec fn added(before: u64, after: u64) -> int {
    if after >= before {
        after - before
    } else {
        after - before + 0x1_0000_0000_0000_0000
    }
}

/// Every entry is counted once, and once more as what became of it: no configuration, one that is not set, a process ID
/// or a place of the filename that could not be read, or an event. What is missing in an event is counted as well.
pub proof fn lemma_counted(readings: ExecReadings, stats: ExecStats)
    ensures
        ({
            let after = readings.counters(stats);
            let usable = readings.config is Some && readings.config->0.pid_offset != 0
                && readings.config->0.filename_offset != 0;
            &&& added(stats.entered, after.entered) == 1
            &&& added(stats.missing_config, after.missing_config) == (if readings.config is None {
                1int
            } else {
                0
            })
            &&& added(stats.invalid_config, after.invalid_config) == (if readings.config is Some && !usable {
                1int
            } else {
                0
            })
            &&& added(stats.pid_read_failed, after.pid_read_failed) == (if usable && readings.pid is None {
                1int
            } else {
                0
            })
            &&& added(stats.parent_pid_failed, after.parent_pid_failed) == (if usable && !parent_told(readings) {
                1int
            } else {
                0
            })
            &&& added(stats.filename_loc_read_failed, after.filename_loc_read_failed) == (if usable && readings.pid is Some
                && readings.data_loc is None {
                1int
            } else {
                0
            })
            &&& added(stats.filename_missing, after.filename_missing) == (if readings.emits() && !filename_told(
                readings,
            ) {
                1int
            } else {
                0
            })
            &&& added(stats.filename_read_failed, after.filename_read_failed) == (if readings.emits() && filename_told(
                readings,
            ) && readings.filename is None {
                1int
            } else {
                0
            })
            &&& added(stats.filename_truncated, after.filename_truncated) == (if readings.emits() && filename_told(
                readings,
            ) && readings.filename is Some && (readings.data_loc->0 / 0x1_0000 >= 256 || readings.filename->0.len
                == 255) {
                1int
            } else {
                0
            })
            &&& after.output_attempted == stats.output_attempted
            &&& after.output_failed == stats.output_failed
            &&& 1 == added(stats.missing_config, after.missing_config) + added(stats.invalid_config, after.invalid_config)
                + added(stats.pid_read_failed, after.pid_read_failed) + added(
                stats.filename_loc_read_failed,
                after.filename_loc_read_failed,
            ) + (if readings.emits() {
                1int
            } else {
                0
            })
        }),
{
}

/// Every attempt to emit an event is counted, and so is every one that fails. Nothing else changes.
pub proof fn lemma_output_counted(stats: ExecStats, emitted: bool)
    ensures
        ({
            let after = probe::after_output(stats, emitted);
            &&& added(stats.output_attempted, after.output_attempted) == 1
            &&& added(stats.output_failed, after.output_failed) == (if emitted {
                0int
            } else {
                1
            })
            &&& after == (ExecStats {
                output_attempted: after.output_attempted,
                output_failed: after.output_failed,
                ..stats
            })
        }),
{
}

/// The name of a process is what stands before the first NUL, or all of it. Its filename is as long as the event says,
/// and no longer than there is room for.
pub proof fn lemma_names(event: RawExecEvent, n: int)
    requires
        0 <= n <= 16,
        forall|i: int| 0 <= i < n ==> event.comm@[i] != 0,
        n < 16 ==> event.comm@[n] == 0,
    ensures
        execsnoop::event_name(event) == event.comm@.take(n),
        event.filename_len <= 256 ==> execsnoop::event_filename(event) == event.filename@.take(
            event.filename_len as int,
        ),
        event.filename_len > 256 ==> execsnoop::event_filename(event) == event.filename@,
{
    bytes::lemma_until_nul(event.comm@, n);
    assert(event.filename@.take(256) =~= event.filename@);
}

/// The marks of an event are bits of its flags.
pub proof fn lemma_marks(event: RawExecEvent)
    ensures
        execsnoop::filename_missing(event) <==> event.flags & 4 != 0,
        execsnoop::filename_truncated(event) <==> event.flags & 1 != 0,
{
    let flags = event.flags;
    assert((flags & 4 != 0) == (flags / 4 % 2 == 1)) by (bit_vector);
    assert((flags & 1 != 0) == (flags % 2 == 1)) by (bit_vector);
}

/// Where the parts of an event stand in its bytes.
pub proof fn lemma_places(event: RawExecEvent, s: Seq<u8>)
    requires
        s.len() == 288,
        execsnoop::is_event_in(event, s),
    ensures
        event.pid == s[0] + 0x100 * s[1] + 0x1_0000 * s[2] + 0x100_0000 * s[3],
        event.parent_pid == s[4] + 0x100 * s[5] + 0x1_0000 * s[6] + 0x100_0000 * s[7],
        event.flags == s[8] + 0x100 * s[9] + 0x1_0000 * s[10] + 0x100_0000 * s[11],
        event.filename_len == s[12] + 0x100 * s[13] + 0x1_0000 * s[14] + 0x100_0000 * s[15],
        forall|i: int| 0 <= i < 16 ==> event.comm@[i] == s[16 + i],
        forall|i: int| 0 <= i < 256 ==> event.filename@[i] == s[32 + i],
{
}

/// An event that is received is a process that waits behind the others, with its IDs, its name and its filename, unless
/// it is marked as having no filename. Then, and when the bytes are no event, nobody is added.
pub proof fn lemma_received(before: PendingProcesses, after: PendingProcesses, event: RawExecEvent, r: Received)
    requires
        before.takes_in(after, execsnoop::event_bytes(event), r),
    ensures
        event.flags & 4 != 0 ==> r == (Received::Nameless { pid: event.pid, truncated: event.flags & 1 != 0 })
            && after.pending@ == before.pending@,
        event.flags & 4 == 0 ==> {
            let last = after.pending@.last();
            &&& r == (Received::Queued { pid: event.pid, truncated: event.flags & 1 != 0 })
            &&& after.pending@.len() == before.pending@.len() + 1
            &&& after.pending@.drop_last() == before.pending@
            &&& last.pid == event.pid
            &&& last.parent_pid == event.parent_pid
            &&& last.name@ == execsnoop::event_name(event)
            &&& last.cmd@ == execsnoop::event_filename(event)
        },
{
    let s = execsnoop::event_bytes(event);
    execsnoop::lemma_event_read_back(event);
    let found = choose|found: RawExecEvent|
        #![trigger execsnoop::is_event_in(found, s)]
        execsnoop::is_event_in(found, s) && r == (if execsnoop::filename_missing(found) {
            Received::Nameless { pid: found.pid, truncated: execsnoop::filename_truncated(found) }
        } else {
            Received::Queued { pid: found.pid, truncated: execsnoop::filename_truncated(found) }
        }) && (r is Queued ==> after.pending@.len() == before.pending@.len() + 1 && execsnoop::is_process_of(
            after.pending@.last(),
            found,
        ));
    execsnoop::lemma_event_same(event, found);
    lemma_marks(found);
}

/// Bytes of another length are no event.
pub proof fn lemma_malformed(before: PendingProcesses, after: PendingProcesses, s: Seq<u8>, r: Received)
    requires
        before.takes_in(after, s, r),
        s.len() != 288,
    ensures
        r == Received::Malformed,
        after.pending@ == before.pending@,
{
}

/// Counters are logged when they have changed since they were logged, and the first three times in any case. When they
/// are asked for again without a change, they are not.
pub proof fn lemma_logged(log: StatsLog, once: StatsLog, twice: StatsLog, stats: ExecStats, first: bool, second: bool)
    requires
        log.logs(once, stats, first),
        once.logs(twice, stats, second),
    ensures
        stats != log.last_stats ==> first,
        log.stats_logs < 3 ==> first,
        stats == log.last_stats && log.stats_logs >= 3 ==> !first,
        first ==> once.last_stats == stats,
        log.stats_logs >= 2 ==> !second,
        once.stats_logs == log.stats_logs + 1,
        twice.last_stats == stats,
{
}

} // verus!
