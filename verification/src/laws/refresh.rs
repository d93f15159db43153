//! Who is known after the processes were looked at anew, what is known of each, and what each is given.

use vstd::prelude::*;

use crate::assignment;
use crate::laws::processes;
use crate::laws::settings;
use crate::process;
use crate::process::Process;
use crate::refresh;
use crate::refresh::Scanned;
use crate::scheduler::TextMatcher;
use crate::service;
use crate::service::{Effects, Service};

verus! {

/// Whether a process of an ID stands in a table.
pub open spec fn stands_in(list: Seq<Process>, pid: u32) -> bool {
    exists|i: int| 0 <= i < list.len() && (#[trigger] list[i]).id == pid
}

/// Whether a process of an ID was seen alive.
pub open spec fn seen(scanned: Seq<Scanned>, pid: u32) -> bool {
    exists|i: int| 0 <= i < scanned.len() && (#[trigger] scanned[i]).process.id == pid
}

proof fn lemma_stands_in(list: Seq<Process>, pid: u32)
    ensures
        stands_in(list, pid) == process::known(list, pid),
{
    if stands_in(list, pid) {
        let i = choose|i: int| 0 <= i < list.len() && (#[trigger] list[i]).id == pid;
        assert(process::is_at(list, pid, i));
    }
    if process::known(list, pid) {
        let i = choose|i: int| process::is_at(list, pid, i);
        assert(list[i].id == pid);
    }
}

proof fn lemma_seen(scanned: Seq<Scanned>, pid: u32)
    ensures
        seen(scanned, pid) == refresh::is_found(refresh::processes_of(scanned), pid),
{
    let found = refresh::processes_of(scanned);
    if seen(scanned, pid) {
        let i = choose|i: int| 0 <= i < scanned.len() && (#[trigger] scanned[i]).process.id == pid;
        assert(found[i].id == pid);
    }
    if refresh::is_found(found, pid) {
        let i = choose|i: int| 0 <= i < found.len() && (#[trigger] found[i]).id == pid;
        assert(scanned[i].process.id == pid);
    }
}

/// A process that was seen alive is known afterwards, and so is each process that links led up to from it.
pub proof fn lemma_alive_kept(list: Seq<Process>, scanned: Seq<Scanned>, process: Process, chain: Seq<Process>, k: int)
    requires
        process::distinct(list),
        process::linked(list),
        forall|i: int| 0 <= i < scanned.len() ==> (#[trigger] scanned[i]).process.parent is None,
        list.contains(process),
        seen(scanned, process.id),
        processes::leads_up(list, process, chain),
    ensures
        stands_in(refresh::cleaned(list, scanned), process.id),
        stands_in(refresh::refreshed(list, scanned), process.id),
        0 <= k < chain.len() ==> stands_in(refresh::cleaned(list, scanned), chain[k].id) && stands_in(
            refresh::refreshed(list, scanned),
            chain[k].id,
        ),
{
    let found = refresh::processes_of(scanned);
    lemma_seen(scanned, process.id);
    refresh::lemma_dead_gone(list, scanned, process.id);
    lemma_stands_in(refresh::cleaned(list, scanned), process.id);
    lemma_stands_in(refresh::refreshed(list, scanned), process.id);
    if 0 <= k < chain.len() {
        let pid = chain[k].id;
        let kind = |a: Process| a.id == pid;
        assert(kind(chain[k]));
        processes::lemma_has_ancestor(list, process, chain, kind);
        processes::lemma_known(list, process.id);
        assert(process::lookup(list, process.id) == Some(process));
        assert(process::in_tree(list, process.id, pid));
        let i = choose|i: int| 0 <= i < found.len() && (#[trigger] found[i]).id == process.id;
        assert(process::in_tree(list, found[i].id, pid));
        assert(list.contains(chain[k]));
        let j = choose|j: int| 0 <= j < list.len() && list[j] == chain[k];
        assert(process::is_at(list, pid, j));
        refresh::lemma_dead_gone(list, scanned, pid);
        lemma_stands_in(refresh::cleaned(list, scanned), pid);
        lemma_stands_in(refresh::refreshed(list, scanned), pid);
    }
}

/// A new process that was seen alive is known afterwards.
pub proof fn lemma_new_known(list: Seq<Process>, scanned: Seq<Scanned>, pid: u32)
    requires
        process::distinct(list),
        seen(scanned, pid),
    ensures
        stands_in(refresh::cleaned(list, scanned), pid),
        stands_in(refresh::refreshed(list, scanned), pid),
{
    lemma_seen(scanned, pid);
    refresh::lemma_alive_known(list, scanned, pid);
    lemma_stands_in(refresh::cleaned(list, scanned), pid);
    lemma_stands_in(refresh::refreshed(list, scanned), pid);
}

/// Processes of which none was seen alive, and which no other process is linked to, are gone afterwards.
pub proof fn lemma_dead_dropped(list: Seq<Process>, scanned: Seq<Scanned>, dead: Set<u32>, pid: u32)
    requires
        process::distinct(list),
        process::linked(list),
        forall|i: int| 0 <= i < scanned.len() ==> (#[trigger] scanned[i]).process.parent is None,
        forall|i: int| 0 <= i < scanned.len() ==> !dead.contains((#[trigger] scanned[i]).process.id),
        forall|j: int|
            0 <= j < list.len() && (#[trigger] list[j]).parent is Some && dead.contains(list[j].parent->0)
                ==> dead.contains(list[j].id),
        dead.contains(pid),
    ensures
        !stands_in(refresh::cleaned(list, scanned), pid),
        !stands_in(refresh::refreshed(list, scanned), pid),
{
    let found = refresh::processes_of(scanned);
    lemma_seen(scanned, pid);
    refresh::lemma_dead_gone(list, scanned, pid);
    lemma_stands_in(refresh::cleaned(list, scanned), pid);
    lemma_stands_in(refresh::refreshed(list, scanned), pid);
    if seen(scanned, pid) {
        let i = choose|i: int| 0 <= i < scanned.len() && (#[trigger] scanned[i]).process.id == pid;
        assert(dead.contains(scanned[i].process.id));
    }
    if refresh::kept_alive(list, found, pid) {
        let i = choose|i: int| 0 <= i < found.len() && process::in_tree(list, (#[trigger] found[i]).id, pid);
        assert(found[i] == scanned[i].process);
        let id = found[i].id;
        assert(!dead.contains(id));
        processes::lemma_known(list, id);
        let entry = process::lookup(list, id)->0;
        let kind = |a: Process| a.id == pid;
        assert(process::has_ancestor(list, entry, kind));
        let n = choose|n: nat| (#[trigger] process::nth_ancestor(list, entry, n)) matches Some(a) && kind(a);
        lemma_ancestors_alive(list, entry, dead, n);
    }
}

proof fn lemma_ancestors_alive(list: Seq<Process>, process: Process, dead: Set<u32>, n: nat)
    requires
        process::distinct(list),
        forall|j: int|
            0 <= j < list.len() && (#[trigger] list[j]).parent is Some && dead.contains(list[j].parent->0)
                ==> dead.contains(list[j].id),
        list.contains(process),
        !dead.contains(process.id),
    ensures
        process::nth_ancestor(list, process, n) matches Some(a) ==> list.contains(a) && !dead.contains(a.id),
    decreases n,
{
    let from = if n == 0 {
        Some(process)
    } else {
        lemma_ancestors_alive(list, process, dead, (n - 1) as nat);
        process::nth_ancestor(list, process, (n - 1) as nat)
    };
    if let Some(p) = from {
        let j = choose|j: int| 0 <= j < list.len() && list[j] == p;
        assert(list[j].parent == p.parent);
        if let Some(parent) = p.parent {
            processes::lemma_known(list, parent);
        }
    }
}

/// A known process is added to, never replaced: what stands in the table before stays in its place, and behind it stand
/// those that were seen alive and were not known, each as it was seen first.
proof fn lemma_table(list: Seq<Process>, stale: Seq<u32>, found: Seq<Process>)
    requires
        process::distinct(list),
    ensures
        ({
            let table = refresh::scanned_in(list, stale, found).0;
            &&& list.len() <= table.len()
            &&& forall|i: int| 0 <= i < list.len() ==> #[trigger] table[i] == list[i]
            &&& forall|i: int|
                list.len() <= i < table.len() ==> !stands_in(list, (#[trigger] table[i]).id) && exists|s: int|
                    {
                        &&& 0 <= s < found.len()
                        &&& #[trigger] found[s] == table[i]
                        &&& forall|t: int| 0 <= t < s ==> (#[trigger] found[t]).id != table[i].id
                    }
            &&& forall|pid: u32| #[trigger] stands_in(table, pid) ==> stands_in(list, pid) || refresh::is_found(found, pid)
            &&& forall|t: int| 0 <= t < found.len() ==> stands_in(table, (#[trigger] found[t]).id)
        }),
    decreases found.len(),
{
    let table = refresh::scanned_in(list, stale, found).0;
    if found.len() > 0 {
        let head = found.drop_last();
        let alive = found.last();
        let before = refresh::scanned_in(list, stale, head).0;
        lemma_table(list, stale, head);
        lemma_stands_in(before, alive.id);
        assert(found[found.len() - 1].id == alive.id);
        assert forall|i: int| list.len() <= i < table.len() implies !stands_in(list, (#[trigger] table[i]).id) && exists|s: int|
            {
                &&& 0 <= s < found.len()
                &&& #[trigger] found[s] == table[i]
                &&& forall|t: int| 0 <= t < s ==> (#[trigger] found[t]).id != table[i].id
            } by {
            if i < before.len() {
                assert(table[i] == before[i]);
                let s = choose|s: int|
                    {
                        &&& 0 <= s < head.len()
                        &&& #[trigger] head[s] == before[i]
                        &&& forall|t: int| 0 <= t < s ==> (#[trigger] head[t]).id != before[i].id
                    };
                assert(found[s] == table[i]);
                assert forall|t: int| 0 <= t < s implies (#[trigger] found[t]).id != table[i].id by {
                    assert(head[t].id != before[i].id);
                }
            } else {
                let s = found.len() - 1;
                assert(found[s] == table[i]);
                assert forall|t: int| 0 <= t < s implies (#[trigger] found[t]).id != table[i].id by {
                    assert(stands_in(before, head[t].id));
                }
                if stands_in(list, alive.id) {
                    let j = choose|j: int| 0 <= j < list.len() && (#[trigger] list[j]).id == alive.id;
                    assert(before[j].id == alive.id);
                }
            }
        }
        assert forall|t: int| 0 <= t < found.len() implies stands_in(table, (#[trigger] found[t]).id) by {
            if t < head.len() {
                assert(head[t] == found[t]);
                let j = choose|j: int| 0 <= j < before.len() && (#[trigger] before[j]).id == head[t].id;
                assert(table[j].id == found[t].id);
            } else if stands_in(before, alive.id) {
                let j = choose|j: int| 0 <= j < before.len() && (#[trigger] before[j]).id == alive.id;
                assert(table[j].id == alive.id);
            } else {
                assert(table[before.len() as int].id == alive.id);
            }
        }
        assert forall|pid: u32| #[trigger] stands_in(table, pid) implies stands_in(list, pid) || refresh::is_found(
            found,
            pid,
        ) by {
            let j = choose|j: int| 0 <= j < table.len() && (#[trigger] table[j]).id == pid;
            if j < list.len() {
                assert(list[j].id == pid);
            } else {
                let s = choose|s: int| 0 <= s < found.len() && #[trigger] found[s] == table[j];
                assert(found[s].id == pid);
            }
        }
    }
}

/// What is known of a process after the processes were refreshed: one that was known stays what it was, but for its
/// link. One that was not known is what was seen of it first.
pub proof fn lemma_refreshed_process(list: Seq<Process>, scanned: Seq<Scanned>, k: int)
    requires
        process::distinct(list),
        0 <= k < refresh::refreshed(list, scanned).len(),
    ensures
        ({
            let now = refresh::refreshed(list, scanned)[k];
            ||| exists|i: int|
                0 <= i < list.len() && now == (Process { parent: now.parent, ..#[trigger] list[i] })
            ||| !stands_in(list, now.id) && exists|s: int|
                {
                    &&& 0 <= s < scanned.len()
                    &&& now == (Process { parent: now.parent, ..(#[trigger] scanned[s]).process })
                    &&& forall|t: int| 0 <= t < s ==> (#[trigger] scanned[t]).process.id != now.id
                }
        }),
{
    let all = list.map_values(|p: Process| p.id);
    let found = refresh::processes_of(scanned);
    let (table, stale) = refresh::scanned_in(list, all, found);
    let relinked = refresh::with_parents(table, refresh::parents_of(scanned));
    let now = refresh::refreshed(list, scanned)[k];
    lemma_table(list, all, found);
    let at = processes::lemma_dropped(relinked, stale);
    let i = at[k];
    assert(0 <= i < relinked.len());
    assert(now == (Process { parent: now.parent, ..relinked[i] }));
    assert(relinked[i] == (Process { parent: relinked[i].parent, ..table[i] }));
    if i < list.len() {
        assert(table[i] == list[i]);
        assert(now == (Process { parent: now.parent, ..list[i] }));
    } else {
        let s = choose|s: int|
            {
                &&& 0 <= s < found.len()
                &&& #[trigger] found[s] == table[i]
                &&& forall|t: int| 0 <= t < s ==> (#[trigger] found[t]).id != table[i].id
            };
        assert(found[s] == scanned[s].process);
        assert(now == (Process { parent: now.parent, ..scanned[s].process }));
        assert forall|t: int| 0 <= t < s implies (#[trigger] scanned[t]).process.id != now.id by {
            assert(found[t] == scanned[t].process);
            assert(found[t].id != table[i].id);
        }
    }
}

/// What is known of a process after dead ones were looked for: one that was known stays what it was, and loses its link
/// only when nobody stands there any more. One that was not known is what was seen of it first.
pub proof fn lemma_cleaned_process(list: Seq<Process>, scanned: Seq<Scanned>, k: int)
    requires
        process::distinct(list),
        0 <= k < refresh::cleaned(list, scanned).len(),
    ensures
        ({
            let now = refresh::cleaned(list, scanned)[k];
            ||| exists|i: int|
                {
                    &&& 0 <= i < list.len()
                    &&& now == (Process { parent: now.parent, ..#[trigger] list[i] })
                    &&& now.parent is None || now.parent == list[i].parent
                }
            ||| !stands_in(list, now.id) && exists|s: int|
                {
                    &&& 0 <= s < scanned.len()
                    &&& now == (Process { parent: now.parent, ..(#[trigger] scanned[s]).process })
                    &&& forall|t: int| 0 <= t < s ==> (#[trigger] scanned[t]).process.id != now.id
                }
        }),
{
    let all = list.map_values(|p: Process| p.id);
    let found = refresh::processes_of(scanned);
    let (table, stale) = refresh::scanned_in(list, all, found);
    let now = refresh::cleaned(list, scanned)[k];
    lemma_table(list, all, found);
    let at = processes::lemma_dropped(table, stale);
    let i = at[k];
    assert(0 <= i < table.len());
    assert(now == (Process { parent: now.parent, ..table[i] }));
    if i < list.len() {
        assert(table[i] == list[i]);
        assert(now == (Process { parent: now.parent, ..list[i] }));
    } else {
        let s = choose|s: int|
            {
                &&& 0 <= s < found.len()
                &&& #[trigger] found[s] == table[i]
                &&& forall|t: int| 0 <= t < s ==> (#[trigger] found[t]).id != table[i].id
            };
        assert(found[s] == scanned[s].process);
        assert(now == (Process { parent: now.parent, ..scanned[s].process }));
        assert forall|t: int| 0 <= t < s implies (#[trigger] scanned[t]).process.id != now.id by {
            assert(found[t] == scanned[t].process);
            assert(found[t].id != table[i].id);
        }
    }
}

/// The process that was last seen to have started another is the one that counts.
pub proof fn lemma_last_parent(scanned: Seq<Scanned>, pid: u32, s: int)
    requires
        -1 <= s < scanned.len(),
        s >= 0 ==> scanned[s].process.id == pid && scanned[s].parent is Some,
        forall|t: int| s < t < scanned.len() && (#[trigger] scanned[t]).process.id == pid ==> scanned[t].parent is None,
    ensures
        refresh::last_parent(refresh::parents_of(scanned), pid) == (if s >= 0 {
            scanned[s].parent
        } else {
            None
        }),
    decreases scanned.len(),
{
    if scanned.len() > 0 {
        let head = scanned.drop_last();
        let parents = refresh::parents_of(scanned);
        let before = refresh::parents_of(head);
        if s < head.len() {
            assert forall|t: int| s < t < head.len() && (#[trigger] head[t]).process.id == pid implies head[t].parent is None by {
                assert(scanned[t] == head[t]);
            }
            lemma_last_parent(head, pid, s);
            assert(scanned[scanned.len() - 1] == scanned.last());
        }
        if scanned.last().parent is Some {
            assert(parents.drop_last() =~= before);
        }
    }
}

/// After the processes were refreshed a process is linked to the one that was last seen to have started it, if that one
/// is known. If none was seen, it keeps its link to one that is still known, and loses its link to one that is not.
pub proof fn lemma_refreshed_link(list: Seq<Process>, scanned: Seq<Scanned>, k: int, s: int)
    requires
        process::distinct(list),
        process::linked(list),
        forall|i: int| 0 <= i < scanned.len() ==> (#[trigger] scanned[i]).process.parent is None,
        0 <= k < refresh::refreshed(list, scanned).len(),
        -1 <= s < scanned.len(),
        s >= 0 ==> scanned[s].process.id == refresh::refreshed(list, scanned)[k].id && scanned[s].parent is Some,
        forall|t: int|
            s < t < scanned.len() && (#[trigger] scanned[t]).process.id == refresh::refreshed(list, scanned)[k].id
                ==> scanned[t].parent is None,
    ensures
        ({
            let after = refresh::refreshed(list, scanned);
            let now = after[k];
            &&& s >= 0 && stands_in(after, scanned[s].parent->0) ==> now.parent == scanned[s].parent
            &&& s < 0 ==> forall|i: int|
                0 <= i < list.len() && (#[trigger] list[i]).id == now.id ==> now.parent == (if list[i].parent is Some
                    && stands_in(after, list[i].parent->0) {
                    list[i].parent
                } else {
                    None
                })
            &&& s < 0 && !stands_in(list, now.id) ==> now.parent is None
            &&& now.parent is Some ==> stands_in(after, now.parent->0)
        }),
{
    let all = list.map_values(|p: Process| p.id);
    let found = refresh::processes_of(scanned);
    let (table, stale) = refresh::scanned_in(list, all, found);
    let parents = refresh::parents_of(scanned);
    let relinked = refresh::with_parents(table, parents);
    let after = refresh::refreshed(list, scanned);
    let now = after[k];
    refresh::lemma_alive_known(list, scanned, now.id);
    lemma_table(list, all, found);
    let at = processes::lemma_dropped(relinked, stale);
    let i = at[k];
    let kept = |n: int| !stale.contains(relinked[n].id);
    assert(0 <= i < relinked.len() && kept(i));
    assert(now.id == relinked[i].id);
    lemma_last_parent(scanned, now.id, s);
    assert(relinked[i].id == table[i].id);
    // Who stands in the table and is not dropped stands in it afterwards, and nobody else does.
    assert forall|pid: u32| #[trigger] stands_in(after, pid) == (stands_in(table, pid) && !stale.contains(pid)) by {
        if stands_in(after, pid) {
            let n = choose|n: int| 0 <= n < after.len() && (#[trigger] after[n]).id == pid;
            assert(0 <= at[n] < relinked.len() && kept(at[n]));
            assert(table[at[n]].id == pid);
        }
        if stands_in(table, pid) && !stale.contains(pid) {
            let n = choose|n: int| 0 <= n < table.len() && (#[trigger] table[n]).id == pid;
            assert(kept(n));
            let m = choose|m: int| 0 <= m < at.len() && at[m] == n;
            assert(after[m].id == relinked[n].id);
        }
    }
    if s >= 0 {
        let pp = scanned[s].parent->0;
        lemma_stands_in(table, pp);
    }
    // Links in the table lead to processes in it.
    assert forall|n: int| 0 <= n < table.len() && (#[trigger] table[n]).parent is Some implies stands_in(
        table,
        table[n].parent->0,
    ) by {
        if n < list.len() {
            assert(table[n] == list[n]);
            let pp = list[n].parent->0;
            assert(process::known(list, pp));
            let m = choose|m: int| process::is_at(list, pp, m);
            assert(table[m].id == pp);
        } else {
            let q = choose|q: int| 0 <= q < found.len() && #[trigger] found[q] == table[n];
            assert(found[q] == scanned[q].process);
        }
    }
    if s < 0 {
        assert forall|n: int| 0 <= n < list.len() && (#[trigger] list[n]).id == now.id implies now.parent == (
        if list[n].parent is Some && stands_in(after, list[n].parent->0) {
            list[n].parent
        } else {
            None
        }) by {
            assert(table[n] == list[n]);
            lemma_one_place(list, all, found, i, n);
            assert(relinked[i] == table[i]);
            if list[n].parent is Some {
                assert(stands_in(table, list[n].parent->0));
            }
        }
        if !stands_in(list, now.id) {
            if i < list.len() {
                assert(list[i].id == now.id);
            }
            let q = choose|q: int| 0 <= q < found.len() && #[trigger] found[q] == table[i];
            assert(found[q] == scanned[q].process);
        }
    }
    if now.parent is Some {
        let pp = now.parent->0;
        lemma_stands_in(table, pp);
        assert(stands_in(table, pp));
    }
}

proof fn lemma_one_place(list: Seq<Process>, stale: Seq<u32>, found: Seq<Process>, i: int, n: int)
    requires
        process::distinct(list),
        0 <= i < refresh::scanned_in(list, stale, found).0.len(),
        0 <= n < list.len(),
        refresh::scanned_in(list, stale, found).0[i].id == list[n].id,
    ensures
        i == n,
{
    let table = refresh::scanned_in(list, stale, found).0;
    lemma_table(list, stale, found);
    if i >= list.len() {
        assert(!stands_in(list, table[i].id));
    } else {
        assert(table[i] == list[i]);
        if i < n {
            assert(list[i].id != list[n].id);
        }
        if n < i {
            assert(list[n].id != list[i].id);
        }
    }
}

/// What is recorded of a process that is seen alive is what was read of it: its IDs, its command line, its name and its
/// cgroup, of which the latter may be empty. Nobody stands for one that started it, and nothing is decided on it.
pub proof fn lemma_scan(
    scanned: Scanned,
    pid: u32,
    parent: Option<u32>,
    cmdline: String,
    name: String,
    cgroup: Option<String>,
)
    requires
        scanned.is_scan_of(pid, parent, cmdline, name, cgroup),
    ensures
        scanned.parent == parent,
        scanned.process.id == pid,
        parent is Some ==> scanned.process.parent_id == parent->0,
        parent is None ==> scanned.process.parent_id == 0,
        scanned.process.cmdline@ == cmdline@,
        scanned.process.name@ == name@,
        cgroup is Some ==> scanned.process.cgroup@ == cgroup->0@,
        cgroup is None ==> scanned.process.cgroup@.len() == 0,
        scanned.process.forked_name@.len() == 0,
        scanned.process.parent is None,
        scanned.process.assigned_priority is NotAssignable,
        scanned.process.pipewire_ancestor is None,
{
}

/// When dead processes are looked for, only the IDs of those alive are recorded.
pub proof fn lemma_bare_scan(scanned: Scanned, pid: u32, parent: Option<u32>)
    requires
        scanned.is_bare(pid, parent),
    ensures
        scanned.parent == parent,
        scanned.process.id == pid,
        parent is Some ==> scanned.process.parent_id == parent->0,
        parent is None ==> scanned.process.parent_id == 0,
        scanned.process.cmdline@ == Seq::<char>::empty(),
        scanned.process.name@ == Seq::<char>::empty(),
        scanned.process.cgroup@ == Seq::<char>::empty(),
        scanned.process.forked_name@ == Seq::<char>::empty(),
        scanned.process.parent is None,
        scanned.process.assigned_priority is NotAssignable,
        scanned.process.pipewire_ancestor is None,
{
}

impl<M: TextMatcher> Service<M> {
    /// After the processes were refreshed each of them is decided on, if it was not, and has a setting with the profile
    /// that it gets. Where the foreground is set apart, the last setting of an assignable process is the profile that it
    /// gets in the state that is reached.
    pub proof fn lemma_refresh_settings(&self, after: Service<M>, scanned: Seq<Scanned>, effects: Effects, i: int)
        requires
            after.wf(),
            self.refreshed_by(after, scanned, effects),
            0 <= i < after.process_map.processes@.len(),
        ensures
            effects.reconcile,
            after.config == self.config,
            after.cgroup_weights == self.cgroup_weights,
            after.foreground == self.foreground,
            after.pipewire_capture_processes == self.pipewire_capture_processes,
            after.pipewire_playback_processes == self.pipewire_playback_processes,
            after.gc_counter == self.gc_counter,
            after.eevdf_paths == self.eevdf_paths,
            after.process_map.stale@.len() == 0,
            self.config.process_scheduler.foreground is None ==> after.foreground_processes@
                == self.foreground_processes@,
            after.process_map.processes@.len() == refresh::refreshed(self.process_map.processes@, scanned).len(),
            after.process_map.processes@[i] == assignment::assigned(
                refresh::refreshed(self.process_map.processes@, scanned),
                refresh::refreshed(self.process_map.processes@, scanned)[i],
                self.config.process_scheduler.assignments,
            ),
            ({
                let list = after.process_map.processes@;
                let process = list[i];
                let shown = service::setting_views(effects.settings@);
                &&& self.config.process_scheduler.foreground is Some && process.assigned_priority is Assignable ==> {
                    &&& after.wanted(process) is Some
                    &&& exists|k: int|
                        {
                            &&& 0 <= k < shown.len()
                            &&& #[trigger] shown[k] == (process.id, after.wanted(process)->0)
                            &&& forall|j: int| k < j < shown.len() ==> (#[trigger] shown[j]).0 != process.id
                        }
                }
                &&& self.config.process_scheduler.foreground is None || !(process.assigned_priority is Assignable) ==> (
                match after.wanted(process) {
                    Some(wanted) => settings::one_setting(shown, process.id, wanted),
                    None => settings::no_setting(shown, process.id),
                })
                &&& self.config.process_scheduler.foreground is Some ==> (after.foreground_processes@.contains(process.id)
                    <==> after.in_front(process))
            }),
    {
        let list = after.process_map.processes@;
        let process = list[i];
        let assigned = Service { foreground_processes: self.foreground_processes, ..after };
        let first_profile = |p: Process| assigned.wanted(p);
        let second_profile = |p: Process| after.foreground_profile(p);
        let first = service::settings_for(list, first_profile);
        let second = service::settings_for(list, second_profile);
        let shown = service::setting_views(effects.settings@);
        let front = |p: Process| after.in_front(p);
        settings::lemma_setting_of(list, first_profile, i);
        settings::lemma_setting_of(list, second_profile, i);
        settings::lemma_listed(list, front, i);
        if self.config.process_scheduler.foreground is Some {
            assert(shown == first + second);
            if process.assigned_priority is Assignable {
                assert(second_profile(process) == after.wanted(process));
                let k = choose|k: int|
                    {
                        &&& 0 <= k < second.len()
                        &&& #[trigger] second[k] == (process.id, after.wanted(process)->0)
                        &&& forall|j: int| 0 <= j < second.len() && j != k ==> (#[trigger] second[j]).0 != process.id
                    };
                let n = first.len() + k;
                assert(shown[n] == second[k]);
                assert forall|j: int| n < j < shown.len() implies (#[trigger] shown[j]).0 != process.id by {
                    assert(shown[j] == second[j - first.len()]);
                }
            } else {
                assert(first_profile(process) == after.wanted(process));
                assert(second_profile(process) is None);
                lemma_joined(first, second, process.id);
            }
        } else {
            assert(shown =~= first);
            assert(after.wanted(process) == first_profile(process));
        }
    }
}

proof fn lemma_joined(
    first: Seq<(u32, crate::scheduler::ProfileView)>,
    second: Seq<(u32, crate::scheduler::ProfileView)>,
    pid: u32,
)
    requires
        settings::no_setting(second, pid),
    ensures
        settings::no_setting(first, pid) ==> settings::no_setting(first + second, pid),
        forall|p: crate::scheduler::ProfileView| #[trigger]
            settings::one_setting(first, pid, p) ==> settings::one_setting(first + second, pid, p),
{
    let both = first + second;
    assert forall|j: int| first.len() <= j < both.len() implies (#[trigger] both[j]).0 != pid by {
        assert(both[j] == second[j - first.len()]);
    }
    assert forall|p: crate::scheduler::ProfileView| #[trigger] settings::one_setting(first, pid, p) implies settings::one_setting(
        both,
        pid,
        p,
    ) by {
        let k = choose|k: int|
            {
                &&& 0 <= k < first.len()
                &&& #[trigger] first[k] == (pid, p)
                &&& forall|j: int| 0 <= j < first.len() && j != k ==> (#[trigger] first[j]).0 != pid
            };
        assert(both[k] == (pid, p));
        assert forall|j: int| 0 <= j < both.len() && j != k implies (#[trigger] both[j]).0 != pid by {
            if j < first.len() {
                assert(both[j] == first[j]);
            }
        }
    }
    if settings::no_setting(first, pid) {
        assert forall|j: int| 0 <= j < both.len() implies (#[trigger] both[j]).0 != pid by {
            if j < first.len() {
                assert(both[j] == first[j]);
            }
        }
    }
}

} // verus!
