//! Who is known, who started whom, and who is dropped.

use vstd::prelude::*;

use crate::process;
use crate::process::Process;

verus! {

/// Whether known processes lead upwards from a process, each the one that started the one before.
pub open spec fn leads_up(list: Seq<Process>, process: Process, chain: Seq<Process>) -> bool {
    forall|k: int|
        0 <= k < chain.len() ==> list.contains(#[trigger] chain[k]) && (if k == 0 {
            process.parent
        } else {
            chain[k - 1].parent
        }) == Some(chain[k].id)
}

/// Whether known processes lead upwards from a process to one that has no link.
pub open spec fn leads_to_top(list: Seq<Process>, process: Process, chain: Seq<Process>) -> bool {
    &&& leads_up(list, process, chain)
    &&& (if chain.len() == 0 {
        process.parent
    } else {
        chain.last().parent
    }) is None
}

/// A process is known when it stands in the table, and it is the one that is found. No other is.
pub proof fn lemma_known(list: Seq<Process>, pid: u32)
    requires
        forall|i: int, j: int| 0 <= i < j < list.len() ==> (#[trigger] list[i]).id != (#[trigger] list[j]).id,
    ensures
        process::known(list, pid) <==> exists|i: int| 0 <= i < list.len() && (#[trigger] list[i]).id == pid,
        forall|p: Process| #[trigger] list.contains(p) && p.id == pid ==> process::lookup(list, pid) == Some(p),
        process::lookup(list, pid) is None <==> forall|i: int| 0 <= i < list.len() ==> (#[trigger] list[i]).id != pid,
        process::lookup(list, pid) matches Some(p) ==> list.contains(p) && p.id == pid,
{
    if process::known(list, pid) {
        let i = choose|i: int| process::is_at(list, pid, i);
        assert(list[i].id == pid);
        assert(list.contains(list[i]));
    }
    if exists|i: int| 0 <= i < list.len() && (#[trigger] list[i]).id == pid {
        let i = choose|i: int| 0 <= i < list.len() && (#[trigger] list[i]).id == pid;
        assert(process::is_at(list, pid, i));
    }
    assert forall|p: Process| #[trigger] list.contains(p) && p.id == pid implies process::lookup(list, pid) == Some(
        p,
    ) by {
        let i = choose|i: int| 0 <= i < list.len() && list[i] == p;
        process::lemma_position(list, i);
    }
}

/// The parent of a process is the known process that it is linked to.
pub proof fn lemma_parent(list: Seq<Process>, process: Process, parent: Process)
    requires
        process::distinct(list),
    ensures
        list.contains(parent) && process.parent == Some(parent.id) ==> process::parent_of(list, process) == Some(parent),
        process.parent is None ==> process::parent_of(list, process) is None,
        process::parent_of(list, process) == Some(parent) ==> list.contains(parent) && process.parent == Some(
            parent.id,
        ),
{
    if let Some(pid) = process.parent {
        lemma_known(list, pid);
    }
}

/// The ancestors of a process are those that links lead up to, in that order.
pub proof fn lemma_chain(list: Seq<Process>, process: Process, chain: Seq<Process>, k: int)
    requires
        process::distinct(list),
        leads_up(list, process, chain),
        0 <= k < chain.len(),
    ensures
        process::nth_ancestor(list, process, k as nat) == Some(chain[k]),
    decreases k,
{
    assert(list.contains(chain[k]));
    if k == 0 {
        lemma_parent(list, process, chain[0]);
    } else {
        lemma_chain(list, process, chain, k - 1);
        lemma_parent(list, chain[k - 1], chain[k]);
    }
}

/// Above a process without a link there is no ancestor.
pub proof fn lemma_top(list: Seq<Process>, process: Process, chain: Seq<Process>, n: nat)
    requires
        process::distinct(list),
        leads_to_top(list, process, chain),
        n >= chain.len(),
    ensures
        process::nth_ancestor(list, process, n) is None,
    decreases n,
{
    if n > chain.len() {
        lemma_top(list, process, chain, (n - 1) as nat);
    } else if n > 0 {
        lemma_chain(list, process, chain, n - 1);
    }
}

/// A process has an ancestor of a kind if links lead up to one. Where they end, it has no other.
pub proof fn lemma_has_ancestor(
    list: Seq<Process>,
    process: Process,
    chain: Seq<Process>,
    kind: spec_fn(Process) -> bool,
)
    requires
        process::distinct(list),
        leads_up(list, process, chain),
    ensures
        (exists|k: int| 0 <= k < chain.len() && kind(#[trigger] chain[k])) ==> process::has_ancestor(list, process, kind),
        leads_to_top(list, process, chain) && (forall|k: int| 0 <= k < chain.len() ==> !kind(#[trigger] chain[k]))
            ==> !process::has_ancestor(list, process, kind),
{
    if exists|k: int| 0 <= k < chain.len() && kind(#[trigger] chain[k]) {
        let k = choose|k: int| 0 <= k < chain.len() && kind(#[trigger] chain[k]);
        lemma_chain(list, process, chain, k);
        assert(process::nth_ancestor(list, process, k as nat) matches Some(ancestor) && kind(ancestor));
    }
    if leads_to_top(list, process, chain) && process::has_ancestor(list, process, kind) {
        let n = choose|n: nat|
            (#[trigger] process::nth_ancestor(list, process, n)) matches Some(ancestor) && kind(ancestor);
        if n < chain.len() {
            lemma_chain(list, process, chain, n as int);
        } else {
            lemma_top(list, process, chain, n);
        }
    }
}

/// The nearest ancestor of a kind is the first of that kind that links lead up to.
pub proof fn lemma_nearest(
    list: Seq<Process>,
    process: Process,
    chain: Seq<Process>,
    kind: spec_fn(Process) -> bool,
    k: int,
)
    requires
        process::distinct(list),
        leads_up(list, process, chain),
        0 <= k < chain.len(),
        kind(chain[k]),
        forall|j: int| 0 <= j < k ==> !kind(#[trigger] chain[j]),
    ensures
        process::nearest_ancestor(list, process, kind) == Some(chain[k]),
{
    lemma_chain(list, process, chain, k);
    assert forall|m: nat| m < k implies ((#[trigger] process::nth_ancestor(list, process, m)) matches Some(nearer)
        ==> !kind(nearer)) by {
        lemma_chain(list, process, chain, m as int);
        assert(!kind(chain[m as int]));
    }
    assert(process::is_nearest(list, process, kind, k as nat));
    process::lemma_nearest(list, process, kind, k as nat);
}

/// Where links lead up to none of a kind, there is no nearest ancestor of it.
pub proof fn lemma_none_near(
    list: Seq<Process>,
    process: Process,
    chain: Seq<Process>,
    kind: spec_fn(Process) -> bool,
)
    requires
        process::distinct(list),
        leads_to_top(list, process, chain),
        forall|k: int| 0 <= k < chain.len() ==> !kind(#[trigger] chain[k]),
    ensures
        process::nearest_ancestor(list, process, kind) is None,
{
    lemma_has_ancestor(list, process, chain, kind);
    assert forall|n: nat| !process::is_nearest(list, process, kind, n) by {
        if process::is_nearest(list, process, kind, n) {
            assert(process::nth_ancestor(list, process, n) matches Some(ancestor) && kind(ancestor));
        }
    }
}

/// Whether positions are increasing and are those of a kind.
pub open spec fn picks(at: Seq<int>, len: nat, kind: spec_fn(int) -> bool) -> bool {
    &&& forall|k: int| 0 <= k < at.len() ==> 0 <= #[trigger] at[k] < len && kind(at[k])
    &&& forall|j: int, k: int| 0 <= j < k < at.len() ==> #[trigger] at[j] < #[trigger] at[k]
    &&& forall|i: int| 0 <= i < len && #[trigger] kind(i) ==> at.contains(i)
}

/// Positions that are picked go on being picked when one more place is looked at.
pub proof fn lemma_picks_more(at: Seq<int>, len: nat, kind: spec_fn(int) -> bool)
    requires
        picks(at, len, kind),
    ensures
        kind(len as int) ==> picks(at.push(len as int), len + 1, kind),
        !kind(len as int) ==> picks(at, len + 1, kind),
{
    let more = at.push(len as int);
    if kind(len as int) {
        assert forall|i: int| 0 <= i < len + 1 && #[trigger] kind(i) implies more.contains(i) by {
            if i == len {
                assert(more[at.len() as int] == i);
            } else {
                let k = choose|k: int| 0 <= k < at.len() && at[k] == i;
                assert(more[k] == i);
            }
        }
    }
}

/// What is left when processes are dropped: each of the others, in order, with nothing changed but its link to one
/// that is dropped, which is cut. Gives the positions at which they stood.
pub proof fn lemma_dropped(list: Seq<Process>, dropped: Seq<u32>) -> (at: Seq<int>)
    ensures
        picks(at, list.len(), |i: int| !dropped.contains(list[i].id)),
        at.len() == process::survivors(list, dropped).len(),
        forall|k: int|
            0 <= k < at.len() ==> #[trigger] process::survivors(list, dropped)[k] == (Process {
                parent: if list[at[k]].parent matches Some(parent) && dropped.contains(parent) {
                    None
                } else {
                    list[at[k]].parent
                },
                ..list[at[k]]
            }),
    decreases list.len(),
{
    let kind = |i: int| !dropped.contains(list[i].id);
    let left = process::survivors(list, dropped);
    if list.len() == 0 {
        Seq::empty()
    } else {
        let head = list.drop_last();
        let n = head.len();
        let head_kind = |i: int| !dropped.contains(head[i].id);
        let before = process::survivors(head, dropped);
        let at = lemma_dropped(head, dropped);
        assert(picks(at, n, kind)) by {
            assert forall|k: int| 0 <= k < at.len() implies 0 <= #[trigger] at[k] < n && kind(at[k]) by {
                assert(head_kind(at[k]));
            }
            assert forall|i: int| 0 <= i < n && #[trigger] kind(i) implies at.contains(i) by {
                assert(head_kind(i));
            }
        }
        lemma_picks_more(at, n, kind);
        let more = if kind(n as int) {
            at.push(n as int)
        } else {
            at
        };
        assert forall|k: int| 0 <= k < more.len() implies #[trigger] left[k] == (Process {
            parent: if list[more[k]].parent matches Some(parent) && dropped.contains(parent) {
                None
            } else {
                list[more[k]].parent
            },
            ..list[more[k]]
        }) by {
            if k < at.len() {
                assert(head[at[k]] == list[at[k]]);
                assert(left[k] == before[k]);
            }
        }
        more
    }
}

} // verus!
