//! Which settings and which lists of processes follow from what each process gets.

use vstd::prelude::*;

use crate::laws::processes;
use crate::process;
use crate::process::Process;
use crate::scheduler;
use crate::service;

verus! {

/// There is one setting for each process that gets a profile, with its ID and that profile, in the order of the
/// processes. Gives the positions of those processes.
pub proof fn lemma_settings(list: Seq<Process>, profile: spec_fn(Process) -> Option<scheduler::ProfileView>) -> (at:
    Seq<int>)
    ensures
        processes::picks(at, list.len(), |i: int| profile(list[i]) is Some),
        at.len() == service::settings_for(list, profile).len(),
        forall|k: int|
            0 <= k < at.len() ==> {
                &&& (#[trigger] service::settings_for(list, profile)[k]).0 == list[at[k]].id
                &&& Some(service::settings_for(list, profile)[k].1) == profile(list[at[k]])
            },
    decreases list.len(),
{
    let kind = |i: int| profile(list[i]) is Some;
    let settings = service::settings_for(list, profile);
    if list.len() == 0 {
        Seq::empty()
    } else {
        let head = list.drop_last();
        let n = head.len();
        let head_kind = |i: int| profile(head[i]) is Some;
        let before = service::settings_for(head, profile);
        let at = lemma_settings(head, profile);
        assert(processes::picks(at, n, kind)) by {
            assert forall|k: int| 0 <= k < at.len() implies 0 <= #[trigger] at[k] < n && kind(at[k]) by {
                assert(head_kind(at[k]));
            }
            assert forall|i: int| 0 <= i < n && #[trigger] kind(i) implies at.contains(i) by {
                assert(head_kind(i));
            }
        }
        processes::lemma_picks_more(at, n, kind);
        let more = if kind(n as int) {
            at.push(n as int)
        } else {
            at
        };
        assert forall|k: int| 0 <= k < more.len() implies (#[trigger] settings[k]).0 == list[more[k]].id && Some(
            settings[k].1,
        ) == profile(list[more[k]]) by {
            if k < at.len() {
                assert(head[at[k]] == list[at[k]]);
                assert(settings[k] == before[k]);
            }
        }
        more
    }
}

/// A process that gets a profile has exactly one setting, with that profile. One that gets none has no setting.
pub proof fn lemma_setting_of(
    list: Seq<Process>,
    profile: spec_fn(Process) -> Option<scheduler::ProfileView>,
    i: int,
)
    requires
        process::distinct(list),
        0 <= i < list.len(),
    ensures
        profile(list[i]) matches Some(wanted) ==> one_setting(
            service::settings_for(list, profile),
            list[i].id,
            wanted,
        ),
        profile(list[i]) is None ==> no_setting(service::settings_for(list, profile), list[i].id),
{
    let settings = service::settings_for(list, profile);
    let kind = |j: int| profile(list[j]) is Some;
    let at = lemma_settings(list, profile);
    assert forall|k: int| 0 <= k < settings.len() && (#[trigger] settings[k]).0 == list[i].id implies at[k] == i by {
        assert(0 <= at[k] < list.len());
        if at[k] < i {
            assert(list[at[k]].id != list[i].id);
        }
        if i < at[k] {
            assert(list[i].id != list[at[k]].id);
        }
    }
    if profile(list[i]) is Some {
        assert(kind(i));
        let k = choose|k: int| 0 <= k < at.len() && at[k] == i;
        assert(settings[k].0 == list[i].id && Some(settings[k].1) == profile(list[i]));
        assert forall|j: int| 0 <= j < settings.len() && j != k implies (#[trigger] settings[j]).0 != list[i].id by {
            if settings[j].0 == list[i].id {
                assert(at[j] == i);
                if j < k {
                    assert(at[j] < at[k]);
                } else {
                    assert(at[k] < at[j]);
                }
            }
        }
    } else {
        assert forall|k: int| 0 <= k < settings.len() implies (#[trigger] settings[k]).0 != list[i].id by {
            if settings[k].0 == list[i].id {
                assert(kind(at[k]));
            }
        }
    }
}

/// A process that is not known has no setting.
pub proof fn lemma_no_stranger(list: Seq<Process>, profile: spec_fn(Process) -> Option<scheduler::ProfileView>, pid: u32)
    requires
        forall|i: int| 0 <= i < list.len() ==> (#[trigger] list[i]).id != pid,
    ensures
        no_setting(service::settings_for(list, profile), pid),
{
    let settings = service::settings_for(list, profile);
    let at = lemma_settings(list, profile);
    assert forall|k: int| 0 <= k < settings.len() implies (#[trigger] settings[k]).0 != pid by {
        assert(0 <= at[k] < list.len());
        assert(list[at[k]].id != pid);
    }
}

/// Whether there is exactly one setting of a process, and it has the given profile.
pub open spec fn one_setting(
    settings: Seq<(u32, scheduler::ProfileView)>,
    pid: u32,
    profile: scheduler::ProfileView,
) -> bool {
    exists|k: int|
        {
            &&& 0 <= k < settings.len()
            &&& #[trigger] settings[k] == (pid, profile)
            &&& forall|j: int| 0 <= j < settings.len() && j != k ==> (#[trigger] settings[j]).0 != pid
        }
}

/// Whether there is no setting of a process.
pub open spec fn no_setting(settings: Seq<(u32, scheduler::ProfileView)>, pid: u32) -> bool {
    forall|k: int| 0 <= k < settings.len() ==> (#[trigger] settings[k]).0 != pid
}

/// The IDs of processes of a kind are those of each of them, in their order. Gives their positions.
pub proof fn lemma_ids(list: Seq<Process>, kind: spec_fn(Process) -> bool) -> (at: Seq<int>)
    ensures
        processes::picks(at, list.len(), |i: int| kind(list[i])),
        at.len() == service::ids_of(list, kind).len(),
        forall|k: int| 0 <= k < at.len() ==> #[trigger] service::ids_of(list, kind)[k] == list[at[k]].id,
    decreases list.len(),
{
    let of_kind = |i: int| kind(list[i]);
    let ids = service::ids_of(list, kind);
    if list.len() == 0 {
        Seq::empty()
    } else {
        let head = list.drop_last();
        let n = head.len();
        let head_kind = |i: int| kind(head[i]);
        let before = service::ids_of(head, kind);
        let at = lemma_ids(head, kind);
        assert(processes::picks(at, n, of_kind)) by {
            assert forall|k: int| 0 <= k < at.len() implies 0 <= #[trigger] at[k] < n && of_kind(at[k]) by {
                assert(head_kind(at[k]));
            }
            assert forall|i: int| 0 <= i < n && #[trigger] of_kind(i) implies at.contains(i) by {
                assert(head_kind(i));
            }
        }
        processes::lemma_picks_more(at, n, of_kind);
        let more = if of_kind(n as int) {
            at.push(n as int)
        } else {
            at
        };
        assert forall|k: int| 0 <= k < more.len() implies #[trigger] ids[k] == list[more[k]].id by {
            if k < at.len() {
                assert(head[at[k]] == list[at[k]]);
                assert(ids[k] == before[k]);
            }
        }
        more
    }
}

/// A process is listed when it is of the kind, and else it is not.
pub proof fn lemma_listed(list: Seq<Process>, kind: spec_fn(Process) -> bool, i: int)
    requires
        process::distinct(list),
        0 <= i < list.len(),
    ensures
        service::ids_of(list, kind).contains(list[i].id) <==> kind(list[i]),
{
    let ids = service::ids_of(list, kind);
    let of_kind = |j: int| kind(list[j]);
    let at = lemma_ids(list, kind);
    if kind(list[i]) {
        assert(of_kind(i));
        let k = choose|k: int| 0 <= k < at.len() && at[k] == i;
        assert(ids[k] == list[i].id);
    }
    if ids.contains(list[i].id) {
        let k = choose|k: int| 0 <= k < ids.len() && ids[k] == list[i].id;
        assert(ids[k] == list[at[k]].id);
        assert(0 <= at[k] < list.len() && of_kind(at[k]));
        if at[k] < i {
            assert(list[at[k]].id != list[i].id);
        }
        if i < at[k] {
            assert(list[i].id != list[at[k]].id);
        }
    }
}

} // verus!
