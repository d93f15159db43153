//! How the kernel's scheduler is tuned.

use vstd::prelude::*;

use crate::document::EntryView;
use crate::eevdf;
use crate::eevdf::{FileValue, Profile, SchedPathsError};
use crate::number;
use crate::scheduler::TextMatcher;
use crate::service::Service;

verus! {

/// Whether an entry says a slice: a number under its name that is not negative.
pub open spec fn says_slice(entry: EntryView) -> bool {
    entry.name == Some("base-slice-ns"@) && entry.integer is Some && entry.integer->0 >= 0
}

/// Whether an entry says how tasks are preempted: one of two words under its name.
pub open spec fn says_preempt(entry: EntryView) -> bool {
    entry.name == Some("preempt"@) && (entry.text == Some("voluntary"@) || entry.text == Some("full"@))
}

/// The last entry that says a slice counts. Without one, it is that of three milliseconds.
pub proof fn lemma_slice(entries: Seq<EntryView>, i: int)
    requires
        -1 <= i < entries.len(),
        i >= 0 ==> says_slice(entries[i]),
        forall|j: int| i < j < entries.len() ==> !says_slice(#[trigger] entries[j]),
    ensures
        i >= 0 ==> eevdf::slice_in(entries) == entries[i].integer->0,
        i < 0 ==> eevdf::slice_in(entries) == 3_000_000,
    decreases entries.len(),
{
    if entries.len() > 0 && i < entries.len() - 1 {
        let less = entries.drop_last();
        assert(!says_slice(entries[entries.len() - 1]));
        assert forall|j: int| i < j < less.len() implies !says_slice(#[trigger] less[j]) by {
            assert(less[j] == entries[j]);
        }
        lemma_slice(less, i);
    }
}

/// The last entry that says how tasks are preempted counts. Without one, it is by their own will.
pub proof fn lemma_preempt(entries: Seq<EntryView>, i: int)
    requires
        -1 <= i < entries.len(),
        i >= 0 ==> says_preempt(entries[i]),
        forall|j: int| i < j < entries.len() ==> !says_preempt(#[trigger] entries[j]),
    ensures
        i >= 0 ==> eevdf::preempt_in(entries) == entries[i].text->0,
        i < 0 ==> eevdf::preempt_in(entries) == "voluntary"@,
    decreases entries.len(),
{
    if entries.len() > 0 && i < entries.len() - 1 {
        let less = entries.drop_last();
        assert(!says_preempt(entries[entries.len() - 1]));
        assert forall|j: int| i < j < less.len() implies !says_preempt(#[trigger] less[j]) by {
            assert(less[j] == entries[j]);
        }
        lemma_preempt(less, i);
    }
}

/// The profiles that are there without a configuration.
pub proof fn lemma_given_profiles(config: eevdf::Config)
    requires
        config.is_unset(),
    ensures
        !config.enable,
        config.profiles@.contains_key("default"@),
        config.profiles@["default"@].base_slice_ns == 3_000_000,
        config.profiles@["default"@].preempt@ == "voluntary"@,
        config.profiles@.contains_key("responsive"@),
        config.profiles@["responsive"@].base_slice_ns == 700_000,
        config.profiles@["responsive"@].preempt@ == "full"@,
{
    reveal_strlit("default");
    reveal_strlit("responsive");
    assert("default"@.len() < "responsive"@.len());
}

/// Without the file of slices the scheduler cannot be tuned. Preemption is tuned only where its file is there.
pub proof fn lemma_paths(preempt_exists: bool)
    ensures
        eevdf::paths_among(false, preempt_exists) == Err::<eevdf::SchedPaths, SchedPathsError>(
            SchedPathsError::NotSupported,
        ),
        eevdf::paths_among(true, preempt_exists) is Ok,
        eevdf::paths_among(true, preempt_exists)->Ok_0.base_slice_ns@ == "/sys/kernel/debug/sched/base_slice_ns"@,
        eevdf::paths_among(true, true)->Ok_0.preempt is Some,
        eevdf::paths_among(true, true)->Ok_0.preempt->0@ == "/sys/kernel/debug/sched/preempt"@,
        eevdf::paths_among(true, false)->Ok_0.preempt is None,
{
}

impl<M: TextMatcher> Service<M> {
    /// The profile on battery is the one that is configured as the default, and off battery the one that is configured
    /// as responsive. Where there is none, it is the one that is there without a configuration.
    pub proof fn lemma_power(&self)
        ensures
            ({
                let profiles = self.config.eevdf_profiles.profiles@;
                &&& profiles.contains_key("default"@) ==> self.power_profile(true) == profiles["default"@]
                &&& profiles.contains_key("responsive"@) ==> self.power_profile(false) == profiles["responsive"@]
                &&& !profiles.contains_key("default"@) ==> self.power_profile(true).base_slice_ns == 3_000_000
                    && self.power_profile(true).preempt@ == "voluntary"@
                &&& !profiles.contains_key("responsive"@) ==> self.power_profile(false).base_slice_ns == 700_000
                    && self.power_profile(false).preempt@ == "full"@
            }),
    {
    }

    /// What is written to tune the scheduler: the slice to its file, and, if there is a file for it, how tasks are
    /// preempted. Nothing, where the scheduler cannot be tuned or is not to be.
    pub proof fn lemma_tuned(&self, files: Seq<FileValue>, profile: Profile)
        requires
            self.tuned(files, profile),
        ensures
            self.eevdf_paths is None ==> files.len() == 0,
            !self.config.eevdf_profiles.enable ==> files.len() == 0,
            self.eevdf_paths is Some && self.config.eevdf_profiles.enable ==> {
                let paths = self.eevdf_paths->0;
                &&& files.len() >= 1
                &&& files[0].path == paths.base_slice_ns
                &&& files[0].value@ == number::decimal(profile.base_slice_ns as int)
                &&& paths.preempt is None ==> files.len() == 1
                &&& paths.preempt is Some ==> files.len() == 2 && files[1].path == paths.preempt->0 && files[1].value@
                    == vstd::utf8::encode_utf8(profile.preempt@)
            },
    {
    }
}

/// Decimal digits: the last is what is left of tens, and the others are the number of tens.
pub proof fn lemma_decimal_digits(n: int)
    requires
        n >= 0,
    ensures
        n < 10 ==> number::decimal(n) == seq![(48 + n) as u8],
        n >= 10 ==> number::decimal(n).drop_last() == number::decimal(n / 10) && number::decimal(n).last() == 48 + n % 10,
{
    if n >= 10 {
        assert(number::decimal(n).drop_last() =~= number::decimal(n / 10));
    }
}

} // verus!
