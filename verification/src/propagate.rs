//! Propagation: projecting the consolidated link set into target
//! directories, and summarizing a reconciliation pass.
//!
//! Each enabled target receives the same reconciliation primitive as the
//! library directory ([`crate::consolidate::reconcile`]), against its own
//! directory. Disabled targets are skipped entirely: they never appear in
//! [`enabled_targets`], so their directories are neither inspected nor
//! written. Propagation only reads the desired link set; it never plans a
//! change to the library directory itself.

use vstd::prelude::*;
use crate::config::{Target, TargetView};

verus! {

/// The enabled targets, in configuration order.
pub open spec fn enabled_only(targets: Seq<TargetView>) -> Seq<TargetView>
    decreases targets.len(),
{
    if targets.len() == 0 {
        Seq::<TargetView>::empty()
    } else {
        let rest = enabled_only(targets.drop_last());
        if targets.last().enabled {
            rest.push(targets.last())
        } else {
            rest
        }
    }
}

/// The propagation gate is exact: every target it lets through is enabled
/// and configured, and every enabled configured target is let through — so
/// a disabled target is never propagated to, and an enabled one never
/// skipped.
pub proof fn lemma_propagation_gate(targets: Seq<TargetView>)
    ensures
        forall|k: int|
            0 <= k < enabled_only(targets).len() ==> (#[trigger] enabled_only(targets)[k]).enabled
                && targets.contains(enabled_only(targets)[k]),
        forall|i: int|
            0 <= i < targets.len() && (#[trigger] targets[i]).enabled ==> enabled_only(
                targets,
            ).contains(targets[i]),
    decreases targets.len(),
{
    if targets.len() > 0 {
        let dl = targets.drop_last();
        let x = targets.last();
        lemma_propagation_gate(dl);
        let out = enabled_only(targets);
        let rest = enabled_only(dl);
        assert forall|k: int| 0 <= k < out.len() implies (#[trigger] out[k]).enabled
            && targets.contains(out[k]) by {
            if k < rest.len() {
                assert(rest[k].enabled && dl.contains(rest[k]));
                let i = choose|i: int| 0 <= i < dl.len() && dl[i] == rest[k];
                assert(targets[i] == out[k]);
            } else {
                assert(out[k] == x);
                assert(targets[targets.len() - 1] == x);
            }
        }
        assert forall|i: int| 0 <= i < targets.len() && (#[trigger] targets[i]).enabled implies out
            .contains(targets[i]) by {
            if i < targets.len() - 1 {
                assert(dl[i] == targets[i]);
                assert(rest.contains(targets[i]));
                let k = choose|k: int| 0 <= k < rest.len() && rest[k] == targets[i];
                if x.enabled {
                    assert(out[k] == targets[i]);
                } else {
                    assert(out[k] == targets[i]);
                }
            } else {
                assert(x.enabled);
                assert(out[out.len() - 1] == targets[i]);
            }
        }
    }
}

/// The targets propagation writes to: exactly the enabled ones, in
/// configuration order. A disabled target is absent, so no caller looping
/// over this result ever touches its directory.
pub fn enabled_targets(targets: &Vec<Target>) -> (chosen: Vec<Target>)
    ensures
        chosen.deep_view() == enabled_only(targets.deep_view()),
{
    let mut chosen: Vec<Target> = Vec::new();
    let n = targets.len();
    let mut i: usize = 0;
    while i < n
        invariant
            n == targets.len(),
            0 <= i <= n,
            chosen.deep_view() == enabled_only(targets.deep_view().take(i as int)),
        decreases n - i,
    {
        let ghost taken = targets.deep_view().take(i + 1);
        proof {
            assert(taken.drop_last() =~= targets.deep_view().take(i as int));
            assert(taken.last() == targets.deep_view()[i as int]);
        }
        let t = &targets[i];
        if t.enabled {
            chosen.push(
                Target { name: t.name.clone(), enabled: t.enabled, path: t.path.clone() },
            );
            proof {
                assert(chosen.deep_view() =~= enabled_only(taken));
            }
        } else {
            proof {
                assert(chosen.deep_view() =~= enabled_only(taken));
            }
        }
        i += 1;
    }
    proof {
        assert(targets.deep_view().take(n as int) =~= targets.deep_view());
    }
    chosen
}

/// The outcome of performing one planned link action, as the caller reports
/// it back: the link name, whether the filesystem operation failed, and the
/// failure detail (empty on success).
pub struct ActionReport {
    pub name: String,
    pub failed: bool,
    pub detail: String,
}

/// Ghost image of an [`ActionReport`].
pub struct ActionReportView {
    pub name: Seq<char>,
    pub failed: bool,
    pub detail: Seq<char>,
}

impl View for ActionReport {
    type V = ActionReportView;

    open spec fn view(&self) -> ActionReportView {
        ActionReportView { name: self.name@, failed: self.failed, detail: self.detail@ }
    }
}

impl DeepView for ActionReport {
    type V = ActionReportView;

    open spec fn deep_view(&self) -> ActionReportView {
        self@
    }
}

/// How many reported actions succeeded.
pub open spec fn ok_count(reports: Seq<ActionReportView>) -> nat
    decreases reports.len(),
{
    if reports.len() == 0 {
        0
    } else {
        ok_count(reports.drop_last()) + if reports.last().failed {
            0nat
        } else {
            1nat
        }
    }
}

/// The failed actions, in reported order.
pub open spec fn failed_only(reports: Seq<ActionReportView>) -> Seq<ActionReportView>
    decreases reports.len(),
{
    if reports.len() == 0 {
        Seq::<ActionReportView>::empty()
    } else {
        let rest = failed_only(reports.drop_last());
        if reports.last().failed {
            rest.push(reports.last())
        } else {
            rest
        }
    }
}

/// Summary of one reconciliation pass: how many links were created and
/// removed, every per-link failure (collected, never dropped, never
/// aborting the rest of the pass), and the conflicting names that were left
/// untouched.
pub struct SyncReport {
    pub created: usize,
    pub removed: usize,
    pub failures: Vec<ActionReport>,
    pub conflicts: Vec<String>,
}

fn keep_failed(reports: &Vec<ActionReport>, out: &mut Vec<ActionReport>)
    ensures
        final(out).deep_view() == old(out).deep_view() + failed_only(reports.deep_view()),
{
    let n = reports.len();
    let mut i: usize = 0;
    while i < n
        invariant
            n == reports.len(),
            0 <= i <= n,
            out.deep_view() == old(out).deep_view() + failed_only(
                reports.deep_view().take(i as int),
            ),
        decreases n - i,
    {
        let ghost taken = reports.deep_view().take(i + 1);
        proof {
            assert(taken.drop_last() =~= reports.deep_view().take(i as int));
            assert(taken.last() == reports.deep_view()[i as int]);
        }
        let r = &reports[i];
        if r.failed {
            let x = ActionReport { name: r.name.clone(), failed: r.failed, detail: r.detail.clone() };
            proof {
                assert(x@ == reports.deep_view()[i as int]);
            }
            let ghost pre_dv = out.deep_view();
            out.push(x);
            proof {
                assert(out.deep_view() =~= pre_dv.push(x@));
                assert(failed_only(taken) == failed_only(
                    reports.deep_view().take(i as int),
                ).push(x@));
                assert(out.deep_view() =~= old(out).deep_view() + failed_only(taken));
            }
        } else {
            proof {
                assert(out.deep_view() =~= old(out).deep_view() + failed_only(taken));
            }
        }
        i += 1;
    }
    proof {
        assert(reports.deep_view().take(n as int) =~= reports.deep_view());
    }
}

fn count_ok(reports: &Vec<ActionReport>) -> (n: usize)
    ensures
        n == ok_count(reports.deep_view()),
{
    let m = reports.len();
    let mut n: usize = 0;
    let mut i: usize = 0;
    while i < m
        invariant
            m == reports.len(),
            0 <= i <= m,
            n <= i,
            n == ok_count(reports.deep_view().take(i as int)),
        decreases m - i,
    {
        let ghost taken = reports.deep_view().take(i + 1);
        proof {
            assert(taken.drop_last() =~= reports.deep_view().take(i as int));
            assert(taken.last() == reports.deep_view()[i as int]);
        }
        if !reports[i].failed {
            n += 1;
        }
        i += 1;
    }
    proof {
        assert(reports.deep_view().take(m as int) =~= reports.deep_view());
    }
    n
}

/// Folds the caller's per-action outcomes into a pass summary: `created`
/// and `removed` count the successes, `failures` holds every failed create
/// followed by every failed remove, and the plan's conflicts pass through
/// unchanged.
pub fn summarize_pass(
    conflicts: Vec<String>,
    create_reports: &Vec<ActionReport>,
    remove_reports: &Vec<ActionReport>,
) -> (report: SyncReport)
    ensures
        report.created == ok_count(create_reports.deep_view()),
        report.removed == ok_count(remove_reports.deep_view()),
        report.failures.deep_view() == failed_only(create_reports.deep_view()) + failed_only(
            remove_reports.deep_view(),
        ),
        report.conflicts == conflicts,
{
    let created = count_ok(create_reports);
    let removed = count_ok(remove_reports);
    let mut failures: Vec<ActionReport> = Vec::new();
    proof {
        assert(failures.deep_view() =~= Seq::<ActionReportView>::empty());
    }
    keep_failed(create_reports, &mut failures);
    let ghost after_create = failures.deep_view();
    keep_failed(remove_reports, &mut failures);
    proof {
        assert(after_create =~= failed_only(create_reports.deep_view()));
        assert(failures.deep_view() =~= failed_only(create_reports.deep_view()) + failed_only(
            remove_reports.deep_view(),
        ));
    }
    SyncReport { created, removed, failures, conflicts }
}

} // verus!
