//! Planning the removal of the scan's findings: reports are processed in
//! reverse discovery order, so a subdirectory's contents are finalized before
//! its parent is revisited.

use vstd::prelude::*;

use crate::arg::{Config, ConfigV};
use crate::fs::{join_path, Dir, DirV};

verus! {

/// Mathematical model of a [`RemoveAction`].
pub ghost enum RemoveActionV {
    Entry(Seq<char>),
    CleanupIfEmpty(Seq<char>),
}

/// One step of the removal phase: delete the entry at a path, or remove the
/// directory at a path if it turns out to be empty by then.
pub enum RemoveAction {
    Entry(String),
    CleanupIfEmpty(String),
}

impl View for RemoveAction {
    type V = RemoveActionV;

    open spec fn view(&self) -> RemoveActionV {
        match self {
            RemoveAction::Entry(p) => RemoveActionV::Entry(p@),
            RemoveAction::CleanupIfEmpty(p) => RemoveActionV::CleanupIfEmpty(p@),
        }
    }
}

pub open spec fn actions_view(s: Seq<RemoveAction>) -> Seq<RemoveActionV> {
    s.map_values(|a: RemoveAction| a@)
}

/// The names of the first `i` entries of one report, as deletions of their
/// full paths, in report order.
pub open spec fn entry_actions_upto(d: DirV, i: int) -> Seq<RemoveActionV>
    decreases i,
{
    if i <= 0 {
        Seq::empty()
    } else {
        entry_actions_upto(d, i - 1).push(
            RemoveActionV::Entry(join_path(d.parent_path, d.files_path[i - 1])),
        )
    }
}

/// The actions one report contributes: each of its entries deleted in order,
/// then, when empty-directory cleanup is requested, a conditional removal of
/// the report's directory itself.
pub open spec fn report_actions(d: DirV, cfg: ConfigV) -> Seq<RemoveActionV> {
    entry_actions_upto(d, d.files_path.len() as int) + (if cfg.remove_empty {
        seq![RemoveActionV::CleanupIfEmpty(d.parent_path)]
    } else {
        Seq::empty()
    })
}

/// The whole removal plan for the reports: the last-discovered report is
/// processed first, so children precede their parents.
pub open spec fn plan_spec(reports: Seq<DirV>, cfg: ConfigV) -> Seq<RemoveActionV>
    decreases reports.len(),
{
    if reports.len() == 0 {
        Seq::empty()
    } else {
        report_actions(reports.last(), cfg) + plan_spec(reports.drop_last(), cfg)
    }
}

/// Turns the scan's reports into the ordered removal plan. The plan depends
/// only on the reports and on whether empty directories are to be cleaned up;
/// in particular a dry run plans exactly the same steps.
#[verifier::loop_isolation(false)]
pub fn removal_plan(target_dirs: &Vec<Dir>, config: &Config) -> (r: Vec<RemoveAction>)
    ensures
        actions_view(r@) == plan_spec(
            target_dirs@.map_values(|d: Dir| d@),
            config@,
        ),
{
    let remove_empty = config.remove_empty();
    let mut plan: Vec<RemoveAction> = Vec::new();
    let ghost reports = target_dirs@.map_values(|d: Dir| d@);
    let n = target_dirs.len();
    let mut k: usize = 0;
    proof {
        assert(actions_view(plan@) =~= plan_spec(reports.subrange(n - k, n as int), config@));
    }
    while k < n
        invariant
            n == target_dirs@.len(),
            k <= n,
            reports == target_dirs@.map_values(|d: Dir| d@),
            remove_empty == config@.remove_empty,
            actions_view(plan@) == plan_spec(reports.subrange(n - k, n as int), config@),
        decreases n - k,
    {
        let dir = &target_dirs[n - 1 - k];
        let ghost d = reports[n - 1 - k as int];
        proof {
            assert(d == dir@);
        }
        let ghost before = actions_view(plan@);
        let m = dir.files_path.len();
        let mut j: usize = 0;
        while j < m
            invariant
                m == dir.files_path@.len(),
                j <= m,
                d == dir@,
                actions_view(plan@) == before + entry_actions_upto(d, j as int),
            decreases m - j,
        {
            let full = dir.parent_path.clone().concat("/").concat(
                dir.files_path[j].as_str(),
            );
            let ghost p0 = actions_view(plan@);
            plan.push(RemoveAction::Entry(full));
            proof {
                assert(actions_view(plan@) =~= p0.push(
                    RemoveActionV::Entry(join_path(d.parent_path, d.files_path[j as int])),
                ));
                assert(actions_view(plan@) =~= before + entry_actions_upto(d, j + 1));
            }
            j = j + 1;
        }
        if remove_empty {
            let ghost p0 = actions_view(plan@);
            plan.push(RemoveAction::CleanupIfEmpty(dir.parent_path.clone()));
            proof {
                assert(actions_view(plan@) =~= p0.push(
                    RemoveActionV::CleanupIfEmpty(d.parent_path),
                ));
            }
        }
        proof {
            assert(actions_view(plan@) =~= before + report_actions(d, config@));
            let sub0 = reports.subrange(n - k, n as int);
            let sub1 = reports.subrange(n - (k + 1), n as int);
            assert(sub1 =~= seq![d] + sub0);
            lemma_plan_reverse(seq![d], sub0, config@);
            assert(seq![d].drop_last() =~= Seq::<DirV>::empty());
            assert(seq![d].last() == d);
            assert(plan_spec(seq![d], config@) == report_actions(d, config@) + plan_spec(
                Seq::<DirV>::empty(),
                config@,
            ));
            assert(plan_spec(seq![d], config@) =~= report_actions(d, config@));
            assert(actions_view(plan@) =~= plan_spec(sub1, config@));
        }
        k = k + 1;
    }
    proof {
        assert(reports.subrange(0, n as int) =~= reports);
    }
    plan
}

/// The log line the removal phase prints for a completed action, the same in
/// a dry run and in a real run.
pub fn removal_log_line(action: &RemoveAction) -> (r: String)
    ensures
        r@ == log_line_spec(action@),
{
    proof {
        reveal_strlit("Removed: ");
    }
    match action {
        RemoveAction::Entry(p) => String::from_str("Removed: ").concat(p.as_str()),
        RemoveAction::CleanupIfEmpty(p) => String::from_str("Removed: ").concat(p.as_str()),
    }
}

pub open spec fn log_line_spec(a: RemoveActionV) -> Seq<char> {
    match a {
        RemoveActionV::Entry(p) => "Removed: "@ + p,
        RemoveActionV::CleanupIfEmpty(p) => "Removed: "@ + p,
    }
}

/// Splitting the reports splits the plan, with the later reports' actions
/// first: removal runs in reverse discovery order, so every report that was
/// discovered after another — in particular a subdirectory's report, which
/// follows its parent's — is fully processed before it.
pub proof fn lemma_plan_reverse(s1: Seq<DirV>, s2: Seq<DirV>, cfg: ConfigV)
    ensures
        plan_spec(s1 + s2, cfg) == plan_spec(s2, cfg) + plan_spec(s1, cfg),
    decreases s2.len(),
{
    if s2.len() == 0 {
        assert(s1 + s2 =~= s1);
        assert(plan_spec(s2, cfg) + plan_spec(s1, cfg) =~= plan_spec(s1, cfg));
    } else {
        let whole = s1 + s2;
        assert(whole.last() == s2.last());
        assert(whole.drop_last() =~= s1 + s2.drop_last());
        lemma_plan_reverse(s1, s2.drop_last(), cfg);
        assert(plan_spec(whole, cfg) == report_actions(s2.last(), cfg) + (plan_spec(
            s2.drop_last(),
            cfg,
        ) + plan_spec(s1, cfg)));
        assert(report_actions(s2.last(), cfg) + (plan_spec(s2.drop_last(), cfg) + plan_spec(
            s1,
            cfg,
        )) =~= (report_actions(s2.last(), cfg) + plan_spec(s2.drop_last(), cfg)) + plan_spec(
            s1,
            cfg,
        ));
    }
}

/// A dry run plans the very same steps and logs the very same lines as a real
/// run: the plan reads only the reports and the empty-directory-cleanup flag,
/// never the dry-run flag. Performing no deletion is then the runner's only
/// difference.
pub proof fn lemma_dry_run_same_plan(reports: Seq<DirV>, c1: ConfigV, c2: ConfigV)
    requires
        c1.remove_empty == c2.remove_empty,
    ensures
        plan_spec(reports, c1) == plan_spec(reports, c2),
    decreases reports.len(),
{
    if reports.len() > 0 {
        lemma_dry_run_same_plan(reports.drop_last(), c1, c2);
        assert(report_actions(reports.last(), c1) == report_actions(reports.last(), c2));
    }
}

} // verus!
