//! Reconciliation engine: the decisions of one reconciliation pass.
//!
//! Runs every module, routes each contribution to the adaptor named by
//! [`Contribution::adaptor_id`], plans every adaptor in registry order, and
//! decides what the commit phase does to each managed file. Apply is
//! atomic: any planning failure, or any `Conflict` action, blocks every
//! write. Reading and writing the files is the caller's part: it hands in
//! the existing contents (in registry order) and performs the planned
//! commits.
use vstd::prelude::*;

pub mod laws;

use crate::adaptors::{
    Action, Adaptor, ApplyOutcome, KeyAction, Outcome, PlanErr, PlanError, Tagged,
    actions_view, adaptor_file_spec, adaptor_id_spec, plan_error_message, plan_spec,
    registry, registry_spec, tagged_contributions_view,
};
use crate::modules::{ModuleKind, module_contributions};
use crate::text::{decimal, decimal_exec, push_all, push_str, string_of, chars_of};
use crate::{Contribution, ContributionV, ModuleContext, RuntimeContext, YardConfig, target_adaptor};

verus! {

/// What happened to one managed file during the commit phase, with the
/// per-key actions the adaptor reported.
#[derive(Clone, Debug, PartialEq, Eq)]
pub enum FileOutcome {
    Wrote(Vec<KeyAction>),
    Deleted(Vec<KeyAction>),
}

/// Per-file outcome reported back to the CLI; `path` is relative to the
/// workspace.
#[derive(Clone, Debug, PartialEq, Eq)]
pub struct FileReport {
    pub path: String,
    pub outcome: FileOutcome,
}

/// Aggregate report from one engine run.
#[derive(Clone, Debug, PartialEq, Eq, Default)]
pub struct EngineReport {
    pub files: Vec<FileReport>,
}

/// What the commit phase will do to one managed file.
#[derive(Clone, Debug, PartialEq, Eq)]
pub enum PlannedCommit {
    Write { contents: String, actions: Vec<KeyAction> },
    Delete { actions: Vec<KeyAction> },
    Noop,
}

/// One managed file and what to do with it; `path` is relative to the
/// workspace.
#[derive(Clone, Debug, PartialEq, Eq)]
pub struct PlannedFile {
    pub path: String,
    pub commit: PlannedCommit,
}

/// Errors of one engine run.
#[derive(Clone, Debug, PartialEq, Eq)]
pub enum EngineError {
    Read { path: String, message: String },
    Write { path: String, message: String },
    Delete { path: String, message: String },
    /// Planning failed for one or more adaptors; nothing is written.
    Plan(Vec<PlanError>),
    /// Some managed keys drifted from their recorded `default=`; nothing
    /// is written. Each entry is the file and its `Conflict` action.
    Conflicts(Vec<(String, KeyAction)>),
}

/// Spec view of a [`PlannedCommit`].
pub enum CommitV {
    Write(Seq<char>, Seq<Action>),
    Delete(Seq<Action>),
    Noop,
}

impl PlannedCommit {
    pub open spec fn view(&self) -> CommitV {
        match self {
            PlannedCommit::Write { contents, actions } => CommitV::Write(contents@, actions_view(actions@)),
            PlannedCommit::Delete { actions } => CommitV::Delete(actions_view(actions@)),
            PlannedCommit::Noop => CommitV::Noop,
        }
    }
}

/// What the commit phase does given the adaptor's outcome and whether the
/// file existed: write the planned contents; or, when no file should
/// exist, delete it if it existed and otherwise do nothing.
pub open spec fn resolve(o: Outcome, existed: bool) -> CommitV {
    match o.contents {
        Some(c) => CommitV::Write(c, o.actions),
        None => if existed {
            CommitV::Delete(o.actions)
        } else {
            CommitV::Noop
        },
    }
}

/// Collapses an adaptor's outcome and the file's existence into a commit.
pub fn resolve_commit(outcome: ApplyOutcome, existed: bool) -> (r: PlannedCommit)
    ensures
        r@ == resolve(outcome@, existed),
{
    match outcome.contents {
        Some(contents) => PlannedCommit::Write { contents, actions: outcome.actions },
        None => if existed {
            PlannedCommit::Delete { actions: outcome.actions }
        } else {
            PlannedCommit::Noop
        },
    }
}

/// Tags each contribution with its module's id.
pub open spec fn tag(id: Seq<char>, cs: Seq<ContributionV>) -> Tagged {
    cs.map_values(|c: ContributionV| (id, c))
}

/// The contributions of the modules `ms`, in order, tagged.
pub open spec fn contributions_of(ms: Seq<(Seq<char>, ModuleKind)>, ctx: ModuleContext) -> Tagged
    decreases ms.len(),
{
    if ms.len() == 0 {
        seq![]
    } else {
        contributions_of(ms.drop_last(), ctx) + tag(ms.last().0, module_contributions(ms.last().1, ctx))
    }
}

/// The contributions of `cs` routed to adaptor `id`, in order.
pub open spec fn routed(cs: Tagged, id: Seq<char>) -> Tagged
    decreases cs.len(),
{
    if cs.len() == 0 {
        seq![]
    } else {
        let before = routed(cs.drop_last(), id);
        if target_adaptor(cs.last().1) == id {
            before.push(cs.last())
        } else {
            before
        }
    }
}

/// The existing contents handed in for the adaptor at index `i`.
pub open spec fn existing_at(existing: Seq<Option<Seq<char>>>, i: int) -> Option<Seq<char>> {
    if 0 <= i < existing.len() {
        existing[i]
    } else {
        None
    }
}

/// The plan of every adaptor in `ads`, in order.
pub open spec fn plan_results(ads: Seq<Adaptor>, cs: Tagged, existing: Seq<Option<Seq<char>>>) -> Seq<
    Result<Outcome, PlanErr>,
> {
    Seq::new(
        ads.len(),
        |i: int| plan_spec(ads[i], routed(cs, adaptor_id_spec(ads[i])), existing_at(existing, i)),
    )
}

/// The failures among `rs`, in order.
pub open spec fn plan_failures(rs: Seq<Result<Outcome, PlanErr>>) -> Seq<PlanErr>
    decreases rs.len(),
{
    if rs.len() == 0 {
        seq![]
    } else {
        let before = plan_failures(rs.drop_last());
        match rs.last() {
            Err(e) => before.push(e),
            Ok(_) => before,
        }
    }
}

/// The conflict actions of `acts`, each with file `file`.
pub open spec fn conflicts_in(file: Seq<char>, acts: Seq<Action>) -> Seq<(Seq<char>, Action)>
    decreases acts.len(),
{
    if acts.len() == 0 {
        seq![]
    } else {
        let before = conflicts_in(file, acts.drop_last());
        if acts.last() is Conflict {
            before.push((file, acts.last()))
        } else {
            before
        }
    }
}

/// The conflict actions of all successful plans, with their files.
pub open spec fn all_conflicts(ads: Seq<Adaptor>, rs: Seq<Result<Outcome, PlanErr>>) -> Seq<(Seq<char>, Action)>
    decreases rs.len(),
{
    if rs.len() == 0 || ads.len() < rs.len() {
        seq![]
    } else {
        let before = all_conflicts(ads, rs.drop_last());
        match rs.last() {
            Ok(o) => before + conflicts_in(adaptor_file_spec(ads[rs.len() - 1]), o.actions),
            Err(_) => before,
        }
    }
}

/// What one engine pass decides.
pub enum EngineDecision {
    /// Commit these files (relative path and commit), in registry order.
    Planned(Seq<(Seq<char>, CommitV)>),
    /// Planning failed; nothing is written.
    Failed(Seq<PlanErr>),
    /// Some managed keys are in conflict; nothing is written.
    Conflicted(Seq<(Seq<char>, Action)>),
}

/// What one engine pass decides, given the context and the existing
/// contents of each managed file in registry order.
pub open spec fn decide(ctx: ModuleContext, existing: Seq<Option<Seq<char>>>) -> EngineDecision {
    let ads = registry_spec();
    let cs = contributions_of(crate::modules::registry_spec(), ctx);
    let rs = plan_results(ads, cs, existing);
    let fails = plan_failures(rs);
    if fails.len() > 0 {
        EngineDecision::Failed(fails)
    } else {
        let confl = all_conflicts(ads, rs);
        if confl.len() > 0 {
            EngineDecision::Conflicted(confl)
        } else {
            EngineDecision::Planned(
                Seq::new(
                    ads.len(),
                    |i: int| (
                        adaptor_file_spec(ads[i]),
                        match rs[i] {
                            Ok(o) => resolve(o, existing_at(existing, i) is Some),
                            Err(_) => CommitV::Noop,
                        },
                    ),
                ),
            )
        }
    }
}

/// The spec views of optional contents.
pub open spec fn existing_view(v: Seq<Option<String>>) -> Seq<Option<Seq<char>>> {
    v.map_values(|o: Option<String>| match o {
        Some(s) => Some(s@),
        None => None,
    })
}

/// Runs every module in registry order, tagging each contribution with its
/// module's id.
pub fn collect_contributions(ctx: &ModuleContext) -> (r: Vec<(&'static str, Contribution)>)
    ensures
        tagged_contributions_view(r@) == contributions_of(crate::modules::registry_spec(), *ctx),
{
    let mods = crate::modules::registry();
    let ghost ms = crate::modules::registry_spec();
    let mut r: Vec<(&'static str, Contribution)> = Vec::new();
    let mut i: usize = 0;
    assert(ms.take(0) =~= Seq::<(Seq<char>, ModuleKind)>::empty());
    assert(tagged_contributions_view(r@) =~= Seq::<(Seq<char>, ContributionV)>::empty());
    while i < mods.len()
        invariant
            i <= mods.len(),
            ms == crate::modules::registry_spec(),
            mods@.map_values(|m: crate::modules::Module| (m.id@, m.kind)) == ms,
            tagged_contributions_view(r@) == contributions_of(ms.take(i as int), *ctx),
        decreases mods.len() - i,
    {
        let m = mods[i];
        assert(ms.take(i + 1).drop_last() =~= ms.take(i as int));
        assert(ms.take(i + 1).last() == (m.id@, m.kind));
        let cs = m.contribute(ctx);
        let ghost base = tagged_contributions_view(r@);
        let mut j: usize = 0;
        let mut cs = cs;
        let ghost csv = crate::modules::contributions_view(cs@);
        while j < cs.len()
            invariant
                j <= cs.len(),
                cs@.len() == csv.len(),
                forall|k: int| j <= k < csv.len() ==> (#[trigger] cs@[k])@ == csv[k],
                tagged_contributions_view(r@) == base + tag(m.id@, csv.take(j as int)),
            decreases cs.len() - j,
        {
            let mut item = Contribution::Pixi(crate::adaptors::pixi::PixiContribution {
                workspace_name: None,
                channels: Vec::new(),
                dependencies: Vec::new(),
            });
            cs.set_and_swap(j, &mut item);
            let ghost before = tagged_contributions_view(r@);
            let ghost iv = item@;
            r.push((m.id, item));
            assert(tagged_contributions_view(r@) =~= before.push((m.id@, iv)));
            assert(csv.take(j + 1) =~= csv.take(j as int).push(csv[j as int]));
            assert(tag(m.id@, csv.take(j + 1)) =~= tag(m.id@, csv.take(j as int)).push((m.id@, csv[j as int])));
            j += 1;
        }
        assert(csv.take(cs.len() as int) =~= csv);
        i += 1;
    }
    assert(ms.take(mods.len() as int) =~= ms);
    r
}

/// A copy of `v`.
fn copy_strings(v: &Vec<String>) -> (r: Vec<String>)
    ensures
        r@ == v@,
{
    let mut r: Vec<String> = Vec::new();
    let mut i: usize = 0;
    while i < v.len()
        invariant
            i <= v.len(),
            r@ == v@.take(i as int),
        decreases v.len() - i,
    {
        r.push(v[i].clone());
        assert(v@.take(i + 1) =~= v@.take(i as int).push(v@[i as int]));
        i += 1;
    }
    assert(v@.take(v.len() as int) =~= v@);
    r
}

/// A copy of `v`.
fn copy_pairs(v: &Vec<(String, String)>) -> (r: Vec<(String, String)>)
    ensures
        r@ == v@,
{
    let mut r: Vec<(String, String)> = Vec::new();
    let mut i: usize = 0;
    while i < v.len()
        invariant
            i <= v.len(),
            r@ == v@.take(i as int),
        decreases v.len() - i,
    {
        r.push((v[i].0.clone(), v[i].1.clone()));
        assert(v@.take(i + 1) =~= v@.take(i as int).push(v@[i as int]));
        i += 1;
    }
    assert(v@.take(v.len() as int) =~= v@);
    r
}

/// A copy of `c`.
fn copy_contribution(c: &Contribution) -> (r: Contribution)
    ensures
        r@ == c@,
{
    match c {
        Contribution::Gitignore(g) => Contribution::Gitignore(
            crate::adaptors::gitignore::GitignoreContribution { id: g.id.clone(), lines: copy_strings(&g.lines) },
        ),
        Contribution::Pixi(p) => Contribution::Pixi(
            crate::adaptors::pixi::PixiContribution {
                workspace_name: match &p.workspace_name {
                    Some(n) => Some(n.clone()),
                    None => None,
                },
                channels: copy_strings(&p.channels),
                dependencies: copy_pairs(&p.dependencies),
            },
        ),
    }
}

/// The contributions routed to adaptor `id`.
pub fn route(cs: &Vec<(&'static str, Contribution)>, id: &str) -> (r: Vec<(&'static str, Contribution)>)
    ensures
        tagged_contributions_view(r@) == routed(tagged_contributions_view(cs@), id@),
{
    let ghost cv = tagged_contributions_view(cs@);
    let idc = chars_of(id);
    let mut r: Vec<(&'static str, Contribution)> = Vec::new();
    let mut i: usize = 0;
    assert(cv.take(0) =~= Seq::<(Seq<char>, ContributionV)>::empty());
    assert(tagged_contributions_view(r@) =~= Seq::<(Seq<char>, ContributionV)>::empty());
    while i < cs.len()
        invariant
            i <= cs.len(),
            idc@ == id@,
            cv == tagged_contributions_view(cs@),
            tagged_contributions_view(r@) == routed(cv.take(i as int), id@),
        decreases cs.len() - i,
    {
        assert(cv.take(i + 1).drop_last() =~= cv.take(i as int));
        assert(cv.take(i + 1).last() == (cs@[i as int].0@, cs@[i as int].1@));
        let target = chars_of(cs[i].1.adaptor_id());
        if crate::text::same_chars(&target, &idc) {
            let ghost before = tagged_contributions_view(r@);
            let item = (cs[i].0, copy_contribution(&cs[i].1));
            r.push(item);
            assert(tagged_contributions_view(r@) =~= before.push(cv[i as int]));
        }
        i += 1;
    }
    assert(cv.take(cs.len() as int) =~= cv);
    r
}

/// Spec view of a planning result.
pub open spec fn result_view(r: Result<ApplyOutcome, PlanError>) -> Result<Outcome, PlanErr> {
    match r {
        Ok(o) => Ok(o@),
        Err(e) => Err(e@),
    }
}

/// The spec views of planned files.
pub open spec fn planned_view(v: Seq<PlannedFile>) -> Seq<(Seq<char>, CommitV)> {
    v.map_values(|f: PlannedFile| (f.path@, f.commit@))
}

/// A copy of the conflict actions of `acts`, each with `file`.
fn collect_conflicts(out: &mut Vec<(String, KeyAction)>, file: &str, acts: &Vec<KeyAction>)
    ensures
        final(out)@.map_values(|c: (String, KeyAction)| (c.0@, c.1@)) == old(out)@.map_values(
            |c: (String, KeyAction)| (c.0@, c.1@),
        ) + conflicts_in(file@, actions_view(acts@)),
{
    broadcast use vstd::string::group_string_axioms;

    let ghost av = actions_view(acts@);
    let ghost o0 = out@.map_values(|c: (String, KeyAction)| (c.0@, c.1@));
    let mut i: usize = 0;
    assert(av.take(0) =~= Seq::<Action>::empty());
    assert(o0 + conflicts_in(file@, av.take(0)) =~= o0);
    while i < acts.len()
        invariant
            i <= acts.len(),
            av == actions_view(acts@),
            o0 == old(out)@.map_values(|c: (String, KeyAction)| (c.0@, c.1@)),
            out@.map_values(|c: (String, KeyAction)| (c.0@, c.1@)) == o0 + conflicts_in(
                file@,
                av.take(i as int),
            ),
        decreases acts.len() - i,
    {
        assert(av.take(i + 1).drop_last() =~= av.take(i as int));
        assert(av.take(i + 1).last() == acts@[i as int]@);
        match &acts[i] {
            KeyAction::Conflict { key, on_disk, default } => {
                let ghost before = out@.map_values(|c: (String, KeyAction)| (c.0@, c.1@));
                out.push(
                    (
                        file.to_string(),
                        KeyAction::Conflict { key: key.clone(), on_disk: on_disk.clone(), default: default.clone() },
                    ),
                );
                assert(out@.map_values(|c: (String, KeyAction)| (c.0@, c.1@)) =~= before.push(
                    (file@, acts@[i as int]@),
                ));
            },
            _ => {},
        }
        i += 1;
    }
    assert(av.take(acts.len() as int) =~= av);
}

/// Decides one reconciliation pass: runs every module, routes each
/// contribution to its adaptor, plans every adaptor against the existing
/// contents handed in (in registry order; missing entries mean no file),
/// and decides each file's commit, as [`decide`] states. Planning failures
/// and conflicts block every write.
pub fn plan(config: &YardConfig, runtime: &RuntimeContext, existing: &Vec<Option<String>>) -> (r: Result<
    Vec<PlannedFile>,
    EngineError,
>)
    ensures
        match r {
            Ok(files) => decide(ModuleContext { config, runtime }, existing_view(existing@))
                == EngineDecision::Planned(planned_view(files@)),
            Err(EngineError::Plan(es)) => decide(ModuleContext { config, runtime }, existing_view(existing@))
                == EngineDecision::Failed(es@.map_values(|e: PlanError| e@)),
            Err(EngineError::Conflicts(cs)) => decide(ModuleContext { config, runtime }, existing_view(existing@))
                == EngineDecision::Conflicted(cs@.map_values(|c: (String, KeyAction)| (c.0@, c.1@))),
            Err(_) => false,
        },
{
    let ctx = ModuleContext { config, runtime };
    let cs = collect_contributions(&ctx);
    let ads = registry();
    let ghost csv = tagged_contributions_view(cs@);
    let ghost ev = existing_view(existing@);
    let ghost ads_v = registry_spec();
    let ghost rs = plan_results(ads_v, csv, ev);
    let mut results: Vec<Result<ApplyOutcome, PlanError>> = Vec::new();
    let mut i: usize = 0;
    while i < ads.len()
        invariant
            i <= ads.len(),
            ads@ == ads_v,
            ads_v == registry_spec(),
            csv == tagged_contributions_view(cs@),
            ev == existing_view(existing@),
            rs == plan_results(ads_v, csv, ev),
            results@.len() == i,
            forall|k: int| 0 <= k < i ==> result_view(#[trigger] results@[k]) == rs[k],
        decreases ads.len() - i,
    {
        let a = ads[i];
        let routed_cs = route(&cs, a.id());
        let ex: Option<&str> = if i < existing.len() {
            match &existing[i] {
                Some(t) => Some(t.as_str()),
                None => None,
            }
        } else {
            None
        };
        assert(crate::adaptors::gitignore::opt_view(ex) == existing_at(ev, i as int));
        let res = a.plan(routed_cs, ex, runtime);
        results.push(res);
        i += 1;
    }
    // Failures block everything.
    let mut errors: Vec<PlanError> = Vec::new();
    let mut oks: bool = true;
    let mut j: usize = 0;
    assert(rs.take(0) =~= Seq::<Result<Outcome, PlanErr>>::empty());
    assert(errors@.map_values(|e: PlanError| e@) =~= Seq::<PlanErr>::empty());
    while j < results.len()
        invariant
            j <= results.len(),
            results@.len() == rs.len(),
            forall|k: int| 0 <= k < results@.len() ==> result_view(#[trigger] results@[k]) == rs[k],
            errors@.map_values(|e: PlanError| e@) == plan_failures(rs.take(j as int)),
        decreases results.len() - j,
    {
        assert(rs.take(j + 1).drop_last() =~= rs.take(j as int));
        assert(rs.take(j + 1).last() == result_view(results@[j as int]));
        match &results[j] {
            Err(e) => {
                let ghost before = errors@.map_values(|e: PlanError| e@);
                errors.push(e.clone_error());
                assert(errors@.map_values(|e: PlanError| e@) =~= before.push(rs[j as int]->Err_0));
            },
            Ok(_) => {},
        }
        j += 1;
    }
    assert(rs.take(results.len() as int) =~= rs);
    if errors.len() > 0 {
        return Err(EngineError::Plan(errors));
    }
    // Conflicts block everything too.
    let mut conflicts: Vec<(String, KeyAction)> = Vec::new();
    let mut j: usize = 0;
    assert(conflicts@.map_values(|c: (String, KeyAction)| (c.0@, c.1@)) =~= Seq::<(Seq<char>, Action)>::empty());
    while j < results.len()
        invariant
            j <= results.len(),
            results@.len() == rs.len(),
            ads@ == ads_v,
            rs.len() == ads_v.len(),
            forall|k: int| 0 <= k < results@.len() ==> result_view(#[trigger] results@[k]) == rs[k],
            conflicts@.map_values(|c: (String, KeyAction)| (c.0@, c.1@)) == all_conflicts(ads_v, rs.take(j as int)),
        decreases results.len() - j,
    {
        assert(rs.take(j + 1).drop_last() =~= rs.take(j as int));
        assert(rs.take(j + 1).last() == result_view(results@[j as int]));
        match &results[j] {
            Ok(o) => {
                collect_conflicts(&mut conflicts, ads[j].path(runtime), &o.actions);
            },
            Err(_) => {},
        }
        j += 1;
    }
    assert(rs.take(results.len() as int) =~= rs);
    if conflicts.len() > 0 {
        return Err(EngineError::Conflicts(conflicts));
    }
    // Commit decisions, in registry order.
    let mut files: Vec<PlannedFile> = Vec::new();
    let mut results = results;
    let mut j: usize = 0;
    while j < results.len()
        invariant
            j <= results.len(),
            results@.len() == rs.len(),
            ads@ == ads_v,
            rs.len() == ads_v.len(),
            ev == existing_view(existing@),
            forall|k: int| j <= k < results@.len() ==> result_view(#[trigger] results@[k]) == rs[k],
            files@.len() == j,
            forall|k: int| 0 <= k < j ==> #[trigger] planned_view(files@)[k] == (
                adaptor_file_spec(ads_v[k]),
                match rs[k] {
                    Ok(o) => resolve(o, existing_at(ev, k) is Some),
                    Err(_) => CommitV::Noop,
                },
            ),
        decreases results.len() - j,
    {
        let mut res: Result<ApplyOutcome, PlanError> = Ok(ApplyOutcome {
            contents: None,
            actions: Vec::new(),
            warnings: Vec::new(),
        });
        results.set_and_swap(j, &mut res);
        assert(result_view(res) == rs[j as int]);
        let existed = j < existing.len() && existing[j].is_some();
        assert(existed == (existing_at(ev, j as int) is Some));
        let commit = match res {
            Ok(o) => resolve_commit(o, existed),
            Err(_) => PlannedCommit::Noop,
        };
        let path = ads[j].path(runtime).to_string();
        proof {
            broadcast use vstd::string::group_string_axioms;
        }
        assert(path@ == adaptor_file_spec(ads_v[j as int]));
        let ghost before = planned_view(files@);
        let ghost entry = (path@, commit@);
        files.push(PlannedFile { path, commit });
        assert(planned_view(files@) =~= before.push(entry));
        j += 1;
    }
    let ghost d = decide(ModuleContext { config, runtime }, ev);
    assert(planned_view(files@) =~= Seq::new(
        ads_v.len(),
        |i: int| (
            adaptor_file_spec(ads_v[i]),
            match rs[i] {
                Ok(o) => resolve(o, existing_at(ev, i) is Some),
                Err(_) => CommitV::Noop,
            },
        ),
    ));
    Ok(files)
}

/// The report entry for a file once its commit is done: written and
/// deleted files are reported with their actions; untouched ones are not.
pub fn report_entry(file: PlannedFile) -> (r: Option<FileReport>)
    ensures
        match file.commit {
            PlannedCommit::Write { actions, .. } => r == Some(
                FileReport { path: file.path, outcome: FileOutcome::Wrote(actions) },
            ),
            PlannedCommit::Delete { actions } => r == Some(
                FileReport { path: file.path, outcome: FileOutcome::Deleted(actions) },
            ),
            PlannedCommit::Noop => r is None,
        },
{
    match file.commit {
        PlannedCommit::Write { actions, .. } => Some(
            FileReport { path: file.path, outcome: FileOutcome::Wrote(actions) },
        ),
        PlannedCommit::Delete { actions } => Some(
            FileReport { path: file.path, outcome: FileOutcome::Deleted(actions) },
        ),
        PlannedCommit::Noop => None,
    }
}

/// `"\n  " + message` for each error, in order.
pub open spec fn indented_messages(es: Seq<PlanError>) -> Seq<char>
    decreases es.len(),
{
    if es.len() == 0 {
        seq![]
    } else {
        indented_messages(es.drop_last()) + "\n  "@ + plan_error_message(es.last())
    }
}

/// The text reporting planning failures: the single message, or a count
/// followed by one indented message per line.
pub open spec fn plan_errors_text(es: Seq<PlanError>) -> Seq<char> {
    if es.len() == 0 {
        "plan failed (no detail)"@
    } else if es.len() == 1 {
        plan_error_message(es[0])
    } else {
        decimal(es.len()) + " planning errors:"@ + indented_messages(es)
    }
}

/// The text reporting planning failures.
pub fn format_plan_errors(errors: &Vec<PlanError>) -> (r: String)
    ensures
        r@ == plan_errors_text(errors@),
{
    broadcast use vstd::string::group_string_axioms;

    if errors.len() == 0 {
        return "plan failed (no detail)".to_string();
    }
    if errors.len() == 1 {
        return errors[0].message();
    }
    let mut out = decimal_exec(errors.len());
    push_str(&mut out, " planning errors:");
    let ghost head = out@;
    let mut i: usize = 0;
    assert(errors@.take(0) =~= Seq::<PlanError>::empty());
    assert(head + indented_messages(errors@.take(0)) =~= head);
    while i < errors.len()
        invariant
            i <= errors.len(),
            out@ == head + indented_messages(errors@.take(i as int)),
        decreases errors.len() - i,
    {
        assert(errors@.take(i + 1).drop_last() =~= errors@.take(i as int));
        assert(errors@.take(i + 1).last() == errors@[i as int]);
        push_str(&mut out, "\n  ");
        let m = chars_of(errors[i].message().as_str());
        push_all(&mut out, &m);
        i += 1;
    }
    assert(errors@.take(errors.len() as int) =~= errors@);
    string_of(&out)
}

/// One line describing a conflict.
pub open spec fn conflict_line(file: Seq<char>, a: Action) -> Seq<char> {
    match a {
        Action::Conflict { key, on_disk, default } => file + ": `"@ + key + "` is "@ + on_disk
            + " on disk but yard last wrote "@ + default + "; revert it or mark it `# yard:overridden`"@,
        _ => file,
    }
}

/// `"\n  " + line` for each conflict, in order.
pub open spec fn conflict_lines(cs: Seq<(Seq<char>, Action)>) -> Seq<char>
    decreases cs.len(),
{
    if cs.len() == 0 {
        seq![]
    } else {
        conflict_lines(cs.drop_last()) + "\n  "@ + conflict_line(cs.last().0, cs.last().1)
    }
}

/// The message for an engine error.
pub open spec fn engine_error_message(e: EngineError) -> Seq<char> {
    match e {
        EngineError::Read { path, message } => "could not read "@ + path@ + ": "@ + message@,
        EngineError::Write { path, message } => "could not write "@ + path@ + ": "@ + message@,
        EngineError::Delete { path, message } => "could not delete "@ + path@ + ": "@ + message@,
        EngineError::Plan(es) => plan_errors_text(es@),
        EngineError::Conflicts(cs) => decimal(cs@.len()) + " conflict(s) block the apply; nothing was written:"@
            + conflict_lines(cs@.map_values(|c: (String, KeyAction)| (c.0@, c.1@))),
    }
}

/// `a + b + ": " + c` as characters.
fn three(a: &str, b: &String, c: &String) -> (r: Vec<char>)
    ensures
        r@ == a@ + b@ + ": "@ + c@,
{
    let mut out: Vec<char> = Vec::new();
    push_str(&mut out, a);
    let bc = chars_of(b.as_str());
    push_all(&mut out, &bc);
    push_str(&mut out, ": ");
    let cc = chars_of(c.as_str());
    push_all(&mut out, &cc);
    out
}

impl EngineError {
    /// A human-readable description of the error.
    pub fn message(&self) -> (r: String)
        ensures
            r@ == engine_error_message(*self),
    {
        match self {
            EngineError::Read { path, message } => string_of(&three("could not read ", path, message)),
            EngineError::Write { path, message } => string_of(&three("could not write ", path, message)),
            EngineError::Delete { path, message } => string_of(&three("could not delete ", path, message)),
            EngineError::Plan(es) => format_plan_errors(es),
            EngineError::Conflicts(cs) => {
                let ghost cv = cs@.map_values(|c: (String, KeyAction)| (c.0@, c.1@));
                let mut out = decimal_exec(cs.len());
                push_str(&mut out, " conflict(s) block the apply; nothing was written:");
                let ghost head = out@;
                let mut i: usize = 0;
                assert(cv.take(0) =~= Seq::<(Seq<char>, Action)>::empty());
                assert(head + conflict_lines(cv.take(0)) =~= head);
                while i < cs.len()
                    invariant
                        i <= cs.len(),
                        cv == cs@.map_values(|c: (String, KeyAction)| (c.0@, c.1@)),
                        out@ == head + conflict_lines(cv.take(i as int)),
                    decreases cs.len() - i,
                {
                    assert(cv.take(i + 1).drop_last() =~= cv.take(i as int));
                    assert(cv.take(i + 1).last() == (cs@[i as int].0@, cs@[i as int].1@));
                    let ghost before = out@;
                    push_str(&mut out, "\n  ");
                    let f = chars_of(cs[i].0.as_str());
                    push_all(&mut out, &f);
                    match &cs[i].1 {
                        KeyAction::Conflict { key, on_disk, default } => {
                            push_str(&mut out, ": `");
                            let k = chars_of(key.as_str());
                            push_all(&mut out, &k);
                            push_str(&mut out, "` is ");
                            let o = chars_of(on_disk.as_str());
                            push_all(&mut out, &o);
                            push_str(&mut out, " on disk but yard last wrote ");
                            let d = chars_of(default.as_str());
                            push_all(&mut out, &d);
                            push_str(&mut out, "; revert it or mark it `# yard:overridden`");
                        },
                        _ => {},
                    }
                    assert(out@ =~= before + "\n  "@ + conflict_line(cs@[i as int].0@, cs@[i as int].1@));
                    i += 1;
                }
                assert(cv.take(cs.len() as int) =~= cv);
                string_of(&out)
            },
        }
    }
}

} // verus!
