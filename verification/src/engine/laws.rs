//! What holds of every engine pass: apply is all or nothing, and a second
//! run leaves the `.gitignore` the first one wrote as it is.
use vstd::prelude::*;

use crate::adaptors::{Action, Outcome, PlanErr, registry_spec};
use crate::ModuleContext;
use super::{
    CommitV, EngineDecision, all_conflicts, conflicts_in, contributions_of, decide, existing_at, plan_failures,
    plan_results, routed,
};
use crate::adaptors::{Adaptor, gitignore_parts, plan_spec};
use crate::adaptors::gitignore::{merge_all, plan_gitignore};
use crate::adaptors::gitignore::fences::{close_prefix, omit_prefix, open_prefix};
use crate::adaptors::gitignore::laws::{desired_ok, fence_line_ok, law_apply_idempotent, quiet};
use crate::text::{free_of, starts_with, strip_eol};

verus! {

/// `acts` holds a `Conflict`.
pub open spec fn has_conflict(acts: Seq<Action>) -> bool {
    exists|k: int| 0 <= k < acts.len() && #[trigger] acts[k] is Conflict
}

/// The actions a planned commit reports.
pub open spec fn commit_actions(c: CommitV) -> Seq<Action> {
    match c {
        CommitV::Write(_, acts) => acts,
        CommitV::Delete(acts) => acts,
        CommitV::Noop => seq![],
    }
}

/// No conflict is listed for `acts` exactly when they hold none.
proof fn lemma_conflicts_in(file: Seq<char>, acts: Seq<Action>)
    ensures
        (conflicts_in(file, acts).len() == 0) == !has_conflict(acts),
    decreases acts.len(),
{
    if acts.len() > 0 {
        let front = acts.drop_last();
        lemma_conflicts_in(file, front);
        if has_conflict(front) {
            let k = choose|k: int| 0 <= k < front.len() && #[trigger] front[k] is Conflict;
            assert(acts[k] == front[k]);
        }
        if has_conflict(acts) && !(acts.last() is Conflict) {
            let k = choose|k: int| 0 <= k < acts.len() && #[trigger] acts[k] is Conflict;
            assert(front[k] == acts[k]);
        }
        if acts.last() is Conflict {
            assert(acts[acts.len() - 1] is Conflict);
        }
    }
}

/// No conflict is listed across the plans exactly when no successful plan
/// holds one.
proof fn lemma_all_conflicts(ads: Seq<crate::adaptors::Adaptor>, rs: Seq<Result<Outcome, PlanErr>>)
    requires
        rs.len() <= ads.len(),
    ensures
        (all_conflicts(ads, rs).len() == 0) == forall|i: int|
            0 <= i < rs.len() && #[trigger] rs[i] is Ok ==> !has_conflict(rs[i]->Ok_0.actions),
    decreases rs.len(),
{
    if rs.len() > 0 {
        let front = rs.drop_last();
        lemma_all_conflicts(ads, front);
        let n = rs.len() - 1;
        match rs.last() {
            Ok(o) => {
                lemma_conflicts_in(crate::adaptors::adaptor_file_spec(ads[n]), o.actions);
            },
            Err(_) => {},
        }
        assert forall|i: int| 0 <= i < front.len() implies #[trigger] front[i] == rs[i] by {}
        if forall|i: int|
            0 <= i < rs.len() && #[trigger] rs[i] is Ok ==> !has_conflict(rs[i]->Ok_0.actions) {
            assert forall|i: int|
                0 <= i < front.len() && #[trigger] front[i] is Ok implies !has_conflict(
                front[i]->Ok_0.actions,
            ) by {
                assert(rs[i] is Ok);
            }
            assert(rs[n] == rs.last());
        }
        if all_conflicts(ads, rs).len() == 0 {
            assert(all_conflicts(ads, front).len() == 0);
            assert forall|i: int|
                0 <= i < rs.len() && #[trigger] rs[i] is Ok implies !has_conflict(
                rs[i]->Ok_0.actions,
            ) by {
                if i < front.len() {
                    assert(front[i] is Ok);
                } else {
                    assert(rs[i] == rs.last());
                }
            }
        }
    }
}

/// No plan failure is listed exactly when every plan succeeded.
proof fn lemma_plan_failures(rs: Seq<Result<Outcome, PlanErr>>)
    ensures
        (plan_failures(rs).len() == 0) == forall|i: int| 0 <= i < rs.len() ==> #[trigger] rs[i] is Ok,
    decreases rs.len(),
{
    if rs.len() > 0 {
        let front = rs.drop_last();
        lemma_plan_failures(front);
        assert forall|i: int| 0 <= i < front.len() implies #[trigger] front[i] == rs[i] by {}
        if forall|i: int| 0 <= i < rs.len() ==> #[trigger] rs[i] is Ok {
            assert forall|i: int| 0 <= i < front.len() implies #[trigger] front[i] is Ok by {
                assert(rs[i] is Ok);
            }
            assert(rs[rs.len() - 1] is Ok);
        }
        if plan_failures(rs).len() == 0 {
            assert(rs.last() is Ok);
            assert(plan_failures(front).len() == 0);
            assert forall|i: int| 0 <= i < rs.len() implies #[trigger] rs[i] is Ok by {
                if i < front.len() {
                    assert(front[i] is Ok);
                }
            }
        }
    }
}

/// Apply is all or nothing: the engine plans commits only when every
/// adaptor planned successfully and none reported a `Conflict`; then no
/// planned commit carries a conflict. Any failure or conflict anywhere
/// blocks every write.
pub proof fn law_apply_all_or_nothing(ctx: ModuleContext, existing: Seq<Option<Seq<char>>>)
    ensures
        ({
            let rs = plan_results(
                registry_spec(),
                contributions_of(crate::modules::registry_spec(), ctx),
                existing,
            );
            &&& (decide(ctx, existing) is Planned) == forall|i: int|
                0 <= i < rs.len() ==> #[trigger] rs[i] is Ok && !has_conflict(rs[i]->Ok_0.actions)
            &&& decide(ctx, existing) is Planned ==> forall|i: int|
                0 <= i < decide(ctx, existing)->Planned_0.len() ==> !has_conflict(
                    commit_actions(#[trigger] decide(ctx, existing)->Planned_0[i].1),
                )
        }),
{
    let ads = registry_spec();
    let rs = plan_results(ads, contributions_of(crate::modules::registry_spec(), ctx), existing);
    lemma_plan_failures(rs);
    lemma_all_conflicts(ads, rs);
    if decide(ctx, existing) is Planned {
        let files = decide(ctx, existing)->Planned_0;
        assert forall|i: int| 0 <= i < files.len() implies !has_conflict(
            commit_actions(#[trigger] files[i].1),
        ) by {
            assert(rs[i] is Ok);
        }
    }
    if forall|i: int| 0 <= i < rs.len() ==> #[trigger] rs[i] is Ok && !has_conflict(
        rs[i]->Ok_0.actions,
    ) {
        assert forall|i: int| 0 <= i < rs.len() implies #[trigger] rs[i] is Ok by {}
    }
}


/// A line that does not start with `#` and holds no line break can stand in
/// a fence.
proof fn lemma_plain_line_ok(l: Seq<char>)
    requires
        l.len() > 0,
        l[0] != '#',
        l.last() != '\r',
        free_of(l, '\n'),
    ensures
        fence_line_ok(l),
{
    reveal_strlit("# >>> yard:");
    reveal_strlit("# <<< yard:");
    reveal_strlit("# yard:omit ");
    let t = l.push('\n');
    assert(t.drop_last() =~= l);
    assert(strip_eol(t) == l);
    assert(!starts_with(l, open_prefix())) by {
        if starts_with(l, open_prefix()) {
            assert(l.subrange(0, open_prefix().len() as int)[0] == l[0]);
        }
    }
    assert(!starts_with(l, close_prefix())) by {
        if starts_with(l, close_prefix()) {
            assert(l.subrange(0, close_prefix().len() as int)[0] == l[0]);
        }
    }
    assert(!starts_with(l, omit_prefix())) by {
        if starts_with(l, omit_prefix()) {
            assert(l.subrange(0, omit_prefix().len() as int)[0] == l[0]);
        }
    }
}

/// The `.gitignore` fences the built-in modules want.
pub open spec fn builtin_fences(ctx: ModuleContext) -> Seq<crate::adaptors::gitignore::FenceSpec> {
    merge_all(gitignore_parts(routed(contributions_of(crate::modules::registry_spec(), ctx), "gitignore"@)))
}

/// The built-in modules want one fence, `standard-ignores`, which yard can
/// write and read back.
proof fn lemma_builtin_fences(ctx: ModuleContext)
    ensures
        desired_ok(builtin_fences(ctx)),
        builtin_fences(ctx).len() == 1,
{
    reveal_strlit("gitignore");
    reveal_strlit("pixi");
    reveal_strlit("standard-ignores");
    reveal_strlit("build/");
    reveal_strlit("install/");
    reveal_strlit("log/");
    let ms = crate::modules::registry_spec();
    let cs = contributions_of(ms, ctx);
    let m1 = ms.drop_last();
    assert(m1 =~= seq![ms[0]]);
    assert(m1.drop_last() =~= Seq::<(Seq<char>, crate::modules::ModuleKind)>::empty());
    assert(m1.last() == ms[0]);
    assert(ms.last() == ms[1]);
    let t1 = super::tag(ms[0].0, crate::modules::module_contributions(ms[0].1, ctx));
    let t2 = super::tag(ms[1].0, crate::modules::module_contributions(ms[1].1, ctx));
    assert(contributions_of(m1.drop_last(), ctx) == Seq::<(Seq<char>, crate::ContributionV)>::empty());
    assert(contributions_of(m1, ctx) == Seq::<(Seq<char>, crate::ContributionV)>::empty() + t1);
    assert(cs == contributions_of(m1, ctx) + t2);
    assert(t1.len() == 1 && t2.len() == 1);
    assert(cs =~= t1 + t2);
    assert(cs[0] == t1[0]);
    assert(cs[1] == t2[0]);
    assert(cs.len() == 2);
    assert(cs[0].1 == crate::ContributionV::Gitignore(("standard-ignores"@, seq!["build/"@, "install/"@, "log/"@])));
    assert(cs[1].1 is Pixi);
    assert("pixi"@.len() != "gitignore"@.len());
    assert("pixi"@ != "gitignore"@);
    let r = routed(cs, "gitignore"@);
    let c1 = cs.drop_last();
    assert(c1 =~= seq![cs[0]]);
    assert(c1.drop_last() =~= Seq::<(Seq<char>, crate::ContributionV)>::empty());
    assert(c1.last() == cs[0]);
    assert(routed(c1.drop_last(), "gitignore"@) == Seq::<(Seq<char>, crate::ContributionV)>::empty());
    assert(crate::target_adaptor(cs[0].1) == "gitignore"@);
    assert(routed(c1, "gitignore"@) == Seq::<(Seq<char>, crate::ContributionV)>::empty().push(cs[0]));
    assert(cs.last() == cs[1]);
    assert(crate::target_adaptor(cs[1].1) == "pixi"@);
    assert(r == routed(c1, "gitignore"@));
    assert(r =~= seq![cs[0]]);
    assert(r.drop_last() =~= Seq::<(Seq<char>, crate::ContributionV)>::empty());
    assert(r.last() == cs[0]);
    assert(gitignore_parts(r.drop_last()) == Seq::<crate::adaptors::gitignore::FenceSpec>::empty());
    let fs = builtin_fences(ctx);
    let f = ("standard-ignores"@, seq!["build/"@, "install/"@, "log/"@]);
    assert(gitignore_parts(r) =~= seq![f]);
    assert(seq![f].drop_last() =~= Seq::<crate::adaptors::gitignore::FenceSpec>::empty());
    let e = Seq::<crate::adaptors::gitignore::FenceSpec>::empty();
    assert(merge_all(e) == e);
    assert(seq![f].last() == f);
    assert(crate::adaptors::gitignore::index_of_id(e, f.0) < 0);
    assert(merge_all(seq![f]) == crate::adaptors::gitignore::merge_one(e, f));
    assert(crate::adaptors::gitignore::merge_one(e, f) == e.push(f));
    assert(fs =~= seq![f]);
    lemma_plain_line_ok("build/"@);
    lemma_plain_line_ok("install/"@);
    lemma_plain_line_ok("log/"@);
}

/// What a run leaves on disk: each written file holds its contents, a
/// deleted file is gone, the others stay as they were.
pub open spec fn after_run(existing: Seq<Option<Seq<char>>>, files: Seq<(Seq<char>, CommitV)>) -> Seq<Option<Seq<char>>> {
    Seq::new(
        files.len(),
        |i: int| match files[i].1 {
            CommitV::Write(c, _) => Some(c),
            CommitV::Delete(_) => None,
            CommitV::Noop => existing_at(existing, i),
        },
    )
}

/// Running again after a run that committed leaves the `.gitignore` as the
/// first run wrote it: the first run writes the file, planning it again
/// succeeds with the same text and reports every block in sync, overridden
/// or omitted, and where the second run commits, it writes that same text.
pub proof fn law_second_run_keeps_gitignore(ctx: ModuleContext, existing: Seq<Option<Seq<char>>>)
    requires
        decide(ctx, existing) is Planned,
    ensures
        ({
            let files = decide(ctx, existing)->Planned_0;
            let cs = contributions_of(crate::modules::registry_spec(), ctx);
            let ex2 = after_run(existing, files);
            let second = plan_results(registry_spec(), cs, ex2)[0];
            &&& files[0].1 is Write
            &&& second is Ok
            &&& second->Ok_0.contents == Some(files[0].1->Write_0)
            &&& forall|k: int| 0 <= k < second->Ok_0.actions.len() ==> quiet(#[trigger] second->Ok_0.actions[k])
            &&& decide(ctx, ex2) is Planned ==> decide(ctx, ex2)->Planned_0[0].1 == CommitV::Write(
                files[0].1->Write_0,
                second->Ok_0.actions,
            )
        }),
{
    let ads = registry_spec();
    let cs = contributions_of(crate::modules::registry_spec(), ctx);
    let rs = plan_results(ads, cs, existing);
    law_apply_all_or_nothing(ctx, existing);
    assert(rs[0] is Ok);
    lemma_builtin_fences(ctx);
    let fs = builtin_fences(ctx);
    reveal_strlit("gitignore");
    assert(ads[0] == Adaptor::Gitignore);
    assert(rs[0] == plan_spec(Adaptor::Gitignore, routed(cs, "gitignore"@), existing_at(existing, 0)));
    assert(plan_gitignore(fs, existing_at(existing, 0)) is Ok);
    let o1 = rs[0]->Ok_0;
    assert(plan_gitignore(fs, existing_at(existing, 0))->Ok_0 == o1);
    assert(o1.contents is Some);
    law_apply_idempotent(fs, existing_at(existing, 0));
    let files = decide(ctx, existing)->Planned_0;
    assert(files[0].1 == CommitV::Write(o1.contents->Some_0, o1.actions));
    let ex2 = after_run(existing, files);
    assert(existing_at(ex2, 0) == o1.contents);
    let rs2 = plan_results(ads, cs, ex2);
    assert(rs2[0] == plan_spec(Adaptor::Gitignore, routed(cs, "gitignore"@), o1.contents));
    assert(plan_gitignore(fs, o1.contents) is Ok);
    assert(rs2[0] == Ok::<Outcome, PlanErr>(plan_gitignore(fs, o1.contents)->Ok_0));
}

} // verus!
