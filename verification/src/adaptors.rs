//! Adaptors: reconcilers, one per managed output config type.
//!
//! Defines what every adaptor produces (`ApplyOutcome`, `KeyAction`) and how
//! planning fails (`PlanError`, `MergeError`). Implementations live in the
//! submodules. The engine routes contributions to adaptors by id and plans
//! each adaptor in [`registry`] order.
use vstd::prelude::*;

pub mod gitignore;
pub mod pixi;

use self::gitignore::fences::GitignoreParseError;
use self::gitignore::{FenceSpec, GitignoreAdaptor, GitignoreContribution, GitignoreDesired, merge_all, plan_gitignore};
use self::pixi::reconcile::{PixiErrKind, plan_pixi};
use self::pixi::{
    MergeState, PixiAdaptor, PixiContribution, PixiDesired, PixiIntent, PixiParseError, intent_of,
    merge_pixi,
};
use crate::{Contribution, ContributionV, RuntimeContext};

verus! {

/// Per-key (or per-block) action taken by an adaptor.
#[derive(Clone, Debug, PartialEq, Eq)]
pub enum KeyAction {
    /// Key/block already matches what yard would emit; no rewrite needed.
    InSync { key: String },
    /// Key/block existed but differed; yard rewrote it.
    Updated { key: String, from: String, to: String },
    /// Key/block was absent (or the file did not exist); yard emitted it.
    Reemitted { key: String, to: String },
    /// Key was present without a marker; yard kept its value and attached
    /// `# yard:managed default=<default>`, where `default` is the value yard
    /// wants. How the value compares with it is reported on the next apply.
    Marked { key: String, default: String },
    /// Key/block carries a `yard:overridden` marker: the user took ownership
    /// and yard never touches it.
    Overridden { key: String },
    /// Key/block was managed by yard but is no longer wanted; yard removed it.
    Deleted { key: String, was: String },
    /// The user wrote `# yard:omit <key>`; yard does not emit it.
    Omitted { key: String },
    /// The marker says yard manages the key but its value drifted from the
    /// recorded `default=`; the apply must not write anything.
    Conflict { key: String, on_disk: String, default: String },
}

/// Spec view of a [`KeyAction`].
pub enum Action {
    InSync { key: Seq<char> },
    Updated { key: Seq<char>, from: Seq<char>, to: Seq<char> },
    Reemitted { key: Seq<char>, to: Seq<char> },
    Marked { key: Seq<char>, default: Seq<char> },
    Overridden { key: Seq<char> },
    Deleted { key: Seq<char>, was: Seq<char> },
    Omitted { key: Seq<char> },
    Conflict { key: Seq<char>, on_disk: Seq<char>, default: Seq<char> },
}

impl KeyAction {
    pub open spec fn view(&self) -> Action {
        match self {
            KeyAction::InSync { key } => Action::InSync { key: key@ },
            KeyAction::Updated { key, from, to } => Action::Updated {
                key: key@,
                from: from@,
                to: to@,
            },
            KeyAction::Reemitted { key, to } => Action::Reemitted { key: key@, to: to@ },
            KeyAction::Marked { key, default } => Action::Marked { key: key@, default: default@ },
            KeyAction::Overridden { key } => Action::Overridden { key: key@ },
            KeyAction::Deleted { key, was } => Action::Deleted { key: key@, was: was@ },
            KeyAction::Omitted { key } => Action::Omitted { key: key@ },
            KeyAction::Conflict { key, on_disk, default } => Action::Conflict {
                key: key@,
                on_disk: on_disk@,
                default: default@,
            },
        }
    }
}

/// The spec views of a list of actions.
pub open spec fn actions_view(v: Seq<KeyAction>) -> Seq<Action> {
    v.map_values(|a: KeyAction| a@)
}

/// The spec views of a list of strings.
pub open spec fn strings_view(v: Seq<String>) -> Seq<Seq<char>> {
    v.map_values(|s: String| s@)
}

/// Outcome of planning one adaptor.
///
/// `contents` is what the engine will write, or `None` when no file should
/// exist (the engine deletes any existing file or does nothing). `actions`
/// records what happened to each managed key or block; `warnings` carries
/// notes that do not block the apply.
#[derive(Clone, Debug, PartialEq, Eq)]
pub struct ApplyOutcome {
    pub contents: Option<String>,
    pub actions: Vec<KeyAction>,
    pub warnings: Vec<String>,
}

/// Spec view of an [`ApplyOutcome`].
pub struct Outcome {
    pub contents: Option<Seq<char>>,
    pub actions: Seq<Action>,
    pub warnings: Seq<Seq<char>>,
}

impl ApplyOutcome {
    pub open spec fn view(&self) -> Outcome {
        Outcome {
            contents: match self.contents {
                Some(c) => Some(c@),
                None => None,
            },
            actions: actions_view(self.actions@),
            warnings: strings_view(self.warnings@),
        }
    }
}

/// Two modules disagreed on a scalar contributed to the same adaptor: the
/// error names the adaptor, the offending key, both modules and both
/// values, in contribution order.
#[derive(Clone, Debug, PartialEq, Eq)]
pub struct MergeError {
    pub adaptor: &'static str,
    pub key: String,
    pub modules: Vec<&'static str>,
    pub values: Vec<String>,
}

/// Spec view of a [`MergeError`].
pub struct MergeErr {
    pub adaptor: Seq<char>,
    pub key: Seq<char>,
    pub modules: Seq<Seq<char>>,
    pub values: Seq<Seq<char>>,
}

impl MergeError {
    pub open spec fn view(&self) -> MergeErr {
        MergeErr {
            adaptor: self.adaptor@,
            key: self.key@,
            modules: self.modules@.map_values(|m: &'static str| m@),
            values: strings_view(self.values@),
        }
    }
}

/// A parse failure of some adaptor's existing file.
#[derive(Clone, Debug, PartialEq, Eq)]
pub enum ParseError {
    Gitignore(GitignoreParseError),
    Pixi(PixiParseError),
}

/// One planning failure. The engine collects these across every adaptor
/// before deciding to commit, so the user sees all problems at once.
#[derive(Clone, Debug, PartialEq, Eq)]
pub enum PlanError {
    /// The adaptor's existing file could not be read; `adaptor` is its id.
    Parse { adaptor: &'static str, source: ParseError },
    /// Two modules disagreed on a scalar.
    Merge(MergeError),
}

/// Spec view of a [`PlanError`]: a parse failure carries the id of the
/// adaptor whose file it is.
pub enum PlanErr {
    Gitignore(Seq<char>, GitignoreParseError),
    Pixi(Seq<char>, PixiErrKind),
    Merge(MergeErr),
}

impl PlanError {
    /// A copy of this error.
    pub fn clone_error(&self) -> (r: PlanError)
        ensures
            r@ == self@,
    {
        match self {
            PlanError::Parse { adaptor, source: ParseError::Gitignore(e) } => PlanError::Parse {
                adaptor: adaptor,
                source: ParseError::Gitignore(*e),
            },
            PlanError::Parse { adaptor, source: ParseError::Pixi(e) } => PlanError::Parse {
                adaptor: adaptor,
                source: ParseError::Pixi(
                    PixiParseError {
                        kind: match &e.kind {
                            pixi::PixiParseErrorKind::InvalidToml(m) => pixi::PixiParseErrorKind::InvalidToml(m.clone()),
                            pixi::PixiParseErrorKind::ManagedMissingDefault { line } => pixi::PixiParseErrorKind::ManagedMissingDefault { line: *line },
                            pixi::PixiParseErrorKind::DefaultShapeMismatch { line } => pixi::PixiParseErrorKind::DefaultShapeMismatch { line: *line },
                            pixi::PixiParseErrorKind::UnreadableValue { line } => pixi::PixiParseErrorKind::UnreadableValue { line: *line },
                            pixi::PixiParseErrorKind::MarkedAndOmitted { line } => pixi::PixiParseErrorKind::MarkedAndOmitted { line: *line },
                        },
                    },
                ),
            },
            PlanError::Merge(m) => {
                let mut modules: Vec<&'static str> = Vec::new();
                let mut i: usize = 0;
                while i < m.modules.len()
                    invariant
                        i <= m.modules.len(),
                        modules@ == m.modules@.take(i as int),
                    decreases m.modules.len() - i,
                {
                    modules.push(m.modules[i]);
                    assert(m.modules@.take(i + 1) =~= m.modules@.take(i as int).push(m.modules@[i as int]));
                    i += 1;
                }
                assert(m.modules@.take(m.modules.len() as int) =~= m.modules@);
                let mut values: Vec<String> = Vec::new();
                let mut j: usize = 0;
                while j < m.values.len()
                    invariant
                        j <= m.values.len(),
                        values@ == m.values@.take(j as int),
                    decreases m.values.len() - j,
                {
                    values.push(m.values[j].clone());
                    assert(m.values@.take(j + 1) =~= m.values@.take(j as int).push(m.values@[j as int]));
                    j += 1;
                }
                assert(m.values@.take(m.values.len() as int) =~= m.values@);
                PlanError::Merge(MergeError { adaptor: m.adaptor, key: m.key.clone(), modules, values })
            },
        }
    }

    pub open spec fn view(&self) -> PlanErr {
        match self {
            PlanError::Parse { adaptor, source: ParseError::Gitignore(e) } => PlanErr::Gitignore(adaptor@, *e),
            PlanError::Parse { adaptor, source: ParseError::Pixi(e) } => PlanErr::Pixi(adaptor@, e.kind@),
            PlanError::Merge(e) => PlanErr::Merge(e@),
        }
    }
}

/// Module-tagged contributions, as spec values.
pub type Tagged = Seq<(Seq<char>, ContributionV)>;

/// The spec views of module-tagged contributions.
pub open spec fn tagged_contributions_view(cs: Seq<(&'static str, Contribution)>) -> Tagged {
    cs.map_values(|p: (&'static str, Contribution)| (p.0@, p.1@))
}

/// The gitignore fragments among `cs`, in order.
pub open spec fn gitignore_parts(cs: Tagged) -> Seq<FenceSpec>
    decreases cs.len(),
{
    if cs.len() == 0 {
        seq![]
    } else {
        let before = gitignore_parts(cs.drop_last());
        match cs.last().1 {
            ContributionV::Gitignore(f) => before.push(f),
            _ => before,
        }
    }
}

/// The pixi fragments among `cs`, with their modules, in order.
pub open spec fn pixi_parts(cs: Tagged) -> Seq<(Seq<char>, PixiIntent)>
    decreases cs.len(),
{
    if cs.len() == 0 {
        seq![]
    } else {
        let before = pixi_parts(cs.drop_last());
        match cs.last().1 {
            ContributionV::Pixi(p) => before.push((cs.last().0, p)),
            _ => before,
        }
    }
}

/// The adaptors baked into the binary.
#[derive(Clone, Copy, Debug, PartialEq, Eq, Structural)]
pub enum Adaptor {
    Gitignore,
    Pixi,
}

/// The id of an adaptor.
pub open spec fn adaptor_id_spec(a: Adaptor) -> Seq<char> {
    match a {
        Adaptor::Gitignore => "gitignore"@,
        Adaptor::Pixi => "pixi"@,
    }
}

/// The file an adaptor manages, relative to the workspace.
pub open spec fn adaptor_file_spec(a: Adaptor) -> Seq<char> {
    match a {
        Adaptor::Gitignore => ".gitignore"@,
        Adaptor::Pixi => "pixi.toml"@,
    }
}

/// What planning an adaptor yields: merge its fragments of `cs`, then
/// reconcile against the existing file.
pub open spec fn plan_spec(a: Adaptor, cs: Tagged, existing: Option<Seq<char>>) -> Result<Outcome, PlanErr> {
    match a {
        Adaptor::Gitignore => match plan_gitignore(merge_all(gitignore_parts(cs)), existing) {
            Ok(o) => Ok(o),
            Err(e) => Err(PlanErr::Gitignore(adaptor_id_spec(a), e)),
        },
        Adaptor::Pixi => match merge_pixi(pixi_parts(cs)) {
            Err(e) => Err(PlanErr::Merge(e)),
            Ok(st) => match plan_pixi(intent_of(st), existing) {
                Ok(o) => Ok(o),
                Err(e) => Err(PlanErr::Pixi(adaptor_id_spec(a), e)),
            },
        },
    }
}

impl Adaptor {
    /// Stable identifier, matched against [`Contribution::adaptor_id`].
    pub fn id(&self) -> (r: &'static str)
        ensures
            r@ == adaptor_id_spec(*self),
    {
        match self {
            Adaptor::Gitignore => GitignoreAdaptor.id(),
            Adaptor::Pixi => PixiAdaptor.id(),
        }
    }

    /// Where the managed file lives, relative to the workspace.
    pub fn path(&self, ctx: &RuntimeContext) -> (r: &'static str)
        ensures
            r@ == adaptor_file_spec(*self),
    {
        match self {
            Adaptor::Gitignore => GitignoreAdaptor.path(ctx),
            Adaptor::Pixi => PixiAdaptor.path(ctx),
        }
    }

    /// Merges this adaptor's share of `contribs` (each paired with the
    /// contributing module's id) and reconciles it against `existing`
    /// (`None` when no file is on disk).
    pub fn plan(
        &self,
        contribs: Vec<(&'static str, Contribution)>,
        existing: Option<&str>,
        ctx: &RuntimeContext,
    ) -> (r: Result<ApplyOutcome, PlanError>)
        ensures
            match r {
                Ok(o) => plan_spec(*self, tagged_contributions_view(contribs@), gitignore::opt_view(existing))
                    == Ok::<Outcome, PlanErr>(o@),
                Err(e) => plan_spec(*self, tagged_contributions_view(contribs@), gitignore::opt_view(existing))
                    == Err::<Outcome, PlanErr>(e@),
            },
            r matches Err(PlanError::Parse { adaptor, .. }) ==> adaptor@ == adaptor_id_spec(*self),
            r matches Err(PlanError::Merge(m)) ==> m.adaptor@ == adaptor_id_spec(*self),
    {
        let ghost cv = tagged_contributions_view(contribs@);
        match self {
            Adaptor::Gitignore => {
                let mut parts: Vec<GitignoreContribution> = Vec::new();
                let mut i: usize = 0;
                let mut contribs = contribs;
                assert(cv.take(0) =~= Seq::<(Seq<char>, ContributionV)>::empty());
                assert(gitignore::contributions_view(parts@) =~= Seq::<FenceSpec>::empty());
                while i < contribs.len()
                    invariant
                        i <= contribs.len(),
                        contribs@.len() == cv.len(),
                        forall|k: int| i <= k < cv.len() ==> (#[trigger] contribs@[k]).1@ == cv[k].1,
                        gitignore::contributions_view(parts@) == gitignore_parts(cv.take(i as int)),
                    decreases contribs.len() - i,
                {
                    assert(cv.take(i + 1).drop_last() =~= cv.take(i as int));
                    let mut item: (&'static str, Contribution) = ("", Contribution::Pixi(PixiContribution {
                        workspace_name: None,
                        channels: Vec::new(),
                        dependencies: Vec::new(),
                    }));
                    contribs.set_and_swap(i, &mut item);
                    let ghost before = gitignore::contributions_view(parts@);
                    match item.1 {
                        Contribution::Gitignore(g) => {
                            parts.push(g);
                            assert(gitignore::contributions_view(parts@) =~= before.push(parts@.last()@));
                        },
                        _ => {},
                    }
                    i += 1;
                }
                assert(cv.take(cv.len() as int) =~= cv);
                let desired = GitignoreDesired::from_contributions(parts);
                match GitignoreAdaptor.apply(&desired, existing, ctx) {
                    Ok(o) => Ok(o),
                    Err(e) => Err(PlanError::Parse { adaptor: "gitignore", source: ParseError::Gitignore(e) }),
                }
            },
            Adaptor::Pixi => {
                let mut parts: Vec<(&'static str, PixiContribution)> = Vec::new();
                let mut i: usize = 0;
                let mut contribs = contribs;
                assert(cv.take(0) =~= Seq::<(Seq<char>, ContributionV)>::empty());
                assert(pixi::tagged_view(parts@) =~= Seq::<(Seq<char>, PixiIntent)>::empty());
                while i < contribs.len()
                    invariant
                        i <= contribs.len(),
                        contribs@.len() == cv.len(),
                        forall|k: int| i <= k < cv.len() ==> ((#[trigger] contribs@[k]).0@, contribs@[k].1@) == cv[k],
                        pixi::tagged_view(parts@) == pixi_parts(cv.take(i as int)),
                    decreases contribs.len() - i,
                {
                    assert(cv.take(i + 1).drop_last() =~= cv.take(i as int));
                    let mut item: (&'static str, Contribution) = ("", Contribution::Pixi(PixiContribution {
                        workspace_name: None,
                        channels: Vec::new(),
                        dependencies: Vec::new(),
                    }));
                    contribs.set_and_swap(i, &mut item);
                    let ghost before = pixi::tagged_view(parts@);
                    let module = item.0;
                    match item.1 {
                        Contribution::Pixi(p) => {
                            parts.push((module, p));
                            assert(pixi::tagged_view(parts@) =~= before.push((module@, parts@.last().1@)));
                        },
                        _ => {},
                    }
                    i += 1;
                }
                assert(cv.take(cv.len() as int) =~= cv);
                match PixiDesired::from_contributions(parts) {
                    Err(e) => Err(PlanError::Merge(e)),
                    Ok(desired) => match PixiAdaptor.apply(&desired, existing, ctx) {
                        Ok(o) => Ok(o),
                        Err(e) => Err(PlanError::Parse { adaptor: "pixi", source: ParseError::Pixi(e) }),
                    },
                }
            },
        }
    }
}

/// The adaptors in registry order.
pub open spec fn registry_spec() -> Seq<Adaptor> {
    seq![Adaptor::Gitignore, Adaptor::Pixi]
}

/// Ordered set of adaptors baked into the binary; the order fixes the
/// order of files in the engine's report.
pub fn registry() -> (r: Vec<Adaptor>)
    ensures
        r@ == registry_spec(),
{
    let mut r: Vec<Adaptor> = Vec::new();
    r.push(Adaptor::Gitignore);
    r.push(Adaptor::Pixi);
    assert(r@ =~= registry_spec());
    r
}

/// Items joined by `", "`.
pub open spec fn comma_list(items: Seq<Seq<char>>) -> Seq<char>
    decreases items.len(),
{
    if items.len() == 0 {
        seq![]
    } else if items.len() == 1 {
        items[0]
    } else {
        comma_list(items.drop_last()) + ", "@ + items.last()
    }
}

/// Appends `items` joined by `", "` to `out`.
fn push_comma_list(out: &mut Vec<char>, items: &Vec<Vec<char>>)
    ensures
        final(out)@ == old(out)@ + comma_list(items@.map_values(|s: Vec<char>| s@)),
{
    let ghost iv = items@.map_values(|s: Vec<char>| s@);
    let mut i: usize = 0;
    assert(iv.take(0) =~= Seq::<Seq<char>>::empty());
    assert(old(out)@ + Seq::<char>::empty() =~= old(out)@);
    while i < items.len()
        invariant
            i <= items.len(),
            iv == items@.map_values(|s: Vec<char>| s@),
            out@ == old(out)@ + comma_list(iv.take(i as int)),
        decreases items.len() - i,
    {
        let ghost before = out@;
        assert(iv.take(i + 1).drop_last() =~= iv.take(i as int));
        assert(iv.take(i + 1).last() == items@[i as int]@);
        if i > 0 {
            crate::text::push_str(out, ", ");
        }
        crate::text::push_all(out, &items[i]);
        proof {
            if i == 0 {
                assert(out@ =~= before + iv[0]);
            } else {
                assert(out@ =~= before + ", "@ + items@[i as int]@);
            }
        }
        i += 1;
    }
    assert(iv.take(items.len() as int) =~= iv);
}

/// One character of a string as Rust's `Debug` writes it inside quotes.
pub open spec fn debug_char(c: char) -> Seq<char> {
    if c == '"' {
        seq!['\\', '"']
    } else if c == '\\' {
        seq!['\\', '\\']
    } else if c == '\n' {
        seq!['\\', 'n']
    } else if c == '\r' {
        seq!['\\', 'r']
    } else if c == '\t' {
        seq!['\\', 't']
    } else {
        seq![c]
    }
}

/// The characters of a string as Rust's `Debug` writes them inside quotes.
pub open spec fn debug_body(s: Seq<char>) -> Seq<char>
    decreases s.len(),
{
    if s.len() == 0 {
        seq![]
    } else {
        debug_body(s.drop_last()) + debug_char(s.last())
    }
}

/// A string quoted as Rust's `Debug` writes it.
pub open spec fn debug_quoted(s: Seq<char>) -> Seq<char> {
    seq!['"'] + debug_body(s) + seq!['"']
}

/// A list of strings as Rust's `Debug` writes it: `["a", "b"]`.
pub open spec fn debug_list(items: Seq<Seq<char>>) -> Seq<char> {
    seq!['['] + comma_list(items.map_values(|s: Seq<char>| debug_quoted(s))) + seq![']']
}

/// The message for a merge conflict: `merge conflict on `<key>` in
/// <adaptor>: modules ["m1", "m2"] disagree (values ["v1", "v2"])`.
pub open spec fn merge_error_message(e: MergeErr) -> Seq<char> {
    "merge conflict on `"@ + e.key + "` in "@ + e.adaptor + ": modules "@ + debug_list(e.modules)
        + " disagree (values "@ + debug_list(e.values) + ")"@
}

/// `s` quoted as Rust's `Debug` writes it.
fn debug_quoted_exec(s: &Vec<char>) -> (r: Vec<char>)
    ensures
        r@ == debug_quoted(s@),
{
    let mut body: Vec<char> = Vec::new();
    body.push('"');
    let mut i: usize = 0;
    assert(s@.take(0) =~= Seq::<char>::empty());
    while i < s.len()
        invariant
            i <= s.len(),
            body@ == seq!['"'] + debug_body(s@.take(i as int)),
        decreases s.len() - i,
    {
        let ghost before = body@;
        assert(s@.take(i + 1).drop_last() =~= s@.take(i as int));
        assert(s@.take(i + 1).last() == s@[i as int]);
        let c = s[i];
        if c == '"' {
            body.push('\\');
            body.push('"');
        } else if c == '\\' {
            body.push('\\');
            body.push('\\');
        } else if c == '\n' {
            body.push('\\');
            body.push('n');
        } else if c == '\r' {
            body.push('\\');
            body.push('r');
        } else if c == '\t' {
            body.push('\\');
            body.push('t');
        } else {
            body.push(c);
        }
        assert(body@ =~= before + debug_char(c));
        i += 1;
    }
    assert(s@.take(s.len() as int) =~= s@);
    body.push('"');
    body
}

/// Appends `items` as Rust's `Debug` writes a list of strings.
fn push_debug_list(out: &mut Vec<char>, items: &Vec<Vec<char>>)
    ensures
        final(out)@ == old(out)@ + debug_list(items@.map_values(|s: Vec<char>| s@)),
{
    let ghost iv = items@.map_values(|s: Vec<char>| s@);
    let mut quoted: Vec<Vec<char>> = Vec::new();
    let mut i: usize = 0;
    while i < items.len()
        invariant
            i <= items.len(),
            iv == items@.map_values(|s: Vec<char>| s@),
            quoted@.map_values(|s: Vec<char>| s@) == iv.take(i as int).map_values(|s: Seq<char>| debug_quoted(s)),
        decreases items.len() - i,
    {
        let ghost before = quoted@.map_values(|s: Vec<char>| s@);
        quoted.push(debug_quoted_exec(&items[i]));
        assert(quoted@.map_values(|s: Vec<char>| s@) =~= before.push(debug_quoted(iv[i as int])));
        assert(iv.take(i + 1).map_values(|s: Seq<char>| debug_quoted(s)) =~= iv.take(i as int).map_values(
            |s: Seq<char>| debug_quoted(s),
        ).push(debug_quoted(iv[i as int])));
        i += 1;
    }
    assert(iv.take(items.len() as int) =~= iv);
    out.push('[');
    let ghost mid = out@;
    push_comma_list(out, &quoted);
    out.push(']');
    assert(out@ =~= old(out)@ + debug_list(iv));
}

impl MergeError {
    /// A human-readable description naming the key, both modules and both
    /// values.
    pub fn message(&self) -> (r: String)
        ensures
            r@ == merge_error_message(self@),
    {
        let mut out: Vec<char> = Vec::new();
        crate::text::push_str(&mut out, "merge conflict on `");
        let key = crate::text::chars_of(self.key.as_str());
        crate::text::push_all(&mut out, &key);
        crate::text::push_str(&mut out, "` in ");
        crate::text::push_str(&mut out, self.adaptor);
        crate::text::push_str(&mut out, ": modules ");
        let mut mods: Vec<Vec<char>> = Vec::new();
        let mut i: usize = 0;
        while i < self.modules.len()
            invariant
                i <= self.modules.len(),
                mods@.map_values(|s: Vec<char>| s@) == self.modules@.map_values(|m: &'static str| m@).take(
                    i as int,
                ),
            decreases self.modules.len() - i,
        {
            let ghost before = mods@.map_values(|s: Vec<char>| s@);
            mods.push(crate::text::chars_of(self.modules[i]));
            assert(mods@.map_values(|s: Vec<char>| s@) =~= before.push(self.modules@[i as int]@));
            assert(self.modules@.map_values(|m: &'static str| m@).take(i + 1) =~= self.modules@.map_values(
                |m: &'static str| m@,
            ).take(i as int).push(self.modules@[i as int]@));
            i += 1;
        }
        assert(self.modules@.map_values(|m: &'static str| m@).take(self.modules.len() as int)
            =~= self.modules@.map_values(|m: &'static str| m@));
        push_debug_list(&mut out, &mods);
        crate::text::push_str(&mut out, " disagree (values ");
        let mut vals: Vec<Vec<char>> = Vec::new();
        let mut j: usize = 0;
        while j < self.values.len()
            invariant
                j <= self.values.len(),
                vals@.map_values(|s: Vec<char>| s@) == strings_view(self.values@).take(j as int),
            decreases self.values.len() - j,
        {
            let ghost before = vals@.map_values(|s: Vec<char>| s@);
            vals.push(crate::text::chars_of(self.values[j].as_str()));
            assert(vals@.map_values(|s: Vec<char>| s@) =~= before.push(self.values@[j as int]@));
            assert(strings_view(self.values@).take(j + 1) =~= strings_view(self.values@).take(
                j as int,
            ).push(self.values@[j as int]@));
            j += 1;
        }
        assert(strings_view(self.values@).take(self.values.len() as int) =~= strings_view(
            self.values@,
        ));
        push_debug_list(&mut out, &vals);
        crate::text::push_str(&mut out, ")");
        crate::text::string_of(&out)
    }
}

/// The message for a planning failure.
pub open spec fn plan_error_message(e: PlanError) -> Seq<char> {
    match e {
        PlanError::Parse { source: ParseError::Gitignore(g), .. } => gitignore::fences::gitignore_error_message(g),
        PlanError::Parse { source: ParseError::Pixi(p), .. } => pixi::pixi_error_message(p.kind@),
        PlanError::Merge(m) => merge_error_message(m@),
    }
}

impl PlanError {
    /// A human-readable description; it names the file for parse failures.
    pub fn message(&self) -> (r: String)
        ensures
            r@ == plan_error_message(*self),
    {
        match self {
            PlanError::Parse { source: ParseError::Gitignore(g), .. } => g.message(),
            PlanError::Parse { source: ParseError::Pixi(p), .. } => p.message(),
            PlanError::Merge(m) => m.message(),
        }
    }
}

} // verus!
