//! `pixi.toml` adaptor — per-key comment marking strategy.
//!
//! yard manages `workspace.name`, `workspace.channels` and one
//! `dependencies.<name>` key per dependency. Each managed key carries a
//! trailing `# yard:managed default=<value>` comment recording what yard last
//! wrote; `# yard:overridden` hands a key to the user; `# yard:omit <path>`
//! tells yard not to emit a key.
use vstd::prelude::*;

pub mod laws;
pub mod lines;
pub mod reconcile;
pub mod roundtrip;
pub mod rerun;
pub mod settle;
pub mod value;

use crate::adaptors::{MergeErr, MergeError, strings_view};
use crate::adaptors::gitignore::add_missing;
use crate::text::{chars_of, same_chars, string_of};

verus! {

/// What went wrong reading an existing `pixi.toml`.
#[derive(Clone, Debug, PartialEq, Eq)]
pub enum PixiParseErrorKind {
    /// The file is not valid TOML; the TOML parser's message.
    InvalidToml(String),
    /// A `# yard:managed` marker without `default=`, on this 1-based line.
    ManagedMissingDefault { line: usize },
    /// A `default=` whose shape (string or array) differs from the value's,
    /// on this 1-based line.
    DefaultShapeMismatch { line: usize },
    /// A key yard manages whose value yard cannot read (an inline table,
    /// a multi-line array, another kind of value), on this 1-based line.
    UnreadableValue { line: usize },
    /// A key line carrying a yard marker whose path a `# yard:omit` line
    /// also names, on this 1-based line: a key has one marker at most.
    MarkedAndOmitted { line: usize },
}

impl PixiParseErrorKind {
    pub open spec fn view(&self) -> reconcile::PixiErrKind {
        match self {
            PixiParseErrorKind::InvalidToml(m) => reconcile::PixiErrKind::InvalidToml(m@),
            PixiParseErrorKind::ManagedMissingDefault { line } => reconcile::PixiErrKind::ManagedMissingDefault(
                *line as int,
            ),
            PixiParseErrorKind::DefaultShapeMismatch { line } => reconcile::PixiErrKind::DefaultShapeMismatch(
                *line as int,
            ),
            PixiParseErrorKind::UnreadableValue { line } => reconcile::PixiErrKind::UnreadableValue(*line as int),
            PixiParseErrorKind::MarkedAndOmitted { line } => reconcile::PixiErrKind::MarkedAndOmitted(*line as int),
        }
    }
}

/// Why the existing `pixi.toml` could not be reconciled.
#[derive(Clone, Debug, PartialEq, Eq)]
pub struct PixiParseError {
    pub kind: PixiParseErrorKind,
}

/// Fragment a module wants merged into `pixi.toml`.
#[derive(Clone, Debug, PartialEq, Eq, Default)]
pub struct PixiContribution {
    /// `workspace.name`; a scalar, so two modules must agree on it.
    pub workspace_name: Option<String>,
    /// `workspace.channels`; merged as an ordered union.
    pub channels: Vec<String>,
    /// `[dependencies]` entries as `(name, spec)`; one spec per name.
    pub dependencies: Vec<(String, String)>,
}

/// Merged intent the adaptor reconciles against the on-disk `pixi.toml`.
/// Dependencies are sorted by name, each name once.
#[derive(Clone, Debug, PartialEq, Eq, Default)]
pub struct PixiDesired {
    pub workspace_name: Option<String>,
    pub channels: Vec<String>,
    pub dependencies: Vec<(String, String)>,
}

/// Spec view of a contribution or of the merged intent.
pub struct PixiIntent {
    pub workspace_name: Option<Seq<char>>,
    pub channels: Seq<Seq<char>>,
    pub dependencies: Seq<(Seq<char>, Seq<char>)>,
}

pub open spec fn opt_string_view(o: Option<String>) -> Option<Seq<char>> {
    match o {
        Some(s) => Some(s@),
        None => None,
    }
}

pub open spec fn pairs_view(v: Seq<(String, String)>) -> Seq<(Seq<char>, Seq<char>)> {
    v.map_values(|p: (String, String)| (p.0@, p.1@))
}

impl PixiContribution {
    pub open spec fn view(&self) -> PixiIntent {
        PixiIntent {
            workspace_name: opt_string_view(self.workspace_name),
            channels: strings_view(self.channels@),
            dependencies: pairs_view(self.dependencies@),
        }
    }
}

impl PixiDesired {
    pub open spec fn view(&self) -> PixiIntent {
        PixiIntent {
            workspace_name: opt_string_view(self.workspace_name),
            channels: strings_view(self.channels@),
            dependencies: pairs_view(self.dependencies@),
        }
    }
}

/// `a` sorts strictly before `b`, comparing from index `i` on (the order of
/// Rust's `String`).
pub open spec fn lex_lt_from(a: Seq<char>, b: Seq<char>, i: int) -> bool
    decreases a.len() - i,
{
    if i < 0 || i >= a.len() {
        i >= 0 && i < b.len()
    } else if i >= b.len() {
        false
    } else if a[i] < b[i] {
        true
    } else if a[i] > b[i] {
        false
    } else {
        lex_lt_from(a, b, i + 1)
    }
}

/// `a` sorts strictly before `b`.
pub open spec fn lex_lt(a: Seq<char>, b: Seq<char>) -> bool {
    lex_lt_from(a, b, 0)
}

/// A merged dependency: name, spec, and the module that contributed it.
pub type DepEntry = (Seq<char>, Seq<char>, Seq<char>);

/// Index of the entry for `name`, or -1.
pub open spec fn dep_index_from(deps: Seq<DepEntry>, name: Seq<char>, j: int) -> int
    decreases deps.len() - j,
{
    if j < 0 || j >= deps.len() {
        -1
    } else if deps[j].0 == name {
        j
    } else {
        dep_index_from(deps, name, j + 1)
    }
}

/// Where `name` goes to keep `deps` sorted: the first entry it sorts before.
pub open spec fn insert_pos_from(deps: Seq<DepEntry>, name: Seq<char>, j: int) -> int
    decreases deps.len() - j,
{
    if j < 0 || j >= deps.len() {
        deps.len() as int
    } else if lex_lt(name, deps[j].0) {
        j
    } else {
        insert_pos_from(deps, name, j + 1)
    }
}

/// The merge state: `workspace.name` with the module that set it, the
/// channels, and the dependencies with the modules that set them.
pub struct MergeState {
    pub name: Option<(Seq<char>, Seq<char>)>,
    pub channels: Seq<Seq<char>>,
    pub deps: Seq<DepEntry>,
}

/// Adds one module's dependencies, in order.
pub open spec fn merge_deps(deps: Seq<DepEntry>, module: Seq<char>, new: Seq<(Seq<char>, Seq<char>)>) -> Result<
    Seq<DepEntry>,
    MergeErr,
>
    decreases new.len(),
{
    if new.len() == 0 {
        Ok(deps)
    } else {
        match merge_deps(deps, module, new.drop_last()) {
            Err(e) => Err(e),
            Ok(d) => {
                let (k, v) = new.last();
                let i = dep_index_from(d, k, 0);
                if i >= 0 {
                    if d[i].1 == v {
                        Ok(d)
                    } else {
                        Err(
                            MergeErr {
                                adaptor: "pixi"@,
                                key: "dependencies."@ + k,
                                modules: seq![d[i].2, module],
                                values: seq![d[i].1, v],
                            },
                        )
                    }
                } else {
                    Ok(d.insert(insert_pos_from(d, k, 0), (k, v, module)))
                }
            },
        }
    }
}

/// Folds one module's contribution into the merge state.
pub open spec fn merge_contribution(st: MergeState, module: Seq<char>, c: PixiIntent) -> Result<
    MergeState,
    MergeErr,
> {
    let name = match (st.name, c.workspace_name) {
        (Some((v, m)), Some(v2)) => if v == v2 {
            Ok(st.name)
        } else {
            Err(MergeErr { adaptor: "pixi"@, key: "workspace.name"@, modules: seq![m, module], values: seq![v, v2] })
        },
        (None, Some(v2)) => Ok(Some((v2, module))),
        (_, None) => Ok(st.name),
    };
    match name {
        Err(e) => Err(e),
        Ok(n) => match merge_deps(st.deps, module, c.dependencies) {
            Err(e) => Err(e),
            Ok(d) => Ok(MergeState { name: n, channels: add_missing(st.channels, c.channels), deps: d }),
        },
    }
}

/// Folds all contributions, in order.
pub open spec fn merge_pixi(cs: Seq<(Seq<char>, PixiIntent)>) -> Result<MergeState, MergeErr>
    decreases cs.len(),
{
    if cs.len() == 0 {
        Ok(MergeState { name: None, channels: seq![], deps: seq![] })
    } else {
        match merge_pixi(cs.drop_last()) {
            Err(e) => Err(e),
            Ok(st) => merge_contribution(st, cs.last().0, cs.last().1),
        }
    }
}

/// The merged intent of a merge state.
pub open spec fn intent_of(st: MergeState) -> PixiIntent {
    PixiIntent {
        workspace_name: match st.name {
            Some((v, _)) => Some(v),
            None => None,
        },
        channels: st.channels,
        dependencies: st.deps.map_values(|e: DepEntry| (e.0, e.1)),
    }
}

/// The spec views of module-tagged contributions.
pub open spec fn tagged_view(cs: Seq<(&'static str, PixiContribution)>) -> Seq<(Seq<char>, PixiIntent)> {
    cs.map_values(|p: (&'static str, PixiContribution)| (p.0@, p.1@))
}

/// Whether `a` sorts strictly before `b`.
fn lex_lt_exec(a: &Vec<char>, b: &Vec<char>) -> (r: bool)
    ensures
        r == lex_lt(a@, b@),
{
    let mut i: usize = 0;
    while i < a.len()
        invariant
            i <= a.len(),
            lex_lt(a@, b@) == lex_lt_from(a@, b@, i as int),
        decreases a.len() - i,
    {
        if i >= b.len() {
            return false;
        }
        if a[i] < b[i] {
            return true;
        }
        if a[i] > b[i] {
            return false;
        }
        i += 1;
    }
    i < b.len()
}

/// The merge state behind its executable parts.
pub open spec fn state_view(
    name: Option<(String, &'static str)>,
    channels: Seq<String>,
    deps: Seq<(String, String)>,
    mods: Seq<&'static str>,
) -> MergeState {
    MergeState {
        name: match name {
            Some((v, m)) => Some((v@, m@)),
            None => None,
        },
        channels: strings_view(channels),
        deps: Seq::new(deps.len(), |i: int| (deps[i].0@, deps[i].1@, mods[i]@)),
    }
}

/// A two-element list.
fn pair_of<T>(a: T, b: T) -> (r: Vec<T>)
    ensures
        r@ == seq![a, b],
{
    let mut r: Vec<T> = Vec::new();
    r.push(a);
    r.push(b);
    assert(r@ =~= seq![a, b]);
    r
}

/// `prefix` followed by `s`.
fn prefixed(prefix: &str, s: &String) -> (r: String)
    ensures
        r@ == prefix@ + s@,
{
    let mut out: Vec<char> = Vec::new();
    crate::text::push_str(&mut out, prefix);
    let sc = chars_of(s.as_str());
    crate::text::push_all(&mut out, &sc);
    string_of(&out)
}

/// What [`dep_index_from`] finds.
proof fn lemma_dep_index_from(deps: Seq<DepEntry>, name: Seq<char>, j: int)
    requires
        0 <= j,
    ensures
        dep_index_from(deps, name, j) == -1 || (j <= dep_index_from(deps, name, j) < deps.len()
            && deps[dep_index_from(deps, name, j)].0 == name),
    decreases deps.len() - j,
{
    if j < deps.len() && deps[j].0 != name {
        lemma_dep_index_from(deps, name, j + 1);
    }
}

/// What [`insert_pos_from`] finds.
proof fn lemma_insert_pos_from(deps: Seq<DepEntry>, name: Seq<char>, j: int)
    requires
        0 <= j <= deps.len(),
    ensures
        j <= insert_pos_from(deps, name, j) <= deps.len(),
    decreases deps.len() - j,
{
    if j < deps.len() && !lex_lt(name, deps[j].0) {
        lemma_insert_pos_from(deps, name, j + 1);
    }
}

/// Index of the merged dependency named `k`.
fn find_dep(deps: &Vec<(String, String)>, mods: &Vec<&'static str>, k: &String) -> (r: Option<usize>)
    requires
        deps@.len() == mods@.len(),
    ensures
        match r {
            Some(i) => dep_index_from(state_view(None, seq![], deps@, mods@).deps, k@, 0) == i && i < deps@.len(),
            None => dep_index_from(state_view(None, seq![], deps@, mods@).deps, k@, 0) == -1,
        },
{
    let ghost dv = state_view(None, seq![], deps@, mods@).deps;
    proof {
        lemma_dep_index_from(dv, k@, 0);
    }
    let mut i: usize = 0;
    while i < deps.len()
        invariant
            i <= deps.len(),
            deps@.len() == mods@.len(),
            dv == state_view(None, seq![], deps@, mods@).deps,
            dep_index_from(dv, k@, 0) == dep_index_from(dv, k@, i as int),
        decreases deps.len() - i,
    {
        assert(dv[i as int].0 == deps@[i as int].0@);
        if deps[i].0 == *k {
            return Some(i);
        }
        i += 1;
    }
    None
}

/// Where the dependency named `k` goes to keep the list sorted.
fn find_insert_pos(deps: &Vec<(String, String)>, mods: &Vec<&'static str>, k: &String) -> (r: usize)
    requires
        deps@.len() == mods@.len(),
    ensures
        insert_pos_from(state_view(None, seq![], deps@, mods@).deps, k@, 0) == r,
        r <= deps@.len(),
{
    let ghost dv = state_view(None, seq![], deps@, mods@).deps;
    proof {
        lemma_insert_pos_from(dv, k@, 0);
    }
    let kc = chars_of(k.as_str());
    let mut p: usize = 0;
    while p < deps.len()
        invariant
            p <= deps.len(),
            deps@.len() == mods@.len(),
            kc@ == k@,
            dv == state_view(None, seq![], deps@, mods@).deps,
            insert_pos_from(dv, k@, 0) == insert_pos_from(dv, k@, p as int),
        decreases deps.len() - p,
    {
        let pc = chars_of(deps[p].0.as_str());
        assert(dv[p as int].0 == pc@);
        if lex_lt_exec(&kc, &pc) {
            return p;
        }
        p += 1;
    }
    p
}

/// Once adding dependencies fails, it fails the same way on every longer
/// prefix.
proof fn lemma_merge_deps_err_sticks(
    deps: Seq<DepEntry>,
    module: Seq<char>,
    new: Seq<(Seq<char>, Seq<char>)>,
    n: int,
    m: int,
)
    requires
        0 <= n <= m <= new.len(),
        merge_deps(deps, module, new.take(n)) is Err,
    ensures
        merge_deps(deps, module, new.take(m)) == merge_deps(deps, module, new.take(n)),
    decreases m - n,
{
    if m > n {
        lemma_merge_deps_err_sticks(deps, module, new, n, m - 1);
        assert(new.take(m).drop_last() =~= new.take(m - 1));
    }
}

/// Adds one module's dependencies to the merged ones.
fn merge_deps_exec(
    deps: &mut Vec<(String, String)>,
    mods: &mut Vec<&'static str>,
    module: &'static str,
    new: &Vec<(String, String)>,
) -> (r: Result<(), MergeError>)
    requires
        old(deps)@.len() == old(mods)@.len(),
    ensures
        final(deps)@.len() == final(mods)@.len(),
        match r {
            Ok(()) => merge_deps(
                state_view(None, seq![], old(deps)@, old(mods)@).deps,
                module@,
                pairs_view(new@),
            ) == Ok::<Seq<DepEntry>, MergeErr>(state_view(None, seq![], final(deps)@, final(mods)@).deps),
            Err(e) => e.adaptor == "pixi" && merge_deps(
                state_view(None, seq![], old(deps)@, old(mods)@).deps,
                module@,
                pairs_view(new@),
            ) == Err::<Seq<DepEntry>, MergeErr>(e@),
        },
{
    let ghost d0 = state_view(None, seq![], deps@, mods@).deps;
    let ghost nv = pairs_view(new@);
    let mut j: usize = 0;
    assert(nv.take(0) =~= Seq::<(Seq<char>, Seq<char>)>::empty());
    while j < new.len()
        invariant
            j <= new.len(),
            deps@.len() == mods@.len(),
            nv == pairs_view(new@),
            d0 == state_view(None, seq![], old(deps)@, old(mods)@).deps,
            merge_deps(d0, module@, nv.take(j as int)) == Ok::<Seq<DepEntry>, MergeErr>(
                state_view(None, seq![], deps@, mods@).deps,
            ),
        decreases new.len() - j,
    {
        let ghost dv = state_view(None, seq![], deps@, mods@).deps;
        assert(nv.take(j + 1).drop_last() =~= nv.take(j as int));
        assert(nv.take(j + 1).last() == (new@[j as int].0@, new@[j as int].1@));
        let k = &new[j].0;
        let v = &new[j].1;
        proof {
            lemma_dep_index_from(dv, k@, 0);
        }
        let found = find_dep(deps, mods, k);
        match found {
            Some(i) => {
                assert(dv[i as int].1 == deps@[i as int].1@);
                if deps[i].1 != *v {
                    let key = prefixed("dependencies.", k);
                    let e = MergeError {
                        adaptor: "pixi",
                        key,
                        modules: pair_of(mods[i], module),
                        values: pair_of(deps[i].1.clone(), v.clone()),
                    };
                    proof {
                        assert(e@.modules =~= seq![dv[i as int].2, module@]);
                        assert(e@.values =~= seq![dv[i as int].1, v@]);
                        lemma_merge_deps_err_sticks(d0, module@, nv, j + 1, nv.len() as int);
                        assert(nv.take(nv.len() as int) =~= nv);
                    }
                    return Err(e);
                }
            },
            None => {
                let p = find_insert_pos(deps, mods, k);
                deps.insert(p, (k.clone(), v.clone()));
                mods.insert(p, module);
                assert(state_view(None, seq![], deps@, mods@).deps =~= dv.insert(p as int, (k@, v@, module@)));
            },
        }
        j += 1;
    }
    assert(nv.take(new.len() as int) =~= nv);
    Ok(())
}

/// Once merging fails, it fails the same way on every longer prefix.
proof fn lemma_merge_err_sticks(cs: Seq<(Seq<char>, PixiIntent)>, n: int, m: int)
    requires
        0 <= n <= m <= cs.len(),
        merge_pixi(cs.take(n)) is Err,
    ensures
        merge_pixi(cs.take(m)) == merge_pixi(cs.take(n)),
    decreases m - n,
{
    if m > n {
        lemma_merge_err_sticks(cs, n, m - 1);
        assert(cs.take(m).drop_last() =~= cs.take(m - 1));
    }
}

impl PixiDesired {
    /// Merges module contributions (tagged with the module's id), in order:
    /// `workspace.name` must agree across modules; channels form an ordered
    /// union; dependencies are kept sorted by name and must agree per name.
    /// A disagreement is a [`MergeError`] naming both modules.
    pub fn from_contributions(contribs: Vec<(&'static str, PixiContribution)>) -> (r: Result<
        Self,
        MergeError,
    >)
        ensures
            match r {
                Ok(d) => merge_pixi(tagged_view(contribs@)) matches Ok(st) && d@ == intent_of(st),
                Err(e) => e.adaptor == "pixi" && merge_pixi(tagged_view(contribs@)) == Err::<MergeState, MergeErr>(e@),
            },
    {
        let ghost cv = tagged_view(contribs@);
        let mut name: Option<(String, &'static str)> = None;
        let mut channels: Vec<String> = Vec::new();
        let mut deps: Vec<(String, String)> = Vec::new();
        let mut mods: Vec<&'static str> = Vec::new();
        let mut i: usize = 0;
        assert(cv.take(0) =~= Seq::<(Seq<char>, PixiIntent)>::empty());
        assert(state_view(name, channels@, deps@, mods@).deps =~= Seq::<DepEntry>::empty());
        assert(state_view(name, channels@, deps@, mods@).channels =~= Seq::<Seq<char>>::empty());
        while i < contribs.len()
            invariant
                i <= contribs.len(),
                cv == tagged_view(contribs@),
                deps@.len() == mods@.len(),
                merge_pixi(cv.take(i as int)) == Ok::<MergeState, MergeErr>(
                    state_view(name, channels@, deps@, mods@),
                ),
            decreases contribs.len() - i,
        {
            let module = contribs[i].0;
            let c = &contribs[i].1;
            let ghost st = state_view(name, channels@, deps@, mods@);
            assert(cv.take(i + 1).drop_last() =~= cv.take(i as int));
            assert(cv.take(i + 1).last() == (module@, c@));
            // workspace.name
            let new_name: Option<(String, &'static str)> = match (&name, &c.workspace_name) {
                (Some((v, m)), Some(v2)) => {
                    if *v != *v2 {
                        let e = MergeError {
                            adaptor: "pixi",
                            key: "workspace.name".to_string(),
                            modules: pair_of(*m, module),
                            values: pair_of(v.clone(), v2.clone()),
                        };
                        proof {
                            broadcast use vstd::string::group_string_axioms;
                            assert(e@.modules =~= seq![m@, module@]);
                            assert(e@.values =~= seq![v@, v2@]);
                            assert(merge_pixi(cv.take(i + 1)) == Err::<MergeState, MergeErr>(e@));
                            lemma_merge_err_sticks(cv, i + 1, cv.len() as int);
                            assert(cv.take(cv.len() as int) =~= cv);
                        }
                        return Err(e);
                    }
                    Some((v.clone(), *m))
                },
                (None, Some(v2)) => Some((v2.clone(), module)),
                (_, None) => match &name {
                    Some((v, m)) => Some((v.clone(), *m)),
                    None => None,
                },
            };
            let ghost d_before = st.deps;
            match merge_deps_exec(&mut deps, &mut mods, module, &c.dependencies) {
                Ok(()) => {},
                Err(e) => {
                    proof {
                        assert(merge_pixi(cv.take(i + 1)) == Err::<MergeState, MergeErr>(e@));
                        lemma_merge_err_sticks(cv, i + 1, cv.len() as int);
                        assert(cv.take(cv.len() as int) =~= cv);
                    }
                    return Err(e);
                },
            }
            // channels
            let mut j: usize = 0;
            let ghost ch0 = strings_view(channels@);
            let ghost cc = strings_view(c.channels@);
            assert(cc.take(0) =~= Seq::<Seq<char>>::empty());
            while j < c.channels.len()
                invariant
                    j <= c.channels.len(),
                    cc == strings_view(c.channels@),
                    strings_view(channels@) == add_missing(ch0, cc.take(j as int)),
                decreases c.channels.len() - j,
            {
                assert(cc.take(j + 1).drop_last() =~= cc.take(j as int));
                assert(cc.take(j + 1).last() == c.channels@[j as int]@);
                let mut present = false;
                let mut q: usize = 0;
                while q < channels.len()
                    invariant
                        q <= channels.len(),
                        j < c.channels.len(),
                        present == (exists|k: int| 0 <= k < q && strings_view(channels@)[k] == c.channels@[j as int]@),
                    decreases channels.len() - q,
                {
                    let ghost chv = strings_view(channels@);
                    assert(chv[q as int] == channels@[q as int]@);
                    if channels[q] == c.channels[j] {
                        present = true;
                    }
                    q += 1;
                }
                if !present {
                    let ghost chv = strings_view(channels@);
                    channels.push(c.channels[j].clone());
                    assert(strings_view(channels@) =~= chv.push(c.channels@[j as int]@));
                }
                j += 1;
            }
            assert(cc.take(c.channels.len() as int) =~= cc);
            name = new_name;
            i += 1;
        }
        assert(cv.take(contribs.len() as int) =~= cv);
        let ghost st = state_view(name, channels@, deps@, mods@);
        let workspace_name = match name {
            Some((v, _)) => Some(v),
            None => None,
        };
        let d = PixiDesired { workspace_name, channels, dependencies: deps };
        assert(d@.dependencies =~= intent_of(st).dependencies);
        Ok(d)
    }
}

pub struct PixiAdaptor;

impl PixiAdaptor {
    /// Stable identifier of this adaptor.
    pub fn id(&self) -> (r: &'static str)
        ensures
            r@ == "pixi"@,
    {
        "pixi"
    }

    /// Where the managed file lives, relative to the workspace.
    pub fn path(&self, _ctx: &crate::RuntimeContext) -> (r: &'static str)
        ensures
            r@ == "pixi.toml"@,
    {
        "pixi.toml"
    }

    /// Reconciles `desired` against the existing `pixi.toml` (`None` when
    /// there is no file), as [`reconcile::plan_pixi`] states.
    pub fn apply(
        &self,
        desired: &PixiDesired,
        existing: Option<&str>,
        _ctx: &crate::RuntimeContext,
    ) -> (r: Result<crate::adaptors::ApplyOutcome, PixiParseError>)
        ensures
            match r {
                Ok(o) => reconcile::plan_pixi(desired@, crate::adaptors::gitignore::opt_view(existing))
                    == Ok::<crate::adaptors::Outcome, reconcile::PixiErrKind>(o@),
                Err(e) => reconcile::plan_pixi(desired@, crate::adaptors::gitignore::opt_view(existing))
                    == Err::<crate::adaptors::Outcome, reconcile::PixiErrKind>(e.kind@),
            },
    {
        reconcile::plan_pixi_exec(desired, existing)
    }
}

/// The message for a pixi parse error: `pixi.toml: invalid TOML: <msg>`,
/// or `pixi.toml line <n>: <what is wrong>`.
pub open spec fn pixi_error_message(e: reconcile::PixiErrKind) -> Seq<char> {
    match e {
        reconcile::PixiErrKind::InvalidToml(m) => "pixi.toml: invalid TOML: "@ + m,
        reconcile::PixiErrKind::ManagedMissingDefault(n) => "pixi.toml line "@ + crate::text::decimal(
            n as nat,
        ) + ": `# yard:managed` marker without `default=`"@,
        reconcile::PixiErrKind::DefaultShapeMismatch(n) => "pixi.toml line "@ + crate::text::decimal(
            n as nat,
        ) + ": `default=` and the value differ in shape (string vs array)"@,
        reconcile::PixiErrKind::UnreadableValue(n) => "pixi.toml line "@ + crate::text::decimal(n as nat)
            + ": yard manages this key but cannot read its value (only a string or a one-line array of strings)"@,
        reconcile::PixiErrKind::MarkedAndOmitted(n) => "pixi.toml line "@ + crate::text::decimal(n as nat)
            + ": this key has a yard marker and a `# yard:omit` line names it too; keep one"@,
    }
}

impl PixiParseError {
    /// A human-readable description naming the file and, where there is
    /// one, the line.
    pub fn message(&self) -> (r: String)
        ensures
            r@ == pixi_error_message(self.kind@),
    {
        let mut out: Vec<char> = Vec::new();
        match &self.kind {
            PixiParseErrorKind::InvalidToml(m) => {
                crate::text::push_str(&mut out, "pixi.toml: invalid TOML: ");
                let mc = chars_of(m.as_str());
                crate::text::push_all(&mut out, &mc);
            },
            PixiParseErrorKind::ManagedMissingDefault { line } => {
                crate::text::push_str(&mut out, "pixi.toml line ");
                let d = crate::text::decimal_exec(*line);
                crate::text::push_all(&mut out, &d);
                crate::text::push_str(&mut out, ": `# yard:managed` marker without `default=`");
            },
            PixiParseErrorKind::DefaultShapeMismatch { line } => {
                crate::text::push_str(&mut out, "pixi.toml line ");
                let d = crate::text::decimal_exec(*line);
                crate::text::push_all(&mut out, &d);
                crate::text::push_str(
                    &mut out,
                    ": `default=` and the value differ in shape (string vs array)",
                );
            },
            PixiParseErrorKind::UnreadableValue { line } => {
                crate::text::push_str(&mut out, "pixi.toml line ");
                let d = crate::text::decimal_exec(*line);
                crate::text::push_all(&mut out, &d);
                crate::text::push_str(
                    &mut out,
                    ": yard manages this key but cannot read its value (only a string or a one-line array of strings)",
                );
            },
            PixiParseErrorKind::MarkedAndOmitted { line } => {
                crate::text::push_str(&mut out, "pixi.toml line ");
                let d = crate::text::decimal_exec(*line);
                crate::text::push_all(&mut out, &d);
                crate::text::push_str(
                    &mut out,
                    ": this key has a yard marker and a `# yard:omit` line names it too; keep one",
                );
            },
        }
        string_of(&out)
    }
}

} // verus!
