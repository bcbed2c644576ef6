//! Modules: pure functions from the module context to typed contributions.
use vstd::prelude::*;

pub mod pixi_env;
pub mod ros_workspace;

use crate::{Contribution, ContributionV, ModuleContext};

verus! {

/// The modules baked into the binary.
#[derive(Clone, Copy, Debug, PartialEq, Eq, Structural)]
pub enum ModuleKind {
    RosWorkspace,
    PixiEnv,
}

/// A module: an id (used in diagnostics) and which contribution function
/// it runs.
#[derive(Clone, Copy, Debug, PartialEq, Eq)]
pub struct Module {
    pub id: &'static str,
    pub kind: ModuleKind,
}

/// What a module contributes in a context.
pub open spec fn module_contributions(kind: ModuleKind, ctx: ModuleContext) -> Seq<ContributionV> {
    match kind {
        ModuleKind::RosWorkspace => ros_workspace::standard_ignores(),
        ModuleKind::PixiEnv => seq![pixi_env::pixi_contribution(ctx.config.ros_distro, ctx.runtime.workspace_name)],
    }
}

/// The spec views of a list of contributions.
pub open spec fn contributions_view(v: Seq<Contribution>) -> Seq<ContributionV> {
    v.map_values(|c: Contribution| c@)
}

impl Module {
    /// Runs this module.
    pub fn contribute(&self, ctx: &ModuleContext) -> (r: Vec<Contribution>)
        ensures
            contributions_view(r@) == module_contributions(self.kind, *ctx),
    {
        match self.kind {
            ModuleKind::RosWorkspace => ros_workspace::contribute(ctx),
            ModuleKind::PixiEnv => pixi_env::contribute(ctx),
        }
    }
}

/// The modules in registry order: `ros_workspace`, then `pixi_env`.
pub open spec fn registry_spec() -> Seq<(Seq<char>, ModuleKind)> {
    seq![("ros_workspace"@, ModuleKind::RosWorkspace), ("pixi_env"@, ModuleKind::PixiEnv)]
}

/// The ordered set of modules baked into the binary. Order fixes the order
/// of items in merged `Desired` values.
pub fn registry() -> (r: Vec<Module>)
    ensures
        r@.map_values(|m: Module| (m.id@, m.kind)) == registry_spec(),
{
    let mut r: Vec<Module> = Vec::new();
    r.push(Module { id: "ros_workspace", kind: ModuleKind::RosWorkspace });
    r.push(Module { id: "pixi_env", kind: ModuleKind::PixiEnv });
    assert(r@.map_values(|m: Module| (m.id@, m.kind)) =~= registry_spec());
    r
}

} // verus!
