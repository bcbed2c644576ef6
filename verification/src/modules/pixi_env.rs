//! `pixi_env` module — emits the pixi configuration for the ROS 2
//! workspace: `workspace.name` from the workspace directory name,
//! `workspace.channels` for the configured distribution (conda-forge plus
//! the matching robostack channel), and dependencies on Python and the
//! distribution's desktop metapackage.
use vstd::prelude::*;

use crate::adaptors::pixi::{PixiContribution, PixiIntent};
use crate::text::{push_str, string_of};
use crate::{Contribution, ContributionV, ModuleContext, RosDistro, distro_name};

verus! {

/// The contribution for a distribution and a workspace directory name.
pub open spec fn pixi_contribution(distro: RosDistro, workspace_name: Option<String>) -> ContributionV {
    ContributionV::Pixi(
        PixiIntent {
            workspace_name: crate::adaptors::pixi::opt_string_view(workspace_name),
            channels: seq!["conda-forge"@, "robostack-"@ + distro_name(distro)],
            dependencies: seq![
                ("python"@, ">=3.11"@),
                ("ros-"@ + distro_name(distro) + "-desktop"@, "*"@),
            ],
        },
    )
}

/// `a + b + c` as a `String`.
fn joined(a: &str, b: &str, c: &str) -> (r: String)
    ensures
        r@ == a@ + b@ + c@,
{
    let mut out: Vec<char> = Vec::new();
    push_str(&mut out, a);
    push_str(&mut out, b);
    push_str(&mut out, c);
    string_of(&out)
}

pub fn contribute(ctx: &ModuleContext) -> (r: Vec<Contribution>)
    ensures
        r@.map_values(|c: Contribution| c@) == seq![
            pixi_contribution(ctx.config.ros_distro, ctx.runtime.workspace_name),
        ],
{
    broadcast use vstd::string::group_string_axioms;

    let distro = ctx.config.ros_distro.as_str();
    let workspace_name = match &ctx.runtime.workspace_name {
        Some(n) => Some(n.clone()),
        None => None,
    };
    let mut channels: Vec<String> = Vec::new();
    channels.push("conda-forge".to_string());
    channels.push(joined("robostack-", distro, ""));
    let mut dependencies: Vec<(String, String)> = Vec::new();
    dependencies.push(("python".to_string(), ">=3.11".to_string()));
    dependencies.push((joined("ros-", distro, "-desktop"), "*".to_string()));
    let c = Contribution::Pixi(PixiContribution { workspace_name, channels, dependencies });
    let mut r: Vec<Contribution> = Vec::new();
    r.push(c);
    proof {
        reveal_strlit("");
        assert(crate::adaptors::strings_view(channels@) =~= seq![
            "conda-forge"@,
            "robostack-"@ + distro_name(ctx.config.ros_distro),
        ]);
        assert(crate::adaptors::pixi::pairs_view(dependencies@) =~= seq![
            ("python"@, ">=3.11"@),
            ("ros-"@ + distro_name(ctx.config.ros_distro) + "-desktop"@, "*"@),
        ]);
    }
    assert(r@.map_values(|c: Contribution| c@) =~= seq![
        pixi_contribution(ctx.config.ros_distro, ctx.runtime.workspace_name),
    ]);
    r
}

} // verus!
