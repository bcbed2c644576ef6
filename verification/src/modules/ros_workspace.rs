//! `ros_workspace` module — always on; emits the standard ROS 2
//! build-artifact ignores (`build/`, `install/`, `log/`), which every
//! workspace built with `colcon` produces.
use vstd::prelude::*;

use crate::adaptors::gitignore::GitignoreContribution;
use crate::{Contribution, ContributionV, ModuleContext};

verus! {

/// The one contribution: fence `standard-ignores` with the build outputs.
pub open spec fn standard_ignores() -> Seq<ContributionV> {
    seq![ContributionV::Gitignore(("standard-ignores"@, seq!["build/"@, "install/"@, "log/"@]))]
}

pub fn contribute(_ctx: &ModuleContext) -> (r: Vec<Contribution>)
    ensures
        r@.map_values(|c: Contribution| c@) == standard_ignores(),
{
    broadcast use vstd::string::group_string_axioms;

    let mut lines: Vec<String> = Vec::new();
    lines.push("build/".to_string());
    lines.push("install/".to_string());
    lines.push("log/".to_string());
    let c = Contribution::Gitignore(GitignoreContribution { id: "standard-ignores".to_string(), lines });
    let mut r: Vec<Contribution> = Vec::new();
    r.push(c);
    assert(crate::adaptors::strings_view(lines@) =~= seq!["build/"@, "install/"@, "log/"@]);
    assert(r@.map_values(|c: Contribution| c@) =~= standard_ignores());
    r
}

} // verus!
