//! yard — ROS 2 workspace orchestrator.
//!
//! - `engine` — the reconciliation pass: run modules, route their
//!   contributions to adaptors, plan every adaptor, decide what to commit
//! - `adaptors` — reconcilers, one per managed output file type
//! - `modules` — opinion-emitters turning the config into contributions
//!
//! The crate-level types are yard's vocabulary: `YardConfig` (the parsed
//! `yard.toml`), `Contribution` (the typed handshake from modules to
//! adaptors), `RuntimeContext` (what is true about this invocation) and
//! `ModuleContext` (what a module sees).
use vstd::prelude::*;

pub mod adaptors;
pub mod engine;
pub mod modules;
pub mod report;
pub mod text;

use crate::adaptors::gitignore::{FenceSpec, GitignoreContribution};
use crate::adaptors::pixi::{PixiContribution, PixiIntent};

verus! {

/// Supported ROS 2 distributions yard can target.
#[derive(Clone, Copy, Debug, PartialEq, Eq, Structural)]
pub enum RosDistro {
    Humble,
    Jazzy,
    Kilted,
    Rolling,
}

/// The lowercase name of a distribution, as written in `yard.toml`.
pub open spec fn distro_name(d: RosDistro) -> Seq<char> {
    match d {
        RosDistro::Humble => "humble"@,
        RosDistro::Jazzy => "jazzy"@,
        RosDistro::Kilted => "kilted"@,
        RosDistro::Rolling => "rolling"@,
    }
}

impl RosDistro {
    /// Lowercase string form, as written in `yard.toml`.
    pub fn as_str(self) -> (r: &'static str)
        ensures
            r@ == distro_name(self),
    {
        match self {
            RosDistro::Humble => "humble",
            RosDistro::Jazzy => "jazzy",
            RosDistro::Kilted => "kilted",
            RosDistro::Rolling => "rolling",
        }
    }
}

/// Parsed contents of `yard.toml`.
#[derive(Clone, Copy, Debug, PartialEq, Eq, Structural)]
pub struct YardConfig {
    /// ROS 2 distribution to target. Required, no default.
    pub ros_distro: RosDistro,
}

/// Typed contribution fragments emitted by modules. Each variant targets
/// exactly one adaptor; [`Contribution::adaptor_id`] is the routing key.
#[derive(Clone, Debug, PartialEq, Eq)]
pub enum Contribution {
    Gitignore(GitignoreContribution),
    Pixi(PixiContribution),
}

/// Spec view of a [`Contribution`].
pub enum ContributionV {
    Gitignore(FenceSpec),
    Pixi(PixiIntent),
}

/// The id of the adaptor a contribution targets.
pub open spec fn target_adaptor(c: ContributionV) -> Seq<char> {
    match c {
        ContributionV::Gitignore(_) => "gitignore"@,
        ContributionV::Pixi(_) => "pixi"@,
    }
}

impl Contribution {
    pub open spec fn view(&self) -> ContributionV {
        match self {
            Contribution::Gitignore(g) => ContributionV::Gitignore(g@),
            Contribution::Pixi(p) => ContributionV::Pixi(p@),
        }
    }

    /// Id of the adaptor this contribution targets; matches that adaptor's
    /// `id()`.
    pub fn adaptor_id(&self) -> (r: &'static str)
        ensures
            r@ == target_adaptor(self@),
    {
        match self {
            Contribution::Gitignore(_) => "gitignore",
            Contribution::Pixi(_) => "pixi",
        }
    }
}

/// Runtime context for one yard invocation: what is true about the run
/// other than the user's parsed config.
pub struct RuntimeContext {
    /// Name of the workspace directory (where `yard.toml` lives), when it
    /// has one that is valid UTF-8.
    pub workspace_name: Option<String>,
    /// Version of the running yard binary.
    pub yard_version: String,
}

/// What a module sees: the parsed user config plus the runtime context.
pub struct ModuleContext<'a> {
    pub config: &'a YardConfig,
    pub runtime: &'a RuntimeContext,
}

} // verus!
