use yard::adaptors::gitignore::GitignoreContribution;
use yard::adaptors::pixi::PixiContribution;
use yard::modules::{registry, ModuleKind};
use yard::{Contribution, ModuleContext, RosDistro, RuntimeContext, YardConfig};

fn runtime(name: Option<&str>) -> RuntimeContext {
    RuntimeContext { workspace_name: name.map(|s| s.to_string()), yard_version: "0.1.0".to_string() }
}

fn pixi_env(distro: RosDistro, ws: Option<&str>) -> Vec<Contribution> {
    let config = YardConfig { ros_distro: distro };
    let rt = runtime(ws);
    let ctx = ModuleContext { config: &config, runtime: &rt };
    yard::modules::pixi_env::contribute(&ctx)
}

fn expected_pixi(distro: &str, ws: Option<&str>) -> Vec<Contribution> {
    vec![Contribution::Pixi(PixiContribution {
        workspace_name: ws.map(|s| s.to_string()),
        channels: vec!["conda-forge".to_string(), format!("robostack-{distro}")],
        dependencies: vec![
            ("python".to_string(), ">=3.11".to_string()),
            (format!("ros-{distro}-desktop"), "*".to_string()),
        ],
    })]
}

#[test]
fn emits_for_jazzy() {
    assert_eq!(pixi_env(RosDistro::Jazzy, Some("my_ws")), expected_pixi("jazzy", Some("my_ws")));
}

#[test]
fn emits_for_humble() {
    assert_eq!(pixi_env(RosDistro::Humble, Some("my_ws")), expected_pixi("humble", Some("my_ws")));
}

#[test]
fn emits_for_kilted() {
    assert_eq!(pixi_env(RosDistro::Kilted, Some("my_ws")), expected_pixi("kilted", Some("my_ws")));
}

#[test]
fn emits_for_rolling() {
    assert_eq!(pixi_env(RosDistro::Rolling, Some("my_ws")), expected_pixi("rolling", Some("my_ws")));
}

#[test]
fn pixi_env_without_workspace_name() {
    assert_eq!(pixi_env(RosDistro::Jazzy, None), expected_pixi("jazzy", None));
}

#[test]
fn ros_workspace_emits_standard_ignores() {
    let config = YardConfig { ros_distro: RosDistro::Jazzy };
    let rt = runtime(None);
    let ctx = ModuleContext { config: &config, runtime: &rt };
    assert_eq!(
        yard::modules::ros_workspace::contribute(&ctx),
        vec![Contribution::Gitignore(GitignoreContribution {
            id: "standard-ignores".to_string(),
            lines: vec!["build/".to_string(), "install/".to_string(), "log/".to_string()],
        })]
    );
}

#[test]
fn module_registry_order() {
    let r = registry();
    assert_eq!(r.len(), 2);
    assert_eq!(r[0].id, "ros_workspace");
    assert_eq!(r[0].kind, ModuleKind::RosWorkspace);
    assert_eq!(r[1].id, "pixi_env");
    assert_eq!(r[1].kind, ModuleKind::PixiEnv);
}

#[test]
fn distro_names() {
    assert_eq!(RosDistro::Humble.as_str(), "humble");
    assert_eq!(RosDistro::Jazzy.as_str(), "jazzy");
    assert_eq!(RosDistro::Kilted.as_str(), "kilted");
    assert_eq!(RosDistro::Rolling.as_str(), "rolling");
}

#[test]
fn contributions_route_to_their_adaptor() {
    let g = Contribution::Gitignore(GitignoreContribution::default());
    let p = Contribution::Pixi(PixiContribution::default());
    assert_eq!(g.adaptor_id(), "gitignore");
    assert_eq!(p.adaptor_id(), "pixi");
}
