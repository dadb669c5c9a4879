use tilt_orchestrator::files::{apply_plan, FileModel};
use tilt_orchestrator::generator::{generate_tiltfiles, reorder_services, GenError};
use tilt_orchestrator::graph::{detect_cycles, topo_sort};
use tilt_orchestrator::project::{Environment, Project, ProjectInfo, Service, Tilt, TiltMode};

fn bare_service(name: &str, port: u16, deps: Option<Vec<&str>>) -> Service {
    Service {
        name: name.to_string(),
        path: None,
        port,
        enabled: true,
        repo: None,
        docker: None,
        k8s: None,
        env: None,
        depends_on: deps.map(|d| d.iter().map(|s| s.to_string()).collect()),
        helm: None,
        kustomize: None,
    }
}

fn project_with(services: Vec<Service>) -> Project {
    Project {
        project: ProjectInfo {
            name: "proj".to_string(),
            workspace_path: "/ws".to_string(),
            tilt: Tilt { mode: TiltMode::Root },
            services_path: None,
        },
        environments: vec![(
            "dev".to_string(),
            Environment { shared_env: Vec::new(), services },
        )],
    }
}

#[test]
fn detect_cycles_none_on_acyclic_graph() {
    let services = vec![
        bare_service("web", 3000, None),
        bare_service("api", 4000, Some(vec!["web"])),
        bare_service("worker", 5000, Some(vec!["api", "web"])),
    ];
    assert!(detect_cycles(&services).is_none());
}

#[test]
fn detect_cycles_reports_two_node_cycle() {
    let services = vec![
        bare_service("a", 1, Some(vec!["b"])),
        bare_service("b", 2, Some(vec!["a"])),
    ];
    let cycle = detect_cycles(&services).expect("cycle expected");
    assert_eq!(cycle, vec!["a".to_string(), "b".to_string(), "a".to_string()]);
}

#[test]
fn detect_cycles_reports_self_loop() {
    let services = vec![bare_service("solo", 1, Some(vec!["solo"]))];
    let cycle = detect_cycles(&services).expect("cycle expected");
    assert_eq!(cycle, vec!["solo".to_string(), "solo".to_string()]);
}

#[test]
fn detect_cycles_ignores_unknown_dependency_targets() {
    let services = vec![bare_service("app", 1, Some(vec!["not-declared-yet"]))];
    assert!(detect_cycles(&services).is_none());
}

#[test]
fn topo_sort_places_dependencies_first() {
    let services = vec![
        bare_service("api", 4000, Some(vec!["web"])),
        bare_service("web", 3000, None),
        bare_service("worker", 5000, Some(vec!["api"])),
    ];
    let sorted = topo_sort(&services);
    let names: Vec<&str> = sorted.iter().map(|s| s.name.as_str()).collect();
    assert_eq!(sorted.len(), 3);
    let pos = |n: &str| names.iter().position(|x| *x == n).unwrap();
    assert!(pos("web") < pos("api"));
    assert!(pos("api") < pos("worker"));
}

#[test]
fn topo_sort_skips_unknown_targets_and_keeps_services() {
    let services = vec![
        bare_service("app", 1, Some(vec!["external-future-service"])),
        bare_service("db", 2, None),
    ];
    let sorted = topo_sort(&services);
    let names: Vec<&str> = sorted.iter().map(|s| s.name.as_str()).collect();
    assert_eq!(names.len(), 2);
    assert!(names.contains(&"app"));
    assert!(names.contains(&"db"));
}

#[test]
fn generate_fails_naming_every_cycle_node() {
    let project = project_with(vec![
        bare_service("a", 1, Some(vec!["b"])),
        bare_service("b", 2, Some(vec!["c"])),
        bare_service("c", 3, Some(vec!["a"])),
    ]);
    let err = generate_tiltfiles(&project, "dev").unwrap_err();
    let message = err.message();
    match err {
        GenError::DependencyCycle(cycle) => {
            assert!(!cycle.is_empty());
            for node in &cycle {
                assert!(message.contains(node.as_str()));
            }
        }
        other => panic!("unexpected error: {:?}", other),
    }
}

#[test]
fn generate_twice_keeps_first_touch_files_and_rewrites_manifests() {
    let mut project = project_with(vec![bare_service("web", 3000, None)]);
    project.environments[0].1.services[0].k8s =
        Some(tilt_orchestrator::project::K8s { manifests: "k8s".to_string() });
    project.environments[0].1.services[0].env =
        Some(vec![("X".to_string(), "1".to_string())]);

    let mut model = FileModel::new();
    let plan1 = generate_tiltfiles(&project, "dev").unwrap();
    apply_plan(&plan1, &mut model);

    let env_path = "/ws/repos/web/.env.dev".to_string();
    let root_path = "/ws/tilt/dev/Tiltfile".to_string();
    let first_env = model.content_at(&env_path).expect("env file");

    // The user hand-edits the first-touch file; a second run keeps it but
    // rewrites the manifests.
    let edited = "X=edited-by-hand".to_string();
    model.set(&env_path, &edited);

    project.environments[0].1.services[0].port = 4000;
    let plan2 = generate_tiltfiles(&project, "dev").unwrap();
    apply_plan(&plan2, &mut model);

    assert_eq!(model.content_at(&env_path).unwrap(), "X=edited-by-hand");
    assert_ne!(first_env, "X=edited-by-hand");
    assert!(model.content_at(&root_path).is_some());

    // Landing the same plan again changes nothing.
    let service_path = "/ws/tilt/dev/services/web.tilt.py".to_string();
    let before = model.content_at(&service_path).unwrap();
    apply_plan(&plan2, &mut model);
    assert_eq!(model.content_at(&service_path).unwrap(), before);
    assert_eq!(model.content_at(&env_path).unwrap(), "X=edited-by-hand");
}

#[test]
fn generated_plans_write_each_path_once() {
    let mut project = project_with(vec![
        bare_service("web", 3000, None),
        bare_service("api", 4000, Some(vec!["web"])),
    ]);
    project.environments[0].1.services[0].k8s =
        Some(tilt_orchestrator::project::K8s { manifests: "k8s".to_string() });
    let plan = generate_tiltfiles(&project, "dev").unwrap();
    assert!(tilt_orchestrator::files::plan_writes_each_path_once(&plan));
}

#[test]
fn reorder_is_stable_with_unmentioned_services_last() {
    let mut project = project_with(vec![
        bare_service("A", 1, None),
        bare_service("B", 2, None),
        bare_service("C", 3, None),
    ]);
    let new_order = vec!["C".to_string(), "A".to_string()];
    let result = reorder_services(&mut project, "dev", new_order);
    assert!(result.is_ok());
    let names: Vec<&str> = project.environments[0]
        .1
        .services
        .iter()
        .map(|s| s.name.as_str())
        .collect();
    assert_eq!(names, vec!["C", "A", "B"]);
}

#[test]
fn reorder_unknown_environment_is_an_error() {
    let mut project = project_with(vec![bare_service("A", 1, None)]);
    let result = reorder_services(&mut project, "prod", vec!["A".to_string()]);
    assert!(result.unwrap_err().message().contains("Environment prod not found"));
}

#[test]
fn end_to_end_dependency_order_and_resource_deps() {
    let project = project_with(vec![
        bare_service("api", 4000, Some(vec!["web"])),
        bare_service("web", 3000, None),
    ]);
    let plan = generate_tiltfiles(&project, "dev").unwrap();
    let mut model = FileModel::new();
    apply_plan(&plan, &mut model);

    let root = model.content_at(&"/ws/tilt/dev/Tiltfile".to_string()).unwrap();
    let web_load = root.find("load(\"./services/web.tilt.py\"").expect("web load line");
    let api_load = root.find("load(\"./services/api.tilt.py\"").expect("api load line");
    assert!(web_load < api_load, "api must load after web");

    let api_manifest = model
        .content_at(&"/ws/tilt/dev/services/api.tilt.py".to_string())
        .unwrap();
    assert!(api_manifest.contains("resource_deps=[\"web\"]"));
}

#[test]
fn disabled_services_are_not_rendered() {
    let mut project = project_with(vec![
        bare_service("on", 1, None),
        bare_service("off", 2, None),
    ]);
    project.environments[0].1.services[1].enabled = false;
    let plan = generate_tiltfiles(&project, "dev").unwrap();
    let mut model = FileModel::new();
    apply_plan(&plan, &mut model);
    assert!(model.content_at(&"/ws/tilt/dev/services/on.tilt.py".to_string()).is_some());
    assert!(model.content_at(&"/ws/tilt/dev/services/off.tilt.py".to_string()).is_none());
}
