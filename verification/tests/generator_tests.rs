use tilt_orchestrator::files::{apply_plan, FileModel, GenerationPlan};
use tilt_orchestrator::generator::{
    generate_deployment_content, generate_env_content, generate_service_files, generate_tiltfiles,
    render_template,
};
use tilt_orchestrator::project::{
    merge_env, Docker, Environment, K8s, Project, ProjectInfo, Service, Tilt, TiltMode,
};

fn service(name: &str, port: u16, deps: Option<Vec<&str>>) -> Service {
    Service {
        name: name.to_string(),
        path: None,
        port,
        enabled: true,
        repo: None,
        docker: Some(Docker { context: ".".to_string(), dockerfile: "Dockerfile".to_string() }),
        k8s: Some(K8s { manifests: "k8s".to_string() }),
        env: None,
        depends_on: deps.map(|d| d.iter().map(|s| s.to_string()).collect()),
        helm: None,
        kustomize: None,
    }
}

fn create_test_project() -> Project {
    let mut one = service("service-one", 3000, None);
    one.env = Some(vec![
        ("PORT".to_string(), "3000".to_string()),
        ("ENV".to_string(), "dev".to_string()),
    ]);
    let mut two = service("service-two", 4000, Some(vec!["service-one"]));
    two.k8s = None;
    Project {
        project: ProjectInfo {
            name: "test-project".to_string(),
            workspace_path: "/ws".to_string(),
            tilt: Tilt { mode: TiltMode::Root },
            services_path: Some("repos".to_string()),
        },
        environments: vec![(
            "dev".to_string(),
            Environment { shared_env: Vec::new(), services: vec![one, two] },
        )],
    }
}

fn plan_content(plan: &GenerationPlan, path: &str) -> String {
    let mut model = FileModel::new();
    apply_plan(plan, &mut model);
    model
        .content_at(&path.to_string())
        .unwrap_or_else(|| panic!("no file at {}", path))
}

#[test]
fn test_render_template() {
    let template = "Hello {{NAME}}, your age is {{AGE}}!";
    let replacements = [("{{NAME}}", "Alice"), ("{{AGE}}", "30")];

    let result = render_template(template, &replacements);

    assert_eq!(result, "Hello Alice, your age is 30!");
}

#[test]
fn test_render_template_multiple_occurrences() {
    let template = "{{VAR}} is {{VAR}} is {{VAR}}";
    let replacements = [("{{VAR}}", "test")];

    let result = render_template(template, &replacements);

    assert_eq!(result, "test is test is test");
}

#[test]
fn test_generate_tiltfiles_creates_directories() {
    let project = create_test_project();

    let result = generate_tiltfiles(&project, "dev");

    assert!(result.is_ok());
    let plan = result.unwrap();

    let services_dir = format!("{}/tilt/dev/services", project.project.workspace_path);
    assert!(plan.dirs.iter().any(|d| *d == services_dir));
}

#[test]
fn test_generate_tiltfiles_creates_root_tiltfile() {
    let project = create_test_project();

    let plan = generate_tiltfiles(&project, "dev").unwrap();

    let root_tiltfile = format!("{}/tilt/dev/Tiltfile", project.project.workspace_path);
    let content = plan_content(&plan, &root_tiltfile);
    assert!(content.contains("# GENERATED — DO NOT EDIT"));
    assert!(content.contains("# Environment: dev"));
    assert!(content.contains("load(\"./services/service-one.tilt.py\""));
    assert!(content.contains("load(\"./services/service-two.tilt.py\""));
}

#[test]
fn test_generate_tiltfiles_creates_service_tiltfiles() {
    let project = create_test_project();

    let plan = generate_tiltfiles(&project, "dev").unwrap();

    let service_one_tiltfile =
        format!("{}/tilt/dev/services/service-one.tilt.py", project.project.workspace_path);
    let content = plan_content(&plan, &service_one_tiltfile);
    assert!(content.contains("def service_one():"));
    assert!(content.contains("docker_build"));
    assert!(content.contains("k8s_yaml"));
    assert!(content.contains("k8s_resource"));
}

#[test]
fn test_generate_tiltfiles_handles_dependencies() {
    let project = create_test_project();

    let plan = generate_tiltfiles(&project, "dev").unwrap();

    let service_two_tiltfile =
        format!("{}/tilt/dev/services/service-two.tilt.py", project.project.workspace_path);
    let content = plan_content(&plan, &service_two_tiltfile);

    assert!(content.contains("resource_deps"));
    assert!(content.contains("service-one"));
}

#[test]
fn test_generate_tiltfiles_nonexistent_environment() {
    let project = create_test_project();

    let result = generate_tiltfiles(&project, "nonexistent");

    assert!(result.is_err());
    assert!(result.unwrap_err().message().contains("Environment nonexistent not found"));
}

#[test]
fn test_generate_service_files_creates_env_file() {
    let project = create_test_project();
    let env_config = &project.environments[0].1;
    let svc = &env_config.services[0];

    let writes = generate_service_files(
        &project.project.workspace_path,
        "dev",
        &env_config.shared_env,
        svc,
        "repos",
    );

    let service_path = format!("{}/repos/{}", project.project.workspace_path, svc.name);
    let env_file = format!("{}/.env.dev", service_path);
    let write = writes.iter().find(|w| w.path == env_file).expect("env file planned");
    assert!(write.first_touch);
    assert!(write.content.contains("PORT=3000"));
    assert!(write.content.contains("ENV=dev"));
}

#[test]
fn test_generate_k8s_deployment_with_resources() {
    let project = create_test_project();
    let env_config = &project.environments[0].1;
    let svc = &env_config.services[0];

    let merged = merge_env(&env_config.shared_env, svc.env.as_ref().unwrap());
    let content = generate_deployment_content(&svc.name, svc.port, &merged);

    assert!(content.contains("resources:"));
    assert!(content.contains("requests:"));
    assert!(content.contains("memory: \"128Mi\""));
    assert!(content.contains("cpu: \"100m\""));
    assert!(content.contains("limits:"));
    assert!(content.contains("memory: \"256Mi\""));
    assert!(content.contains("cpu: \"500m\""));

    assert!(content.contains("kind: ConfigMap"));
    assert!(content.contains("service-one-config"));

    assert!(content.contains("kind: Deployment"));
    assert!(content.contains("replicas: 1"));

    assert!(content.contains("kind: Service"));
    assert!(content.contains("type: ClusterIP"));
}

#[test]
fn test_service_name_with_hyphens() {
    let mut project = create_test_project();
    project.environments[0].1.services[0].name = "my-test-service".to_string();

    let plan = generate_tiltfiles(&project, "dev").unwrap();

    let service_tiltfile =
        format!("{}/tilt/dev/services/my-test-service.tilt.py", project.project.workspace_path);
    let content = plan_content(&plan, &service_tiltfile);

    assert!(content.contains("def my_test_service():"));
    assert!(content.contains("k8s_resource(\n        \"my-test-service\""));
}

#[test]
fn dependency_list_is_json_encoded() {
    let mut svc = service("app", 8080, Some(vec!["b-1", "c"]));
    svc.docker = None;
    svc.k8s = None;
    let content = tilt_orchestrator::generator::generate_service_tiltfile(&svc, "repos");
    assert!(content.contains("resource_deps=[\"b-1\",\"c\"]"));
    assert!(content.contains("port_forwards=8080"));

    let mut lone = service("lone", 9090, None);
    lone.docker = None;
    lone.k8s = None;
    let content = tilt_orchestrator::generator::generate_service_tiltfile(&lone, "repos");
    assert!(content.contains("resource_deps=[]"));
}

#[test]
fn service_variables_override_shared_ones() {
    let shared = vec![("X".to_string(), "1".to_string())];
    let service = vec![("X".to_string(), "2".to_string()), ("Y".to_string(), "3".to_string())];
    let merged = merge_env(&shared, &service);
    let content = generate_env_content(&merged);
    assert!(content.contains("X=2"));
    assert!(content.contains("Y=3"));
    assert!(!content.contains("X=1"));
}

#[test]
fn test_generate_env_file_merges_shared_env() {
    let service_env = vec![("SERVICE_VAR".to_string(), "service_value".to_string())];
    let shared_env = vec![("SHARED_VAR".to_string(), "shared_value".to_string())];

    let merged = merge_env(&shared_env, &service_env);
    let content = generate_env_content(&merged);

    assert!(content.contains("SERVICE_VAR=service_value"));
    assert!(content.contains("SHARED_VAR=shared_value"));
}
