//! Manifest rendering: the root manifest, one manifest per service, and
//! the first-touch deployment and environment-variable files, produced by
//! template substitution from the resolved service order.

use vstd::prelude::*;

use crate::files::{FileWrite, GenerationPlan};
use crate::graph::{deps_of, detect_cycles, has_cycle, is_cycle_path, topo_sort};
use crate::project::{
    distinct_names, envs_view, find_env_view, merge_env, merged_env, pairs_view, svc_views,
    Environment, EnvironmentView, Project, Service, ServiceView,
};
use crate::strutil::{
    dec_view, digit_char, join_strings, join_view, replace_all, replace_view, u64_to_dec, views_of,
};

verus! {

// ---------------------------------------------------------------------------
// Templates
// ---------------------------------------------------------------------------

pub open spec fn root_template_view() -> Seq<char> {
    "# GENERATED — DO NOT EDIT\n# Environment: {{ENV_NAME}}\n\n{{LOADS}}\n\nservices = [\n{{SERVICES}}\n]\n\nfor svc in services:\n    svc()\n"@
}

fn root_template() -> (r: &'static str)
    ensures
        r@ == root_template_view(),
{
    "# GENERATED — DO NOT EDIT\n# Environment: {{ENV_NAME}}\n\n{{LOADS}}\n\nservices = [\n{{SERVICES}}\n]\n\nfor svc in services:\n    svc()\n"
}

pub open spec fn service_template_view() -> Seq<char> {
    "# GENERATED — DO NOT EDIT\n\ndef {{SERVICE_NAME_SNAKE}}():\n{{DOCKER_SECTION}}{{K8S_SECTION}}\n    k8s_resource(\n        \"{{SERVICE_NAME}}\",\n        port_forwards={{PORT}},\n        resource_deps={{DEPENDENCIES}}\n    )\n"@
}

fn service_template() -> (r: &'static str)
    ensures
        r@ == service_template_view(),
{
    "# GENERATED — DO NOT EDIT\n\ndef {{SERVICE_NAME_SNAKE}}():\n{{DOCKER_SECTION}}{{K8S_SECTION}}\n    k8s_resource(\n        \"{{SERVICE_NAME}}\",\n        port_forwards={{PORT}},\n        resource_deps={{DEPENDENCIES}}\n    )\n"
}

pub open spec fn deployment_template_view() -> Seq<char> {
    "apiVersion: v1\nkind: ConfigMap\nmetadata:\n  name: {{SERVICE_NAME}}-config\ndata:\n{{ENV_DATA}}\n---\napiVersion: apps/v1\nkind: Deployment\nmetadata:\n  name: {{SERVICE_NAME}}\n  labels:\n    app: {{SERVICE_NAME}}\nspec:\n  replicas: 1\n  selector:\n    matchLabels:\n      app: {{SERVICE_NAME}}\n  template:\n    metadata:\n      labels:\n        app: {{SERVICE_NAME}}\n    spec:\n      containers:\n      - name: {{SERVICE_NAME}}\n        image: {{SERVICE_NAME}}\n        ports:\n        - containerPort: {{PORT}}\n        envFrom:\n        - configMapRef:\n            name: {{SERVICE_NAME}}-config\n        resources:\n          requests:\n            memory: \"128Mi\"\n            cpu: \"100m\"\n          limits:\n            memory: \"256Mi\"\n            cpu: \"500m\"\n---\napiVersion: v1\nkind: Service\nmetadata:\n  name: {{SERVICE_NAME}}\nspec:\n  selector:\n    app: {{SERVICE_NAME}}\n  ports:\n  - port: {{PORT}}\n    targetPort: {{PORT}}\n  type: ClusterIP\n"@
}

fn deployment_template() -> (r: &'static str)
    ensures
        r@ == deployment_template_view(),
{
    "apiVersion: v1\nkind: ConfigMap\nmetadata:\n  name: {{SERVICE_NAME}}-config\ndata:\n{{ENV_DATA}}\n---\napiVersion: apps/v1\nkind: Deployment\nmetadata:\n  name: {{SERVICE_NAME}}\n  labels:\n    app: {{SERVICE_NAME}}\nspec:\n  replicas: 1\n  selector:\n    matchLabels:\n      app: {{SERVICE_NAME}}\n  template:\n    metadata:\n      labels:\n        app: {{SERVICE_NAME}}\n    spec:\n      containers:\n      - name: {{SERVICE_NAME}}\n        image: {{SERVICE_NAME}}\n        ports:\n        - containerPort: {{PORT}}\n        envFrom:\n        - configMapRef:\n            name: {{SERVICE_NAME}}-config\n        resources:\n          requests:\n            memory: \"128Mi\"\n            cpu: \"100m\"\n          limits:\n            memory: \"256Mi\"\n            cpu: \"500m\"\n---\napiVersion: v1\nkind: Service\nmetadata:\n  name: {{SERVICE_NAME}}\nspec:\n  selector:\n    app: {{SERVICE_NAME}}\n  ports:\n  - port: {{PORT}}\n    targetPort: {{PORT}}\n  type: ClusterIP\n"
}

// ---------------------------------------------------------------------------
// Template substitution
// ---------------------------------------------------------------------------

/// The template after each replacement pair is applied in turn.
pub open spec fn render_view(t: Seq<char>, reps: Seq<(Seq<char>, Seq<char>)>) -> Seq<char>
    decreases reps.len(),
{
    if reps.len() == 0 {
        t
    } else {
        render_view(replace_view(t, reps[0].0, reps[0].1), reps.skip(1))
    }
}

pub open spec fn reps_view(rs: Seq<(&str, &str)>) -> Seq<(Seq<char>, Seq<char>)> {
    rs.map_values(|p: (&str, &str)| (p.0@, p.1@))
}

/// Applies each replacement pair to the template in turn, replacing every
/// occurrence of the pair's key by its value.
pub fn render_template(template: &str, replacements: &[(&str, &str)]) -> (r: String)
    ensures
        r@ == render_view(template@, reps_view(replacements@)),
{
    let ghost reps = reps_view(replacements@);
    let mut cur = template.to_owned();
    let mut i: usize = 0;
    proof {
        assert(reps.skip(0) =~= reps);
    }
    while i < replacements.len()
        invariant
            reps == reps_view(replacements@),
            i <= replacements@.len(),
            render_view(cur@, reps.skip(i as int)) == render_view(template@, reps),
        decreases replacements@.len() - i,
    {
        let ghost rest = reps.skip(i as int);
        let pair = replacements[i];
        let next = replace_all(cur.as_str(), pair.0, pair.1);
        proof {
            assert(rest[0] == reps[i as int]);
            assert(reps[i as int] == (replacements@[i as int].0@, replacements@[i as int].1@));
            assert(rest.skip(1) =~= reps.skip(i + 1));
            assert(render_view(cur@, rest) == render_view(next@, reps.skip(i + 1)));
        }
        cur = next;
        i = i + 1;
    }
    proof {
        assert(reps.skip(replacements@.len() as int) =~= Seq::<(Seq<char>, Seq<char>)>::empty());
    }
    cur
}

// ---------------------------------------------------------------------------
// The JSON dependency list
// ---------------------------------------------------------------------------

pub open spec fn json_hex_digit(d: nat) -> char {
    if d < 10 {
        digit_char(d)
    } else if d == 10 {
        'a'
    } else if d == 11 {
        'b'
    } else if d == 12 {
        'c'
    } else if d == 13 {
        'd'
    } else if d == 14 {
        'e'
    } else {
        'f'
    }
}

/// The JSON escape of one character: quote and backslash escaped, control
/// characters as their short escapes or `\u00..`, all else verbatim.
pub open spec fn json_escape_char(c: char) -> Seq<char> {
    if c == '"' {
        seq!['\\', '"']
    } else if c == '\\' {
        seq!['\\', '\\']
    } else if c == '\u{8}' {
        seq!['\\', 'b']
    } else if c == '\t' {
        seq!['\\', 't']
    } else if c == '\n' {
        seq!['\\', 'n']
    } else if c == '\u{c}' {
        seq!['\\', 'f']
    } else if c == '\r' {
        seq!['\\', 'r']
    } else if (c as u32) < 32 {
        seq!['\\', 'u', '0', '0', json_hex_digit((c as u32 / 16) as nat), json_hex_digit(
            (c as u32 % 16) as nat,
        )]
    } else {
        seq![c]
    }
}

pub open spec fn json_escape(s: Seq<char>) -> Seq<char>
    decreases s.len(),
{
    if s.len() == 0 {
        Seq::empty()
    } else {
        json_escape_char(s[0]) + json_escape(s.skip(1))
    }
}

pub open spec fn json_string_view(s: Seq<char>) -> Seq<char> {
    seq!['"'] + json_escape(s) + seq!['"']
}

/// The JSON array of the given names.
pub open spec fn json_names_view(names: Seq<Seq<char>>) -> Seq<char> {
    seq!['['] + join_view(names.map_values(|n: Seq<char>| json_string_view(n)), seq![',']) + seq![
        ']',
    ]
}

/// Relies on serde_json::to_string for a list of strings: a compact JSON
/// array of the names, each double-quoted, with quote, backslash and
/// control characters escaped as `json_escape_char` states. Serialising
/// strings cannot fail.
#[verifier::external_body]
fn json_encode_names(names: &Vec<String>) -> (r: String)
    ensures
        r@ == json_names_view(views_of(names@)),
{
    serde_json::to_string(names).unwrap()
}

// ---------------------------------------------------------------------------
// Per-service manifest sections
// ---------------------------------------------------------------------------

/// The image build section: present exactly when a docker descriptor is.
pub open spec fn docker_section_view(s: ServiceView, sp: Seq<char>) -> Seq<char> {
    match s.docker {
        None => Seq::empty(),
        Some(d) => "    docker_build(\n        \""@ + s.name + "\",\n        context=\"../../"@
            + sp + "/"@ + s.name + "/"@ + d.context + "\",\n        dockerfile=\"../../"@ + sp
            + "/"@ + s.name + "/"@ + d.dockerfile + "\",\n    )\n"@,
    }
}

fn docker_section(svc: &Service, services_path: &str) -> (r: String)
    ensures
        r@ == docker_section_view(svc@, services_path@),
{
    match &svc.docker {
        None => {
            let r = String::new();
            proof {
                assert(r@ =~= docker_section_view(svc@, services_path@));
            }
            r
        },
        Some(d) => {
            let mut out = String::new();
            out.append("    docker_build(\n        \"");
            out.append(svc.name.as_str());
            out.append("\",\n        context=\"../../");
            out.append(services_path);
            out.append("/");
            out.append(svc.name.as_str());
            out.append("/");
            out.append(d.context.as_str());
            out.append("\",\n        dockerfile=\"../../");
            out.append(services_path);
            out.append("/");
            out.append(svc.name.as_str());
            out.append("/");
            out.append(d.dockerfile.as_str());
            out.append("\",\n    )\n");
            proof {
                assert(out@ =~= docker_section_view(svc@, services_path@));
            }
            out
        },
    }
}

/// The deployment section, chosen by priority: chart, then overlay, then a
/// plain manifest reference; absent when no descriptor is.
pub open spec fn k8s_section_view(s: ServiceView, sp: Seq<char>) -> Seq<char> {
    match s.helm {
        Some(h) => "    helm(\n        \""@ + h.chart + "\",\n        namespace=\""@ + (match h
            .namespace {
            Some(n) => n,
            None => "default"@,
        }) + "\",\n    )\n"@,
        None => match s.kustomize {
            Some(kz) => "    k8s_yaml(kustomize(\"../../"@ + sp + "/"@ + s.name + "/"@ + kz.path
                + "\"))\n"@,
            None => match s.k8s {
                Some(k) => "    k8s_yaml(\"../../"@ + sp + "/"@ + s.name + "/"@ + k.manifests
                    + "\")\n"@,
                None => Seq::empty(),
            },
        },
    }
}

fn k8s_section(svc: &Service, services_path: &str) -> (r: String)
    ensures
        r@ == k8s_section_view(svc@, services_path@),
{
    if let Some(h) = &svc.helm {
        let mut out = String::new();
        out.append("    helm(\n        \"");
        out.append(h.chart.as_str());
        out.append("\",\n        namespace=\"");
        match &h.namespace {
            Some(n) => out.append(n.as_str()),
            None => out.append("default"),
        }
        out.append("\",\n    )\n");
        proof {
            assert(out@ =~= k8s_section_view(svc@, services_path@));
        }
        out
    } else if let Some(kz) = &svc.kustomize {
        let mut out = String::new();
        out.append("    k8s_yaml(kustomize(\"../../");
        out.append(services_path);
        out.append("/");
        out.append(svc.name.as_str());
        out.append("/");
        out.append(kz.path.as_str());
        out.append("\"))\n");
        proof {
            assert(out@ =~= k8s_section_view(svc@, services_path@));
        }
        out
    } else if let Some(k) = &svc.k8s {
        let mut out = String::new();
        out.append("    k8s_yaml(\"../../");
        out.append(services_path);
        out.append("/");
        out.append(svc.name.as_str());
        out.append("/");
        out.append(k.manifests.as_str());
        out.append("\")\n");
        proof {
            assert(out@ =~= k8s_section_view(svc@, services_path@));
        }
        out
    } else {
        let r = String::new();
        proof {
            assert(r@ =~= k8s_section_view(svc@, services_path@));
        }
        r
    }
}

// ---------------------------------------------------------------------------
// Whole file contents
// ---------------------------------------------------------------------------

/// The manifest rendered for one service.
pub open spec fn service_tiltfile_view(s: ServiceView, sp: Seq<char>) -> Seq<char> {
    render_view(
        service_template_view(),
        seq![
            ("{{SERVICE_NAME}}"@, s.name),
            ("{{SERVICE_NAME_SNAKE}}"@, replace_view(s.name, "-"@, "_"@)),
            ("{{DOCKER_SECTION}}"@, docker_section_view(s, sp)),
            ("{{K8S_SECTION}}"@, k8s_section_view(s, sp)),
            ("{{PORT}}"@, dec_view(s.port as nat)),
            ("{{DEPENDENCIES}}"@, json_names_view(deps_of(s))),
        ],
    )
}

/// Renders the manifest for one service: an optional build section, an
/// optional deployment section, and the resource declaration carrying the
/// port and the JSON-encoded dependency list.
pub fn generate_service_tiltfile(svc: &Service, services_path: &str) -> (r: String)
    ensures
        r@ == service_tiltfile_view(svc@, services_path@),
{
    let snake = replace_all(svc.name.as_str(), "-", "_");
    let ds = docker_section(svc, services_path);
    let ks = k8s_section(svc, services_path);
    let port = u64_to_dec(svc.port as u64);
    let deps_json = match &svc.depends_on {
        Some(d) => json_encode_names(d),
        None => {
            let none: Vec<String> = Vec::new();
            let r = json_encode_names(&none);
            proof {
                assert(views_of(none@) =~= Seq::<Seq<char>>::empty());
                assert(deps_of(svc@) =~= Seq::<Seq<char>>::empty());
            }
            r
        },
    };
    let mut reps: Vec<(&str, &str)> = Vec::new();
    reps.push(("{{SERVICE_NAME}}", svc.name.as_str()));
    reps.push(("{{SERVICE_NAME_SNAKE}}", snake.as_str()));
    reps.push(("{{DOCKER_SECTION}}", ds.as_str()));
    reps.push(("{{K8S_SECTION}}", ks.as_str()));
    reps.push(("{{PORT}}", port.as_str()));
    reps.push(("{{DEPENDENCIES}}", deps_json.as_str()));
    let r = render_template(service_template(), reps.as_slice());
    proof {
        assert(reps_view(reps@) =~= seq![
            ("{{SERVICE_NAME}}"@, svc.name@),
            ("{{SERVICE_NAME_SNAKE}}"@, replace_view(svc.name@, "-"@, "_"@)),
            ("{{DOCKER_SECTION}}"@, docker_section_view(svc@, services_path@)),
            ("{{K8S_SECTION}}"@, k8s_section_view(svc@, services_path@)),
            ("{{PORT}}"@, dec_view(svc@.port as nat)),
            ("{{DEPENDENCIES}}"@, json_names_view(deps_of(svc@))),
        ]);
    }
    r
}

/// The environment file: one `KEY=VALUE` line per merged variable.
pub open spec fn env_file_view(m: Seq<(Seq<char>, Seq<char>)>) -> Seq<char> {
    join_view(m.map_values(|p: (Seq<char>, Seq<char>)| p.0 + "="@ + p.1), "\n"@)
}

/// Renders the environment file for a merged variable map.
pub fn generate_env_content(m: &Vec<(String, String)>) -> (r: String)
    ensures
        r@ == env_file_view(pairs_view(m@)),
{
    let ghost mv = pairs_view(m@);
    let ghost lines_v = mv.map_values(|p: (Seq<char>, Seq<char>)| p.0 + "="@ + p.1);
    let mut lines: Vec<String> = Vec::new();
    let mut i: usize = 0;
    proof {
        assert(views_of(lines@) =~= lines_v.take(0));
    }
    while i < m.len()
        invariant
            mv == pairs_view(m@),
            lines_v == mv.map_values(|p: (Seq<char>, Seq<char>)| p.0 + "="@ + p.1),
            i <= m@.len(),
            views_of(lines@) == lines_v.take(i as int),
        decreases m@.len() - i,
    {
        let ghost prev = views_of(lines@);
        let mut line = m[i].0.clone();
        line.append("=");
        line.append(m[i].1.as_str());
        proof {
            assert(mv[i as int] == (m@[i as int].0@, m@[i as int].1@));
            assert(line@ == lines_v[i as int]);
        }
        lines.push(line);
        proof {
            assert(views_of(lines@) =~= prev.push(line@));
            assert(lines_v.take(i + 1) =~= lines_v.take(i as int).push(lines_v[i as int]));
        }
        i = i + 1;
    }
    proof {
        assert(lines_v.take(m@.len() as int) =~= lines_v);
    }
    join_strings(&lines, "\n")
}

/// The configuration-map data block: one indented, quoted line per merged
/// variable, double quotes in values escaped.
pub open spec fn env_data_view(m: Seq<(Seq<char>, Seq<char>)>) -> Seq<char> {
    join_view(
        m.map_values(
            |p: (Seq<char>, Seq<char>)|
                "  "@ + p.0 + ": \""@ + replace_view(p.1, "\""@, "\\\""@) + "\""@,
        ),
        "\n"@,
    )
}

/// The first-touch deployment file for one service: a configuration map
/// over the merged variables, a single-replica deployment with the fixed
/// baseline resources, and a cluster-internal service on the port.
pub open spec fn deployment_view(name: Seq<char>, port: u16, m: Seq<(Seq<char>, Seq<char>)>) -> Seq<
    char,
> {
    render_view(
        deployment_template_view(),
        seq![
            ("{{SERVICE_NAME}}"@, name),
            ("{{PORT}}"@, dec_view(port as nat)),
            ("{{ENV_DATA}}"@, env_data_view(m)),
        ],
    )
}

/// Renders the deployment file for a service name, port and merged map.
pub fn generate_deployment_content(name: &String, port: u16, m: &Vec<(String, String)>) -> (r:
    String)
    ensures
        r@ == deployment_view(name@, port, pairs_view(m@)),
{
    let ghost mv = pairs_view(m@);
    let ghost lines_v = mv.map_values(
        |p: (Seq<char>, Seq<char>)|
            "  "@ + p.0 + ": \""@ + replace_view(p.1, "\""@, "\\\""@) + "\""@,
    );
    let mut lines: Vec<String> = Vec::new();
    let mut i: usize = 0;
    proof {
        assert(views_of(lines@) =~= lines_v.take(0));
    }
    while i < m.len()
        invariant
            mv == pairs_view(m@),
            lines_v == mv.map_values(
                |p: (Seq<char>, Seq<char>)|
                    "  "@ + p.0 + ": \""@ + replace_view(p.1, "\""@, "\\\""@) + "\""@,
            ),
            i <= m@.len(),
            views_of(lines@) == lines_v.take(i as int),
        decreases m@.len() - i,
    {
        let ghost prev = views_of(lines@);
        let escaped = replace_all(m[i].1.as_str(), "\"", "\\\"");
        let mut line = String::new();
        line.append("  ");
        line.append(m[i].0.as_str());
        line.append(": \"");
        line.append(escaped.as_str());
        line.append("\"");
        proof {
            assert(mv[i as int] == (m@[i as int].0@, m@[i as int].1@));
            assert(line@ == lines_v[i as int]);
        }
        lines.push(line);
        proof {
            assert(views_of(lines@) =~= prev.push(line@));
            assert(lines_v.take(i + 1) =~= lines_v.take(i as int).push(lines_v[i as int]));
        }
        i = i + 1;
    }
    proof {
        assert(lines_v.take(m@.len() as int) =~= lines_v);
    }
    let env_data = join_strings(&lines, "\n");
    let port_s = u64_to_dec(port as u64);
    let mut reps: Vec<(&str, &str)> = Vec::new();
    reps.push(("{{SERVICE_NAME}}", name.as_str()));
    reps.push(("{{PORT}}", port_s.as_str()));
    reps.push(("{{ENV_DATA}}", env_data.as_str()));
    let r = render_template(deployment_template(), reps.as_slice());
    proof {
        assert(reps_view(reps@) =~= seq![
            ("{{SERVICE_NAME}}"@, name@),
            ("{{PORT}}"@, dec_view(port as nat)),
            ("{{ENV_DATA}}"@, env_data_view(mv)),
        ]);
    }
    r
}

// ---------------------------------------------------------------------------
// Errors
// ---------------------------------------------------------------------------

/// Why manifest generation or reordering failed.
#[derive(Debug)]
pub enum GenError {
    /// No environment of that name exists in the project.
    EnvNotFound(String),
    /// The enabled services contain a dependency cycle, given as the path
    /// the traversal closed.
    DependencyCycle(Vec<String>),
    /// A cycle found while re-validating after a reorder.
    ReorderCycle(Vec<String>),
}

impl GenError {
    pub open spec fn message_view(&self) -> Seq<char> {
        match self {
            GenError::EnvNotFound(e) => "Environment "@ + e@ + " not found"@,
            GenError::DependencyCycle(c) => "Dependency cycle detected: "@ + join_view(
                views_of(c@),
                " -> "@,
            ),
            GenError::ReorderCycle(c) => "Invalid reorder: cycle detected "@ + join_view(
                views_of(c@),
                " -> "@,
            ),
        }
    }

    /// The human-readable description of the failure.
    pub fn message(&self) -> (r: String)
        ensures
            r@ == self.message_view(),
    {
        match self {
            GenError::EnvNotFound(e) => {
                let mut out = String::new();
                out.append("Environment ");
                out.append(e.as_str());
                out.append(" not found");
                proof {
                    assert(out@ =~= self.message_view());
                }
                out
            },
            GenError::DependencyCycle(c) => {
                let mut out = String::new();
                out.append("Dependency cycle detected: ");
                let joined = join_strings(c, " -> ");
                out.append(joined.as_str());
                proof {
                    assert(out@ =~= self.message_view());
                }
                out
            },
            GenError::ReorderCycle(c) => {
                let mut out = String::new();
                out.append("Invalid reorder: cycle detected ");
                let joined = join_strings(c, " -> ");
                out.append(joined.as_str());
                proof {
                    assert(out@ =~= self.message_view());
                }
                out
            },
        }
    }
}

/// A cycle error's message names every node on the reported path.
pub proof fn lemma_cycle_message_names_nodes(e: GenError, k: int)
    requires
        match e {
            GenError::DependencyCycle(c) => 0 <= k < c@.len(),
            GenError::ReorderCycle(c) => 0 <= k < c@.len(),
            GenError::EnvNotFound(_) => false,
        },
    ensures
        match e {
            GenError::DependencyCycle(c) => crate::strutil::contains_sub(
                e.message_view(),
                views_of(c@)[k],
            ),
            GenError::ReorderCycle(c) => crate::strutil::contains_sub(
                e.message_view(),
                views_of(c@)[k],
            ),
            GenError::EnvNotFound(_) => true,
        },
{
    match e {
        GenError::DependencyCycle(c) => {
            crate::strutil::lemma_join_contains_each(views_of(c@), " -> "@, k);
            crate::strutil::lemma_contains_sub_prepend(
                "Dependency cycle detected: "@,
                join_view(views_of(c@), " -> "@),
                views_of(c@)[k],
            );
        },
        GenError::ReorderCycle(c) => {
            crate::strutil::lemma_join_contains_each(views_of(c@), " -> "@, k);
            crate::strutil::lemma_contains_sub_prepend(
                "Invalid reorder: cycle detected "@,
                join_view(views_of(c@), " -> "@),
                views_of(c@)[k],
            );
        },
        GenError::EnvNotFound(_) => {},
    }
}

// ---------------------------------------------------------------------------
// Paths in the generated tree
// ---------------------------------------------------------------------------

pub open spec fn tilt_dir_view(ws: Seq<char>, env: Seq<char>) -> Seq<char> {
    ws + "/tilt/"@ + env
}

pub open spec fn services_dir_view(ws: Seq<char>, env: Seq<char>) -> Seq<char> {
    tilt_dir_view(ws, env) + "/services"@
}

pub open spec fn root_tiltfile_path_view(ws: Seq<char>, env: Seq<char>) -> Seq<char> {
    tilt_dir_view(ws, env) + "/Tiltfile"@
}

pub open spec fn service_tiltfile_path_view(ws: Seq<char>, env: Seq<char>, name: Seq<char>) -> Seq<
    char,
> {
    services_dir_view(ws, env) + "/"@ + name + ".tilt.py"@
}

pub open spec fn service_dir_view(ws: Seq<char>, sp: Seq<char>, name: Seq<char>) -> Seq<char> {
    ws + "/"@ + sp + "/"@ + name
}

pub open spec fn env_file_path_view(
    ws: Seq<char>,
    sp: Seq<char>,
    name: Seq<char>,
    env: Seq<char>,
) -> Seq<char> {
    service_dir_view(ws, sp, name) + "/.env."@ + env
}

pub open spec fn k8s_dir_view(ws: Seq<char>, sp: Seq<char>, name: Seq<char>) -> Seq<char> {
    service_dir_view(ws, sp, name) + "/k8s"@
}

pub open spec fn deployment_path_view(ws: Seq<char>, sp: Seq<char>, name: Seq<char>) -> Seq<char> {
    k8s_dir_view(ws, sp, name) + "/"@ + name + "-deployment.yaml"@
}

/// The directory holding the per-service manifests of one environment.
pub fn services_dir_path(ws: &str, env: &str) -> (r: String)
    ensures
        r@ == services_dir_view(ws@, env@),
{
    let mut out = String::new();
    out.append(ws);
    out.append("/tilt/");
    out.append(env);
    out.append("/services");
    proof {
        assert(out@ =~= services_dir_view(ws@, env@));
    }
    out
}

/// The root manifest of one environment.
pub fn root_tiltfile_path(ws: &str, env: &str) -> (r: String)
    ensures
        r@ == root_tiltfile_path_view(ws@, env@),
{
    let mut out = String::new();
    out.append(ws);
    out.append("/tilt/");
    out.append(env);
    out.append("/Tiltfile");
    proof {
        assert(out@ =~= root_tiltfile_path_view(ws@, env@));
    }
    out
}

/// The manifest of one service in one environment.
pub fn service_tiltfile_path(ws: &str, env: &str, name: &str) -> (r: String)
    ensures
        r@ == service_tiltfile_path_view(ws@, env@, name@),
{
    let mut out = services_dir_path(ws, env);
    out.append("/");
    out.append(name);
    out.append(".tilt.py");
    proof {
        assert(out@ =~= service_tiltfile_path_view(ws@, env@, name@));
    }
    out
}

/// A service's own directory under the services path.
pub fn service_dir_path(ws: &str, sp: &str, name: &str) -> (r: String)
    ensures
        r@ == service_dir_view(ws@, sp@, name@),
{
    let mut out = String::new();
    out.append(ws);
    out.append("/");
    out.append(sp);
    out.append("/");
    out.append(name);
    proof {
        assert(out@ =~= service_dir_view(ws@, sp@, name@));
    }
    out
}

/// The first-touch environment file of one service.
pub fn env_file_path(ws: &str, sp: &str, name: &str, env: &str) -> (r: String)
    ensures
        r@ == env_file_path_view(ws@, sp@, name@, env@),
{
    let mut out = service_dir_path(ws, sp, name);
    out.append("/.env.");
    out.append(env);
    proof {
        assert(out@ =~= env_file_path_view(ws@, sp@, name@, env@));
    }
    out
}

/// A service's manifest directory.
pub fn k8s_dir_path(ws: &str, sp: &str, name: &str) -> (r: String)
    ensures
        r@ == k8s_dir_view(ws@, sp@, name@),
{
    let mut out = service_dir_path(ws, sp, name);
    out.append("/k8s");
    proof {
        assert(out@ =~= k8s_dir_view(ws@, sp@, name@));
    }
    out
}

/// The first-touch deployment file of one service.
pub fn deployment_path(ws: &str, sp: &str, name: &str) -> (r: String)
    ensures
        r@ == deployment_path_view(ws@, sp@, name@),
{
    let mut out = k8s_dir_path(ws, sp, name);
    out.append("/");
    out.append(name);
    out.append("-deployment.yaml");
    proof {
        assert(out@ =~= deployment_path_view(ws@, sp@, name@));
    }
    out
}

/// The services path of a project, `repos` when unset.
pub open spec fn services_path_view(info: crate::project::ProjectInfo) -> Seq<char> {
    match info.services_path {
        Some(s) => s@,
        None => "repos"@,
    }
}

// ---------------------------------------------------------------------------
// Finding the environment, filtering to the enabled services
// ---------------------------------------------------------------------------

fn find_environment<'a>(project: &'a Project, name: &str) -> (r: Option<&'a Environment>)
    ensures
        match r {
            Some(e) => find_env_view(envs_view(*project), name@) == Some(e@),
            None => find_env_view(envs_view(*project), name@) is None,
        },
{
    let ghost ev = envs_view(*project);
    let mut i: usize = 0;
    proof {
        assert(ev.skip(0) =~= ev);
    }
    while i < project.environments.len()
        invariant
            ev == envs_view(*project),
            i <= project.environments@.len(),
            find_env_view(ev, name@) == find_env_view(ev.skip(i as int), name@),
        decreases project.environments@.len() - i,
    {
        proof {
            assert(ev.skip(i as int)[0] == ev[i as int]);
            assert(ev[i as int] == (project.environments@[i as int].0@,
            project.environments@[i as int].1@));
            assert(ev.skip(i as int).skip(1) =~= ev.skip(i + 1));
        }
        if crate::strutil::str_eq(project.environments[i].0.as_str(), name) {
            return Some(&project.environments[i].1);
        }
        i = i + 1;
    }
    proof {
        assert(ev.skip(project.environments@.len() as int) =~= Seq::<
            (Seq<char>, EnvironmentView),
        >::empty());
    }
    None
}

/// The services switched on for rendering, in stored order.
pub open spec fn enabled_views(vs: Seq<ServiceView>) -> Seq<ServiceView>
    decreases vs.len(),
{
    if vs.len() == 0 {
        Seq::empty()
    } else if vs[0].enabled {
        seq![vs[0]] + enabled_views(vs.skip(1))
    } else {
        enabled_views(vs.skip(1))
    }
}

/// Filtering keeps names distinct and draws only from the input.
pub proof fn lemma_enabled_views_sub(vs: Seq<ServiceView>)
    ensures
        forall|x: ServiceView| enabled_views(vs).contains(x) ==> vs.contains(x),
        distinct_names(vs) ==> distinct_names(enabled_views(vs)),
    decreases vs.len(),
{
    if vs.len() > 0 {
        lemma_enabled_views_sub(vs.skip(1));
        let e1 = enabled_views(vs.skip(1));
        assert(forall|i: int| 0 <= i < vs.skip(1).len() ==> (#[trigger] vs.skip(1)[i]) == vs[i + 1]);
        assert forall|x: ServiceView| enabled_views(vs).contains(x) implies vs.contains(x) by {
            if vs[0].enabled {
                let w = seq![vs[0]] + e1;
                let i = choose|i: int| 0 <= i < w.len() && w[i] == x;
                if i == 0 {
                    assert(vs[0] == x);
                    assert(vs.contains(x)) by {
                        assert(vs[0] == x);
                    }
                } else {
                    assert(e1.contains(x)) by {
                        assert(0 <= i - 1 < e1.len() && e1[i - 1] == x);
                    }
                    assert(vs.skip(1).contains(x));
                    let j = choose|j: int| 0 <= j < vs.skip(1).len() && vs.skip(1)[j] == x;
                    assert(vs.contains(x)) by {
                        assert(vs[j + 1] == x);
                    }
                }
            } else {
                assert(e1.contains(x));
                assert(vs.skip(1).contains(x));
                let j0 = choose|j: int| 0 <= j < vs.skip(1).len() && vs.skip(1)[j] == x;
                assert(vs.contains(x)) by {
                    assert(vs[j0 + 1] == x);
                }
            }
        }
        if distinct_names(vs) {
            assert(distinct_names(vs.skip(1)));
            if vs[0].enabled {
                let w = seq![vs[0]] + e1;
                assert forall|a: int, b: int| 0 <= a < b < w.len() implies w[a].name != w[b].name by {
                    if a == 0 {
                        assert(e1.contains(w[b])) by {
                            assert(e1[b - 1] == w[b]);
                        }
                        assert(vs.skip(1).contains(w[b]));
                        let j = choose|j: int| 0 <= j < vs.skip(1).len() && vs.skip(1)[j] == w[b];
                        assert(vs[j + 1] == w[b]);
                        assert(vs[0].name != vs[j + 1].name);
                    } else {
                        assert(w[a] == e1[a - 1] && w[b] == e1[b - 1]);
                    }
                }
            }
        }
    }
}

/// Clones the enabled services, keeping their stored order.
pub fn enabled_services(services: &Vec<Service>) -> (r: Vec<Service>)
    ensures
        svc_views(r@) == enabled_views(svc_views(services@)),
{
    let ghost vsv = svc_views(services@);
    let mut out: Vec<Service> = Vec::new();
    let mut i: usize = 0;
    proof {
        assert(vsv.skip(0) =~= vsv);
        assert(svc_views(out@) =~= Seq::<ServiceView>::empty());
        assert(svc_views(out@) + enabled_views(vsv) =~= enabled_views(vsv));
    }
    while i < services.len()
        invariant
            vsv == svc_views(services@),
            i <= services@.len(),
            svc_views(out@) + enabled_views(vsv.skip(i as int)) == enabled_views(vsv),
        decreases services@.len() - i,
    {
        let ghost prev = svc_views(out@);
        let ghost rest = vsv.skip(i as int);
        proof {
            assert(rest[0] == vsv[i as int]);
            assert(vsv[i as int] == services@[i as int]@);
            assert(rest.skip(1) =~= vsv.skip(i + 1));
        }
        if services[i].enabled {
            out.push(services[i].clone());
            proof {
                assert(svc_views(out@) =~= prev.push(vsv[i as int]));
                assert(enabled_views(rest) == seq![rest[0]] + enabled_views(rest.skip(1)));
                assert(svc_views(out@) + enabled_views(vsv.skip(i + 1)) =~= prev + enabled_views(
                    rest,
                ));
            }
        } else {
            proof {
                assert(svc_views(out@) + enabled_views(vsv.skip(i + 1)) =~= prev + enabled_views(
                    rest,
                ));
            }
        }
        i = i + 1;
    }
    proof {
        assert(vsv.skip(services@.len() as int) =~= Seq::<ServiceView>::empty());
    }
    out
}

/// The enabled services of the named environment, empty when the
/// environment does not exist.
pub open spec fn env_enabled(p: Project, name: Seq<char>) -> Seq<ServiceView> {
    match find_env_view(envs_view(p), name) {
        Some(e) => enabled_views(e.services),
        None => Seq::empty(),
    }
}

/// The shared variables of the named environment.
pub open spec fn env_shared(p: Project, name: Seq<char>) -> Seq<(Seq<char>, Seq<char>)> {
    match find_env_view(envs_view(p), name) {
        Some(e) => e.shared_env,
        None => Seq::empty(),
    }
}

// ---------------------------------------------------------------------------
// The generation plan
// ---------------------------------------------------------------------------

pub open spec fn svc_env_of(s: ServiceView) -> Seq<(Seq<char>, Seq<char>)> {
    match s.env {
        Some(m) => m,
        None => Seq::empty(),
    }
}

pub open spec fn load_line_view(name: Seq<char>) -> Seq<char> {
    "load(\"./services/"@ + name + ".tilt.py\", \""@ + replace_view(name, "-"@, "_"@) + "\")"@
}

pub open spec fn list_line_view(name: Seq<char>) -> Seq<char> {
    "    "@ + replace_view(name, "-"@, "_"@) + ","@
}

/// The root manifest: import lines and the invocation list, in dependency
/// order.
pub open spec fn root_tiltfile_view(env: Seq<char>, order: Seq<ServiceView>) -> Seq<char> {
    render_view(
        root_template_view(),
        seq![
            ("{{ENV_NAME}}"@, env),
            ("{{LOADS}}"@, join_view(
                order.map_values(|s: ServiceView| load_line_view(s.name)),
                "\n"@,
            )),
            ("{{SERVICES}}"@, join_view(
                order.map_values(|s: ServiceView| list_line_view(s.name)),
                "\n"@,
            )),
        ],
    )
}

/// The first-touch writes of one service: its environment file and, with a
/// plain manifest descriptor, its deployment file.
pub open spec fn svc_writes_view(
    s: ServiceView,
    ws: Seq<char>,
    sp: Seq<char>,
    env: Seq<char>,
    shared: Seq<(Seq<char>, Seq<char>)>,
) -> Seq<(Seq<char>, Seq<char>, bool)> {
    let m = merged_env(shared, svc_env_of(s));
    seq![(env_file_path_view(ws, sp, s.name, env), env_file_view(m), true)] + (match s.k8s {
        Some(_) => seq![(deployment_path_view(ws, sp, s.name), deployment_view(s.name, s.port, m), true)],
        None => Seq::empty(),
    })
}

/// Every file of the plan after the root manifest, service by service in
/// the given order.
pub open spec fn plan_files_view(
    order: Seq<ServiceView>,
    ws: Seq<char>,
    sp: Seq<char>,
    env: Seq<char>,
    shared: Seq<(Seq<char>, Seq<char>)>,
) -> Seq<(Seq<char>, Seq<char>, bool)>
    decreases order.len(),
{
    if order.len() == 0 {
        Seq::empty()
    } else {
        seq![
            (
                service_tiltfile_path_view(ws, env, order[0].name),
                service_tiltfile_view(order[0], sp),
                false,
            ),
        ] + svc_writes_view(order[0], ws, sp, env, shared) + plan_files_view(
            order.skip(1),
            ws,
            sp,
            env,
            shared,
        )
    }
}

/// The manifest directories the plan needs, one per service with a plain
/// manifest descriptor.
pub open spec fn plan_dirs_view(order: Seq<ServiceView>, ws: Seq<char>, sp: Seq<char>) -> Seq<
    Seq<char>,
>
    decreases order.len(),
{
    if order.len() == 0 {
        Seq::empty()
    } else {
        (match order[0].k8s {
            Some(_) => seq![k8s_dir_view(ws, sp, order[0].name)],
            None => Seq::empty(),
        }) + plan_dirs_view(order.skip(1), ws, sp)
    }
}

/// The whole plan, given the rendering order.
pub open spec fn plan_matches(
    plan: GenerationPlan,
    ws: Seq<char>,
    sp: Seq<char>,
    env: Seq<char>,
    shared: Seq<(Seq<char>, Seq<char>)>,
    order: Seq<ServiceView>,
) -> bool {
    &&& views_of(plan.dirs@) == seq![services_dir_view(ws, env)] + plan_dirs_view(order, ws, sp)
    &&& crate::files::writes_view(plan.files@) == seq![
        (root_tiltfile_path_view(ws, env), root_tiltfile_view(env, order), false),
    ] + plan_files_view(order, ws, sp, env, shared)
}

/// A dependency-respecting ordering of exactly the given services.
pub open spec fn is_topo_order_of(order: Seq<ServiceView>, ev: Seq<ServiceView>) -> bool {
    &&& order.len() == ev.len()
    &&& forall|i: int| 0 <= i < order.len() ==> ev.contains(#[trigger] order[i])
    &&& forall|i: int| 0 <= i < ev.len() ==> order.contains(#[trigger] ev[i])
    &&& distinct_names(order)
    &&& crate::graph::respects_deps(order)
}

/// Computes the first-touch writes for one service: its environment file
/// from the merged variables and, when a plain manifest descriptor is
/// present, its deployment file.
pub fn generate_service_files(
    workspace: &str,
    env_name: &str,
    shared_env: &Vec<(String, String)>,
    svc: &Service,
    services_path: &str,
) -> (r: Vec<FileWrite>)
    ensures
        crate::files::writes_view(r@) == svc_writes_view(
            svc@,
            workspace@,
            services_path@,
            env_name@,
            pairs_view(shared_env@),
        ),
{
    let ghost shv = pairs_view(shared_env@);
    let merged = match &svc.env {
        Some(m) => merge_env(shared_env, m),
        None => {
            let none: Vec<(String, String)> = Vec::new();
            let r = merge_env(shared_env, &none);
            proof {
                assert(pairs_view(none@) =~= Seq::<(Seq<char>, Seq<char>)>::empty());
                assert(svc_env_of(svc@) =~= Seq::<(Seq<char>, Seq<char>)>::empty());
            }
            r
        },
    };
    let ghost mv = merged_env(shv, svc_env_of(svc@));
    let mut writes: Vec<FileWrite> = Vec::new();
    let env_path = env_file_path(workspace, services_path, svc.name.as_str(), env_name);
    let env_content = generate_env_content(&merged);
    writes.push(FileWrite { path: env_path, content: env_content, first_touch: true });
    if svc.k8s.is_some() {
        let dep_path = deployment_path(workspace, services_path, svc.name.as_str());
        let dep_content = generate_deployment_content(&svc.name, svc.port, &merged);
        writes.push(FileWrite { path: dep_path, content: dep_content, first_touch: true });
        proof {
            assert(crate::files::writes_view(writes@) =~= svc_writes_view(
                svc@,
                workspace@,
                services_path@,
                env_name@,
                shv,
            ));
        }
    } else {
        proof {
            assert(crate::files::writes_view(writes@) =~= svc_writes_view(
                svc@,
                workspace@,
                services_path@,
                env_name@,
                shv,
            ));
        }
    }
    writes
}

/// Renders the root manifest for the ordered services.
pub fn generate_root_tiltfile(env_name: &str, sorted: &Vec<Service>) -> (r: String)
    ensures
        r@ == root_tiltfile_view(env_name@, svc_views(sorted@)),
{
    let ghost order = svc_views(sorted@);
    let ghost loads_v = order.map_values(|s: ServiceView| load_line_view(s.name));
    let ghost list_v = order.map_values(|s: ServiceView| list_line_view(s.name));
    let mut loads: Vec<String> = Vec::new();
    let mut list: Vec<String> = Vec::new();
    let mut i: usize = 0;
    proof {
        assert(views_of(loads@) =~= loads_v.take(0));
        assert(views_of(list@) =~= list_v.take(0));
    }
    while i < sorted.len()
        invariant
            order == svc_views(sorted@),
            loads_v == order.map_values(|s: ServiceView| load_line_view(s.name)),
            list_v == order.map_values(|s: ServiceView| list_line_view(s.name)),
            i <= sorted@.len(),
            views_of(loads@) == loads_v.take(i as int),
            views_of(list@) == list_v.take(i as int),
        decreases sorted@.len() - i,
    {
        let ghost prev_loads = views_of(loads@);
        let ghost prev_list = views_of(list@);
        let snake = replace_all(sorted[i].name.as_str(), "-", "_");
        let mut load_line = String::new();
        load_line.append("load(\"./services/");
        load_line.append(sorted[i].name.as_str());
        load_line.append(".tilt.py\", \"");
        load_line.append(snake.as_str());
        load_line.append("\")");
        let mut list_line = String::new();
        list_line.append("    ");
        list_line.append(snake.as_str());
        list_line.append(",");
        proof {
            assert(order[i as int] == sorted@[i as int]@);
            assert(load_line@ =~= loads_v[i as int]);
            assert(list_line@ =~= list_v[i as int]);
        }
        loads.push(load_line);
        list.push(list_line);
        proof {
            assert(views_of(loads@) =~= prev_loads.push(loads_v[i as int]));
            assert(loads_v.take(i + 1) =~= loads_v.take(i as int).push(loads_v[i as int]));
            assert(views_of(list@) =~= prev_list.push(list_v[i as int]));
            assert(list_v.take(i + 1) =~= list_v.take(i as int).push(list_v[i as int]));
        }
        i = i + 1;
    }
    proof {
        assert(loads_v.take(sorted@.len() as int) =~= loads_v);
        assert(list_v.take(sorted@.len() as int) =~= list_v);
    }
    let loads_joined = join_strings(&loads, "\n");
    let list_joined = join_strings(&list, "\n");
    let mut reps: Vec<(&str, &str)> = Vec::new();
    reps.push(("{{ENV_NAME}}", env_name));
    reps.push(("{{LOADS}}", loads_joined.as_str()));
    reps.push(("{{SERVICES}}", list_joined.as_str()));
    let r = render_template(root_template(), reps.as_slice());
    proof {
        assert(reps_view(reps@) =~= seq![
            ("{{ENV_NAME}}"@, env_name@),
            ("{{LOADS}}"@, join_view(loads_v, "\n"@)),
            ("{{SERVICES}}"@, join_view(list_v, "\n"@)),
        ]);
    }
    r
}

/// Plans the whole file tree for one environment: resolves the environment
/// and its enabled services, rejects a dependency cycle with the offending
/// path, orders the services, and renders the root manifest, one manifest
/// per service, and the first-touch files.
pub fn generate_tiltfiles(project: &Project, env_name: &str) -> (r: Result<
    GenerationPlan,
    GenError,
>)
    requires
        crate::project::wf_project(*project),
    ensures
        match r {
            Result::Err(e) => match e {
                GenError::EnvNotFound(en) => en@ == env_name@ && find_env_view(
                    envs_view(*project),
                    env_name@,
                ) is None,
                GenError::DependencyCycle(c) => find_env_view(envs_view(*project), env_name@)
                    is Some && is_cycle_path(env_enabled(*project, env_name@), views_of(c@))
                    && has_cycle(env_enabled(*project, env_name@)),
                GenError::ReorderCycle(_) => false,
            },
            Result::Ok(plan) => {
                &&& find_env_view(envs_view(*project), env_name@) is Some
                &&& !has_cycle(env_enabled(*project, env_name@))
                &&& exists|order: Seq<ServiceView>|
                    #[trigger] is_topo_order_of(order, env_enabled(*project, env_name@))
                        && plan_matches(
                        plan,
                        project.project.workspace_path@,
                        services_path_view(project.project),
                        env_name@,
                        env_shared(*project, env_name@),
                        order,
                    )
            },
        },
        find_env_view(envs_view(*project), env_name@) is None <==> r matches Result::Err(
            GenError::EnvNotFound(_),
        ),
        find_env_view(envs_view(*project), env_name@) is Some && has_cycle(
            env_enabled(*project, env_name@),
        ) <==> r matches Result::Err(GenError::DependencyCycle(_)),
{
    let ghost wsv = project.project.workspace_path@;
    let ghost spv = services_path_view(project.project);
    let env = match find_environment(project, env_name) {
        Some(e) => e,
        None => {
            let mut en = String::new();
            en.append(env_name);
            return Err(GenError::EnvNotFound(en));
        },
    };
    let workspace: &str = project.project.workspace_path.as_str();
    let services_path: &str = match &project.project.services_path {
        Some(s) => s.as_str(),
        None => "repos",
    };
    let enabled = enabled_services(&env.services);
    let ghost ev = enabled_views(svc_views(env.services@));
    proof {
        assert(env_enabled(*project, env_name@) == ev);
        assert(env_shared(*project, env_name@) == pairs_view(env.shared_env@));
        // The environment is well formed, so the enabled services have
        // distinct names.
        crate::project::lemma_find_env_wf(envs_view(*project), env_name@);
        assert(crate::project::wf_environment(env@));
        lemma_enabled_views_sub(svc_views(env.services@));
        assert(distinct_names(ev));
        assert(crate::project::services_distinct(enabled@));
    }
    match detect_cycles(&enabled) {
        Some(c) => {
            return Err(GenError::DependencyCycle(c));
        },
        None => {},
    }
    let sorted = topo_sort(&enabled);
    let ghost order = svc_views(sorted@);
    let root_content = generate_root_tiltfile(env_name, &sorted);
    let root_path = root_tiltfile_path(workspace, env_name);
    let mut dirs: Vec<String> = Vec::new();
    dirs.push(services_dir_path(workspace, env_name));
    let mut files: Vec<FileWrite> = Vec::new();
    files.push(FileWrite { path: root_path, content: root_content, first_touch: false });
    let ghost shv = pairs_view(env.shared_env@);
    let mut i: usize = 0;
    proof {
        assert(order.skip(0) =~= order);
        assert(views_of(dirs@) =~= seq![services_dir_view(wsv, env_name@)]);
        assert(crate::files::writes_view(files@) =~= seq![
            (root_tiltfile_path_view(wsv, env_name@), root_tiltfile_view(env_name@, order), false),
        ]);
        assert(views_of(dirs@) + plan_dirs_view(order, wsv, spv) =~= seq![
            services_dir_view(wsv, env_name@),
        ] + plan_dirs_view(order, wsv, spv));
        assert(crate::files::writes_view(files@) + plan_files_view(order, wsv, spv, env_name@, shv)
            =~= seq![
            (root_tiltfile_path_view(wsv, env_name@), root_tiltfile_view(env_name@, order), false),
        ] + plan_files_view(order, wsv, spv, env_name@, shv));
    }
    while i < sorted.len()
        invariant
            order == svc_views(sorted@),
            wsv == workspace@,
            spv == services_path@,
            shv == pairs_view(env.shared_env@),
            i <= sorted@.len(),
            views_of(dirs@) + plan_dirs_view(order.skip(i as int), wsv, spv) == seq![
                services_dir_view(wsv, env_name@),
            ] + plan_dirs_view(order, wsv, spv),
            crate::files::writes_view(files@) + plan_files_view(
                order.skip(i as int),
                wsv,
                spv,
                env_name@,
                shv,
            ) == seq![
                (
                    root_tiltfile_path_view(wsv, env_name@),
                    root_tiltfile_view(env_name@, order),
                    false,
                ),
            ] + plan_files_view(order, wsv, spv, env_name@, shv),
        decreases sorted@.len() - i,
    {
        let ghost rest = order.skip(i as int);
        let ghost prev_dirs = views_of(dirs@);
        let ghost prev_files = crate::files::writes_view(files@);
        proof {
            assert(rest[0] == order[i as int]);
            assert(order[i as int] == sorted@[i as int]@);
            assert(rest.skip(1) =~= order.skip(i + 1));
        }
        let svc = &sorted[i];
        let manifest_path = service_tiltfile_path(workspace, env_name, svc.name.as_str());
        let manifest = generate_service_tiltfile(svc, services_path);
        files.push(FileWrite { path: manifest_path, content: manifest, first_touch: false });
        let mut extra = generate_service_files(
            workspace,
            env_name,
            &env.shared_env,
            svc,
            services_path,
        );
        let ghost extra_v = crate::files::writes_view(extra@);
        files.append(&mut extra);
        if svc.k8s.is_some() {
            dirs.push(k8s_dir_path(workspace, services_path, svc.name.as_str()));
        }
        proof {
            assert(crate::files::writes_view(files@) =~= prev_files.push(
                (
                    service_tiltfile_path_view(wsv, env_name@, order[i as int].name),
                    service_tiltfile_view(order[i as int], spv),
                    false,
                ),
            ) + extra_v);
            assert(plan_files_view(rest, wsv, spv, env_name@, shv) == seq![
                (
                    service_tiltfile_path_view(wsv, env_name@, rest[0].name),
                    service_tiltfile_view(rest[0], spv),
                    false,
                ),
            ] + svc_writes_view(rest[0], wsv, spv, env_name@, shv) + plan_files_view(
                rest.skip(1),
                wsv,
                spv,
                env_name@,
                shv,
            ));
            assert(crate::files::writes_view(files@) + plan_files_view(
                order.skip(i + 1),
                wsv,
                spv,
                env_name@,
                shv,
            ) =~= prev_files + plan_files_view(rest, wsv, spv, env_name@, shv));
            if order[i as int].k8s is Some {
                assert(views_of(dirs@) =~= prev_dirs.push(k8s_dir_view(
                    wsv,
                    spv,
                    order[i as int].name,
                )));
            }
            assert(plan_dirs_view(rest, wsv, spv) == (match rest[0].k8s {
                Some(_) => seq![k8s_dir_view(wsv, spv, rest[0].name)],
                None => Seq::<Seq<char>>::empty(),
            }) + plan_dirs_view(rest.skip(1), wsv, spv));
            assert(views_of(dirs@) + plan_dirs_view(order.skip(i + 1), wsv, spv) =~= prev_dirs
                + plan_dirs_view(rest, wsv, spv));
        }
        i = i + 1;
    }
    let plan = GenerationPlan { dirs, files };
    proof {
        assert(order.skip(sorted@.len() as int) =~= Seq::<ServiceView>::empty());
        assert(views_of(plan.dirs@) =~= seq![services_dir_view(wsv, env_name@)] + plan_dirs_view(
            order,
            wsv,
            spv,
        ));
        assert(crate::files::writes_view(plan.files@) =~= seq![
            (root_tiltfile_path_view(wsv, env_name@), root_tiltfile_view(env_name@, order), false),
        ] + plan_files_view(order, wsv, spv, env_name@, shv));
        assert(is_topo_order_of(order, ev));
        assert(plan_matches(plan, wsv, spv, env_name@, shv, order));
    }
    Ok(plan)
}

// ---------------------------------------------------------------------------
// Reordering the stored service list
// ---------------------------------------------------------------------------

/// The position of `n` in the requested ordering; names not mentioned rank
/// after every mentioned one.
pub open spec fn order_rank(order: Seq<Seq<char>>, n: Seq<char>) -> int
    decreases order.len(),
{
    if order.len() == 0 {
        0
    } else if order[0] == n {
        0
    } else {
        1 + order_rank(order.skip(1), n)
    }
}

/// The services whose names rank exactly `k`, in stored order.
pub open spec fn filter_rank(vs: Seq<ServiceView>, order: Seq<Seq<char>>, k: int) -> Seq<
    ServiceView,
>
    decreases vs.len(),
{
    if vs.len() == 0 {
        Seq::empty()
    } else {
        (if order_rank(order, vs[0].name) == k {
            seq![vs[0]]
        } else {
            Seq::empty()
        }) + filter_rank(vs.skip(1), order, k)
    }
}

pub open spec fn reorder_from(vs: Seq<ServiceView>, order: Seq<Seq<char>>, k: int) -> Seq<
    ServiceView,
>
    decreases order.len() + 1 - k,
{
    if k < 0 || k > order.len() {
        Seq::empty()
    } else {
        filter_rank(vs, order, k) + reorder_from(vs, order, k + 1)
    }
}

/// The stored list re-sorted by the requested ordering: mentioned services
/// in the requested order, unmentioned ones after them, ties and the
/// unmentioned keeping their stored order.
pub open spec fn reorder_view(vs: Seq<ServiceView>, order: Seq<Seq<char>>) -> Seq<ServiceView> {
    reorder_from(vs, order, 0)
}

proof fn lemma_order_rank_bounds(order: Seq<Seq<char>>, n: Seq<char>)
    ensures
        0 <= order_rank(order, n) <= order.len(),
    decreases order.len(),
{
    if order.len() > 0 && order[0] != n {
        lemma_order_rank_bounds(order.skip(1), n);
    }
}

proof fn lemma_filter_rank_sub(vs: Seq<ServiceView>, order: Seq<Seq<char>>, k: int)
    ensures
        forall|x: ServiceView|
            #[trigger] filter_rank(vs, order, k).contains(x) ==> vs.contains(x) && order_rank(
                order,
                x.name,
            ) == k,
        distinct_names(vs) ==> distinct_names(filter_rank(vs, order, k)),
    decreases vs.len(),
{
    if vs.len() > 0 {
        lemma_filter_rank_sub(vs.skip(1), order, k);
        let f1 = filter_rank(vs.skip(1), order, k);
        assert(forall|i: int| 0 <= i < vs.skip(1).len() ==> (#[trigger] vs.skip(1)[i]) == vs[i + 1]);
        assert forall|x: ServiceView| #[trigger]
            filter_rank(vs, order, k).contains(x) implies vs.contains(x) && order_rank(
            order,
            x.name,
        ) == k by {
            let w = filter_rank(vs, order, k);
            let i = choose|i: int| 0 <= i < w.len() && w[i] == x;
            if order_rank(order, vs[0].name) == k {
                if i == 0 {
                    assert(vs.contains(x)) by {
                        assert(vs[0] == x);
                    }
                } else {
                    assert(f1.contains(x)) by {
                        assert(0 <= i - 1 < f1.len() && f1[i - 1] == x);
                    }
                    assert(vs.skip(1).contains(x));
                    let j = choose|j: int| 0 <= j < vs.skip(1).len() && vs.skip(1)[j] == x;
                    assert(vs.contains(x)) by {
                        assert(vs[j + 1] == x);
                    }
                }
            } else {
                assert(f1.contains(x)) by {
                    assert(0 <= i < f1.len() && f1[i] == x);
                }
                assert(vs.skip(1).contains(x));
                let j = choose|j: int| 0 <= j < vs.skip(1).len() && vs.skip(1)[j] == x;
                assert(vs.contains(x)) by {
                    assert(vs[j + 1] == x);
                }
            }
        }
        if distinct_names(vs) {
            assert(distinct_names(vs.skip(1)));
            if order_rank(order, vs[0].name) == k {
                let w = seq![vs[0]] + f1;
                assert forall|a: int, b: int| 0 <= a < b < w.len() implies w[a].name != w[b].name by {
                    if a == 0 {
                        assert(f1.contains(w[b])) by {
                            assert(f1[b - 1] == w[b]);
                        }
                        assert(vs.skip(1).contains(w[b]));
                        let j = choose|j: int| 0 <= j < vs.skip(1).len() && vs.skip(1)[j] == w[b];
                        assert(vs[j + 1] == w[b]);
                        assert(vs[0].name != vs[j + 1].name);
                    } else {
                        assert(w[a] == f1[a - 1] && w[b] == f1[b - 1]);
                    }
                }
            }
        }
    }
}

proof fn lemma_reorder_from_sub(vs: Seq<ServiceView>, order: Seq<Seq<char>>, k: int)
    ensures
        forall|x: ServiceView|
            #[trigger] reorder_from(vs, order, k).contains(x) ==> vs.contains(x) && order_rank(
                order,
                x.name,
            ) >= k,
        distinct_names(vs) ==> distinct_names(reorder_from(vs, order, k)),
    decreases order.len() + 1 - k,
{
    if 0 <= k && k <= order.len() {
        lemma_filter_rank_sub(vs, order, k);
        lemma_reorder_from_sub(vs, order, k + 1);
        let f = filter_rank(vs, order, k);
        let r1 = reorder_from(vs, order, k + 1);
        let w = f + r1;
        assert forall|x: ServiceView| #[trigger] w.contains(x) implies vs.contains(x) && order_rank(
            order,
            x.name,
        ) >= k by {
            let i = choose|i: int| 0 <= i < w.len() && w[i] == x;
            if i < f.len() {
                assert(f.contains(x)) by {
                    assert(f[i] == x);
                }
            } else {
                assert(r1.contains(x)) by {
                    assert(r1[i - f.len()] == x);
                }
            }
        }
        if distinct_names(vs) {
            assert forall|a: int, b: int| 0 <= a < b < w.len() implies w[a].name != w[b].name by {
                if b < f.len() {
                } else if a >= f.len() {
                    assert(w[a] == r1[a - f.len()] && w[b] == r1[b - f.len()]);
                } else {
                    assert(f.contains(w[a])) by {
                        assert(f[a] == w[a]);
                    }
                    assert(r1.contains(w[b])) by {
                        assert(r1[b - f.len()] == w[b]);
                    }
                    assert(order_rank(order, w[a].name) == k);
                    assert(order_rank(order, w[b].name) >= k + 1);
                }
            }
        }
    }
}

/// The rank of a name in the requested ordering.
fn order_rank_of(order: &Vec<String>, name: &String) -> (r: usize)
    ensures
        r as int == order_rank(views_of(order@), name@),
        r <= order@.len(),
{
    let ghost ov = views_of(order@);
    let mut i: usize = 0;
    proof {
        assert(ov.skip(0) =~= ov);
        lemma_order_rank_bounds(ov, name@);
    }
    while i < order.len()
        invariant
            ov == views_of(order@),
            i <= order@.len(),
            order_rank(ov, name@) == i + order_rank(ov.skip(i as int), name@),
            order_rank(ov.skip(i as int), name@) >= 0,
        decreases order@.len() - i,
    {
        let ghost rest = ov.skip(i as int);
        proof {
            assert(rest[0] == ov[i as int]);
            assert(ov[i as int] == order@[i as int]@);
            assert(rest.skip(1) =~= ov.skip(i + 1));
            lemma_order_rank_bounds(ov.skip(i + 1), name@);
        }
        if order[i] == *name {
            proof {
                assert(order_rank(rest, name@) == 0);
            }
            return i;
        }
        i = i + 1;
    }
    proof {
        assert(ov.skip(order@.len() as int) =~= Seq::<Seq<char>>::empty());
    }
    order.len()
}

/// Appends every service whose name ranks exactly `k`, in stored order.
fn push_rank(services: &Vec<Service>, order: &Vec<String>, k: usize, out: &mut Vec<Service>)
    ensures
        svc_views(final(out)@) == svc_views(old(out)@) + filter_rank(
            svc_views(services@),
            views_of(order@),
            k as int,
        ),
{
    let ghost vsv = svc_views(services@);
    let ghost ov = views_of(order@);
    let ghost base = svc_views(out@);
    let mut j: usize = 0;
    proof {
        assert(vsv.skip(0) =~= vsv);
    }
    while j < services.len()
        invariant
            vsv == svc_views(services@),
            ov == views_of(order@),
            j <= services@.len(),
            svc_views(out@) + filter_rank(vsv.skip(j as int), ov, k as int) == base + filter_rank(
                vsv,
                ov,
                k as int,
            ),
        decreases services@.len() - j,
    {
        let ghost prev = svc_views(out@);
        let ghost rest = vsv.skip(j as int);
        proof {
            assert(rest[0] == vsv[j as int]);
            assert(vsv[j as int] == services@[j as int]@);
            assert(rest.skip(1) =~= vsv.skip(j + 1));
            assert(filter_rank(rest, ov, k as int) == (if order_rank(ov, rest[0].name) == k as int {
                seq![rest[0]]
            } else {
                Seq::<ServiceView>::empty()
            }) + filter_rank(rest.skip(1), ov, k as int));
        }
        let rank = order_rank_of(order, &services[j].name);
        if rank == k {
            out.push(services[j].clone());
            proof {
                assert(svc_views(out@) =~= prev.push(vsv[j as int]));
                assert(svc_views(out@) + filter_rank(vsv.skip(j + 1), ov, k as int) =~= prev
                    + filter_rank(rest, ov, k as int));
            }
        } else {
            proof {
                assert(svc_views(out@) + filter_rank(vsv.skip(j + 1), ov, k as int) =~= prev
                    + filter_rank(rest, ov, k as int));
            }
        }
        j = j + 1;
    }
    proof {
        assert(vsv.skip(services@.len() as int) =~= Seq::<ServiceView>::empty());
        assert(filter_rank(Seq::<ServiceView>::empty(), ov, k as int) =~= Seq::<
            ServiceView,
        >::empty());
        assert(svc_views(out@) + Seq::<ServiceView>::empty() =~= svc_views(out@));
        assert(base + filter_rank(vsv, ov, k as int) + Seq::<ServiceView>::empty() =~= base
            + filter_rank(vsv, ov, k as int));
    }
}

/// Re-sorts the stored services by the requested name ordering: requested
/// names first in that order, everything else after in stored order.
fn reorder_list(services: &Vec<Service>, order: &Vec<String>) -> (r: Vec<Service>)
    ensures
        svc_views(r@) == reorder_view(svc_views(services@), views_of(order@)),
{
    let ghost vsv = svc_views(services@);
    let ghost ov = views_of(order@);
    let mut out: Vec<Service> = Vec::new();
    let mut k: usize = 0;
    proof {
        assert(svc_views(out@) =~= Seq::<ServiceView>::empty());
        assert(svc_views(out@) + reorder_from(vsv, ov, 0) =~= reorder_from(vsv, ov, 0));
    }
    while k < order.len()
        invariant
            vsv == svc_views(services@),
            ov == views_of(order@),
            k <= order@.len(),
            svc_views(out@) + reorder_from(vsv, ov, k as int) == reorder_view(vsv, ov),
        decreases order@.len() - k,
    {
        let ghost prev = svc_views(out@);
        proof {
            assert(reorder_from(vsv, ov, k as int) == filter_rank(vsv, ov, k as int)
                + reorder_from(vsv, ov, k + 1));
        }
        push_rank(services, order, k, &mut out);
        proof {
            assert(svc_views(out@) + reorder_from(vsv, ov, k + 1) =~= prev + reorder_from(
                vsv,
                ov,
                k as int,
            ));
        }
        k = k + 1;
    }
    let ghost prev = svc_views(out@);
    proof {
        assert(reorder_from(vsv, ov, order@.len() as int) == filter_rank(
            vsv,
            ov,
            order@.len() as int,
        ) + reorder_from(vsv, ov, order@.len() as int + 1));
        assert(reorder_from(vsv, ov, order@.len() as int + 1) =~= Seq::<ServiceView>::empty());
    }
    push_rank(services, order, order.len(), &mut out);
    proof {
        assert(filter_rank(vsv, ov, order@.len() as int) + Seq::<ServiceView>::empty()
            =~= filter_rank(vsv, ov, order@.len() as int));
        assert(svc_views(out@) =~= prev + reorder_from(vsv, ov, order@.len() as int));
    }
    out
}

/// The project after a reorder: every environment untouched but the named
/// one, whose stored services are re-sorted by the requested ordering.
pub open spec fn reordered_project(
    old_p: Project,
    new_p: Project,
    env: Seq<char>,
    order: Seq<Seq<char>>,
) -> bool {
    let oe = envs_view(old_p);
    let ne = envs_view(new_p);
    &&& new_p.project == old_p.project
    &&& ne.len() == oe.len()
    &&& forall|i: int| 0 <= i < oe.len() ==> (#[trigger] ne[i]).0 == oe[i].0
    &&& forall|i: int| 0 <= i < oe.len() && oe[i].0 != env ==> (#[trigger] ne[i]).1 == oe[i].1
    &&& forall|i: int|
        0 <= i < oe.len() && oe[i].0 == env ==> (#[trigger] ne[i]).1.shared_env
            == oe[i].1.shared_env && ne[i].1.services == reorder_view(oe[i].1.services, order)
}

proof fn lemma_find_env_at(ev: Seq<(Seq<char>, EnvironmentView)>, name: Seq<char>, idx: int)
    requires
        0 <= idx < ev.len(),
        ev[idx].0 == name,
        forall|j: int| 0 <= j < idx ==> (#[trigger] ev[j]).0 != name,
    ensures
        find_env_view(ev, name) == Some(ev[idx].1),
    decreases idx,
{
    if idx > 0 {
        assert(forall|i: int| 0 <= i < ev.skip(1).len() ==> (#[trigger] ev.skip(1)[i]) == ev[i + 1]);
        lemma_find_env_at(ev.skip(1), name, idx - 1);
    }
}

/// The position of the first environment bound to `name`.
fn find_env_index(project: &Project, name: &str) -> (r: Option<usize>)
    ensures
        match r {
            Some(i) => i < project.environments@.len() && envs_view(*project)[i as int].0 == name@
                && (forall|j: int| 0 <= j < i ==> (#[trigger] envs_view(*project)[j]).0 != name@),
            None => find_env_view(envs_view(*project), name@) is None,
        },
{
    let ghost ev = envs_view(*project);
    let mut i: usize = 0;
    while i < project.environments.len()
        invariant
            ev == envs_view(*project),
            i <= project.environments@.len(),
            forall|j: int| 0 <= j < i ==> (#[trigger] ev[j]).0 != name@,
        decreases project.environments@.len() - i,
    {
        proof {
            assert(ev[i as int] == (project.environments@[i as int].0@,
            project.environments@[i as int].1@));
        }
        if crate::strutil::str_eq(project.environments[i].0.as_str(), name) {
            return Some(i);
        }
        i = i + 1;
    }
    proof {
        lemma_find_env_none(ev, name@);
    }
    None
}

/// Re-sorts the stored service list of one environment by the caller's
/// name ordering, re-validates the dependency graph, and plans a fresh
/// generation. The dependency-derived build order is unaffected; only the
/// persisted display sequence changes.
pub fn reorder_services(project: &mut Project, env: &str, new_order: Vec<String>) -> (r: Result<
    GenerationPlan,
    GenError,
>)
    requires
        crate::project::wf_project(*old(project)),
    ensures
        crate::project::wf_project(*final(project)),
        match r {
            Result::Err(e) => match e {
                GenError::EnvNotFound(en) => en@ == env@ && find_env_view(
                    envs_view(*old(project)),
                    env@,
                ) is None && *final(project) == *old(project),
                GenError::ReorderCycle(c) => reordered_project(
                    *old(project),
                    *final(project),
                    env@,
                    views_of(new_order@),
                ) && is_cycle_path(env_enabled(*final(project), env@), views_of(c@)) && has_cycle(
                    env_enabled(*final(project), env@),
                ),
                GenError::DependencyCycle(_) => false,
            },
            Result::Ok(plan) => {
                &&& reordered_project(
                    *old(project),
                    *final(project),
                    env@,
                    views_of(new_order@),
                )
                &&& !has_cycle(env_enabled(*final(project), env@))
                &&& exists|order: Seq<ServiceView>|
                    #[trigger] is_topo_order_of(order, env_enabled(*final(project), env@))
                        && plan_matches(
                        plan,
                        final(project).project.workspace_path@,
                        services_path_view(final(project).project),
                        env@,
                        env_shared(*final(project), env@),
                        order,
                    )
            },
        },
{
    let ghost old_envs = envs_view(*project);
    let idx = match find_env_index(project, env) {
        Some(i) => i,
        None => {
            let mut en = String::new();
            en.append(env);
            return Err(GenError::EnvNotFound(en));
        },
    };
    let entry = project.environments.remove(idx);
    let reordered = reorder_list(&entry.1.services, &new_order);
    let new_env = Environment { shared_env: entry.1.shared_env, services: reordered };
    project.environments.insert(idx, (entry.0, new_env));
    proof {
        let ne = envs_view(*project);
        assert(project.environments@ =~= old(project).environments@.update(
            idx as int,
            (old(project).environments@[idx as int].0, Environment {
                shared_env: old(project).environments@[idx as int].1.shared_env,
                services: reordered,
            }),
        ));
        assert(ne.len() == old_envs.len());
        assert(forall|i: int|
            0 <= i < old_envs.len() && i != idx ==> (#[trigger] ne[i]) == old_envs[i]);
        assert(ne[idx as int].0 == old_envs[idx as int].0);
        assert(ne[idx as int].1.shared_env == old_envs[idx as int].1.shared_env);
        assert(ne[idx as int].1.services == reorder_view(
            old_envs[idx as int].1.services,
            views_of(new_order@),
        ));
        // Only the first environment of that name matters, and names are
        // distinct, so every other entry keeps a different name.
        assert forall|i: int|
            0 <= i < old_envs.len() && (#[trigger] old_envs[i]).0 == env@ implies i == idx by {
            if i != idx {
                assert(old_envs[idx as int].0 == env@);
            }
        }
        assert(reordered_project(*old(project), *project, env@, views_of(new_order@)));
        // Well-formedness survives the permutation.
        lemma_reorder_from_sub(old_envs[idx as int].1.services, views_of(new_order@), 0);
        assert(crate::project::wf_environment(old_envs[idx as int].1));
        let rs = reorder_view(old_envs[idx as int].1.services, views_of(new_order@));
        assert forall|i: int| 0 <= i < rs.len() implies crate::project::wf_service(
            #[trigger] rs[i],
        ) by {
            assert(rs.contains(rs[i]));
            assert(old_envs[idx as int].1.services.contains(rs[i]));
            let j = choose|j: int|
                0 <= j < old_envs[idx as int].1.services.len() && old_envs[idx as int].1.services[j]
                    == rs[i];
            assert(crate::project::wf_service(old_envs[idx as int].1.services[j]));
        }
        assert(crate::project::wf_environment(ne[idx as int].1));
        assert(crate::project::wf_project(*project));
        lemma_find_env_at(ne, env@, idx as int);
    }
    let generated = generate_tiltfiles(project, env);
    match generated {
        Ok(plan) => Ok(plan),
        Err(e) => {
            match e {
                GenError::DependencyCycle(c) => Err(GenError::ReorderCycle(c)),
                GenError::EnvNotFound(_) => {
                    proof {
                        assert(false);
                    }
                    Err(e)
                },
                GenError::ReorderCycle(_) => {
                    proof {
                        assert(false);
                    }
                    Err(e)
                },
            }
        },
    }
}

proof fn lemma_find_env_none(ev: Seq<(Seq<char>, EnvironmentView)>, name: Seq<char>)
    requires
        forall|j: int| 0 <= j < ev.len() ==> (#[trigger] ev[j]).0 != name,
    ensures
        find_env_view(ev, name) is None,
    decreases ev.len(),
{
    if ev.len() > 0 {
        assert(forall|i: int| 0 <= i < ev.skip(1).len() ==> (#[trigger] ev.skip(1)[i]) == ev[i + 1]);
        lemma_find_env_none(ev.skip(1), name);
    }
}

} // verus!
