//! The project data model: services with their deployment descriptors,
//! named environments, and the project root description.
//!
//! Environment-variable maps and the environment table are association
//! lists whose well-formedness demands distinct keys, mirroring the unique
//! names the stored documents guarantee.

use vstd::prelude::*;

verus! {

/// A service's source repository.
#[derive(Debug)]
pub struct Repo {
    pub url: String,
    pub branch: Option<String>,
}

/// Build configuration for a container image.
#[derive(Debug)]
pub struct Docker {
    pub context: String,
    pub dockerfile: String,
}

/// Plain manifest-directory deployment.
#[derive(Debug)]
pub struct K8s {
    pub manifests: String,
}

/// Chart-based deployment.
#[derive(Debug)]
pub struct Helm {
    pub chart: String,
    pub namespace: Option<String>,
}

/// Overlay-based deployment.
#[derive(Debug)]
pub struct Kustomize {
    pub path: String,
}

/// One managed service of an environment.
#[derive(Debug)]
pub struct Service {
    pub name: String,
    pub path: Option<String>,
    pub port: u16,
    pub enabled: bool,
    pub repo: Option<Repo>,
    pub docker: Option<Docker>,
    pub k8s: Option<K8s>,
    pub env: Option<Vec<(String, String)>>,
    pub depends_on: Option<Vec<String>>,
    pub helm: Option<Helm>,
    pub kustomize: Option<Kustomize>,
}

/// How the orchestration tool is laid out over the workspace.
#[derive(Debug, Clone, Copy, PartialEq, Eq, Structural)]
pub enum TiltMode {
    Root,
    PerRepo,
    Hybrid,
}

#[derive(Debug, Clone, Copy, PartialEq, Eq, Structural)]
pub struct Tilt {
    pub mode: TiltMode,
}

/// The root description of a project.
#[derive(Debug)]
pub struct ProjectInfo {
    pub name: String,
    pub workspace_path: String,
    pub tilt: Tilt,
    pub services_path: Option<String>,
}

/// A named deployment context: shared variables plus its service list, in
/// the user's preferred display order.
#[derive(Debug)]
pub struct Environment {
    pub shared_env: Vec<(String, String)>,
    pub services: Vec<Service>,
}

/// A project: its root description and its environments by name.
#[derive(Debug)]
pub struct Project {
    pub project: ProjectInfo,
    pub environments: Vec<(String, Environment)>,
}

// ---------------------------------------------------------------------------
// Views
// ---------------------------------------------------------------------------

pub struct RepoView {
    pub url: Seq<char>,
    pub branch: Option<Seq<char>>,
}

pub struct DockerView {
    pub context: Seq<char>,
    pub dockerfile: Seq<char>,
}

pub struct K8sView {
    pub manifests: Seq<char>,
}

pub struct HelmView {
    pub chart: Seq<char>,
    pub namespace: Option<Seq<char>>,
}

pub struct KustomizeView {
    pub path: Seq<char>,
}

pub struct ServiceView {
    pub name: Seq<char>,
    pub path: Option<Seq<char>>,
    pub port: u16,
    pub enabled: bool,
    pub repo: Option<RepoView>,
    pub docker: Option<DockerView>,
    pub k8s: Option<K8sView>,
    pub env: Option<Seq<(Seq<char>, Seq<char>)>>,
    pub depends_on: Option<Seq<Seq<char>>>,
    pub helm: Option<HelmView>,
    pub kustomize: Option<KustomizeView>,
}

pub open spec fn opt_view(o: Option<String>) -> Option<Seq<char>> {
    match o {
        Some(s) => Some(s@),
        None => None,
    }
}

/// The views of an association list's entries.
pub open spec fn pairs_view(m: Seq<(String, String)>) -> Seq<(Seq<char>, Seq<char>)> {
    m.map_values(|p: (String, String)| (p.0@, p.1@))
}

impl View for Repo {
    type V = RepoView;

    open spec fn view(&self) -> RepoView {
        RepoView { url: self.url@, branch: opt_view(self.branch) }
    }
}

impl View for Docker {
    type V = DockerView;

    open spec fn view(&self) -> DockerView {
        DockerView { context: self.context@, dockerfile: self.dockerfile@ }
    }
}

impl View for K8s {
    type V = K8sView;

    open spec fn view(&self) -> K8sView {
        K8sView { manifests: self.manifests@ }
    }
}

impl View for Helm {
    type V = HelmView;

    open spec fn view(&self) -> HelmView {
        HelmView { chart: self.chart@, namespace: opt_view(self.namespace) }
    }
}

impl View for Kustomize {
    type V = KustomizeView;

    open spec fn view(&self) -> KustomizeView {
        KustomizeView { path: self.path@ }
    }
}

impl View for Service {
    type V = ServiceView;

    open spec fn view(&self) -> ServiceView {
        ServiceView {
            name: self.name@,
            path: opt_view(self.path),
            port: self.port,
            enabled: self.enabled,
            repo: match self.repo {
                Some(x) => Some(x@),
                None => None,
            },
            docker: match self.docker {
                Some(x) => Some(x@),
                None => None,
            },
            k8s: match self.k8s {
                Some(x) => Some(x@),
                None => None,
            },
            env: match self.env {
                Some(m) => Some(pairs_view(m@)),
                None => None,
            },
            depends_on: match self.depends_on {
                Some(d) => Some(crate::strutil::views_of(d@)),
                None => None,
            },
            helm: match self.helm {
                Some(x) => Some(x@),
                None => None,
            },
            kustomize: match self.kustomize {
                Some(x) => Some(x@),
                None => None,
            },
        }
    }
}

/// The views of a service list.
pub open spec fn svc_views(ss: Seq<Service>) -> Seq<ServiceView> {
    ss.map_values(|s: Service| s@)
}

pub struct EnvironmentView {
    pub shared_env: Seq<(Seq<char>, Seq<char>)>,
    pub services: Seq<ServiceView>,
}

impl View for Environment {
    type V = EnvironmentView;

    open spec fn view(&self) -> EnvironmentView {
        EnvironmentView { shared_env: pairs_view(self.shared_env@), services: svc_views(self.services@) }
    }
}

/// The environment table by name, in views.
pub open spec fn envs_view(p: Project) -> Seq<(Seq<char>, EnvironmentView)> {
    p.environments@.map_values(|e: (String, Environment)| (e.0@, e.1@))
}

/// The first environment bound to `name`, if any.
pub open spec fn find_env_view(
    envs: Seq<(Seq<char>, EnvironmentView)>,
    name: Seq<char>,
) -> Option<EnvironmentView>
    decreases envs.len(),
{
    if envs.len() == 0 {
        None
    } else if envs[0].0 == name {
        Some(envs[0].1)
    } else {
        find_env_view(envs.skip(1), name)
    }
}

// ---------------------------------------------------------------------------
// Cloning with known results
// ---------------------------------------------------------------------------

pub(crate) fn clone_opt_string(o: &Option<String>) -> (r: Option<String>)
    ensures
        r == *o,
{
    match o {
        Some(s) => Some(s.clone()),
        None => None,
    }
}

pub(crate) fn clone_names(v: &Vec<String>) -> (r: Vec<String>)
    ensures
        r@ == v@,
{
    let mut r: Vec<String> = Vec::new();
    let mut i: usize = 0;
    while i < v.len()
        invariant
            i <= v@.len(),
            r@ == v@.take(i as int),
        decreases v@.len() - i,
    {
        r.push(v[i].clone());
        proof {
            assert(v@.take(i + 1) =~= v@.take(i as int).push(v@[i as int]));
        }
        i = i + 1;
    }
    proof {
        assert(v@.take(v@.len() as int) =~= v@);
    }
    r
}

pub(crate) fn clone_pairs(v: &Vec<(String, String)>) -> (r: Vec<(String, String)>)
    ensures
        r@ == v@,
{
    let mut r: Vec<(String, String)> = Vec::new();
    let mut i: usize = 0;
    while i < v.len()
        invariant
            i <= v@.len(),
            r@ == v@.take(i as int),
        decreases v@.len() - i,
    {
        let p = (v[i].0.clone(), v[i].1.clone());
        proof {
            assert(p == v@[i as int]);
        }
        r.push(p);
        proof {
            assert(v@.take(i + 1) =~= v@.take(i as int).push(v@[i as int]));
        }
        i = i + 1;
    }
    proof {
        assert(v@.take(v@.len() as int) =~= v@);
    }
    r
}

impl Clone for Repo {
    fn clone(&self) -> (r: Self)
        ensures
            r == *self,
    {
        Repo { url: self.url.clone(), branch: clone_opt_string(&self.branch) }
    }
}

impl Clone for Docker {
    fn clone(&self) -> (r: Self)
        ensures
            r == *self,
    {
        Docker { context: self.context.clone(), dockerfile: self.dockerfile.clone() }
    }
}

impl Clone for K8s {
    fn clone(&self) -> (r: Self)
        ensures
            r == *self,
    {
        K8s { manifests: self.manifests.clone() }
    }
}

impl Clone for Helm {
    fn clone(&self) -> (r: Self)
        ensures
            r == *self,
    {
        Helm { chart: self.chart.clone(), namespace: clone_opt_string(&self.namespace) }
    }
}

impl Clone for Kustomize {
    fn clone(&self) -> (r: Self)
        ensures
            r == *self,
    {
        Kustomize { path: self.path.clone() }
    }
}

impl Clone for Service {
    /// A clone of a service has the original's view.
    fn clone(&self) -> (r: Self)
        ensures
            r@ == self@,
    {
        Service {
            name: self.name.clone(),
            path: clone_opt_string(&self.path),
            port: self.port,
            enabled: self.enabled,
            repo: match &self.repo {
                Some(x) => Some(x.clone()),
                None => None,
            },
            docker: match &self.docker {
                Some(x) => Some(x.clone()),
                None => None,
            },
            k8s: match &self.k8s {
                Some(x) => Some(x.clone()),
                None => None,
            },
            env: match &self.env {
                Some(m) => Some(clone_pairs(m)),
                None => None,
            },
            depends_on: match &self.depends_on {
                Some(d) => Some(clone_names(d)),
                None => None,
            },
            helm: match &self.helm {
                Some(x) => Some(x.clone()),
                None => None,
            },
            kustomize: match &self.kustomize {
                Some(x) => Some(x.clone()),
                None => None,
            },
        }
    }
}

// ---------------------------------------------------------------------------
// Well-formedness
// ---------------------------------------------------------------------------

/// All keys of an association list differ.
pub open spec fn env_keys_distinct(m: Seq<(Seq<char>, Seq<char>)>) -> bool {
    forall|i: int, j: int| 0 <= i < j < m.len() ==> m[i].0 != m[j].0
}

/// All service names in the list differ.
pub open spec fn distinct_names(vs: Seq<ServiceView>) -> bool {
    forall|i: int, j: int| 0 <= i < j < vs.len() ==> vs[i].name != vs[j].name
}

pub open spec fn services_distinct(ss: Seq<Service>) -> bool {
    distinct_names(svc_views(ss))
}

/// A service name is non-empty and its variable map has distinct keys.
pub open spec fn wf_service(s: ServiceView) -> bool {
    &&& s.name.len() > 0
    &&& match s.env {
        Some(m) => env_keys_distinct(m),
        None => true,
    }
}

pub open spec fn wf_environment(e: EnvironmentView) -> bool {
    &&& env_keys_distinct(e.shared_env)
    &&& distinct_names(e.services)
    &&& forall|i: int| 0 <= i < e.services.len() ==> wf_service(#[trigger] e.services[i])
}

/// Environment names differ and every environment is well formed.
pub open spec fn wf_project(p: Project) -> bool {
    &&& forall|i: int, j: int|
        0 <= i < j < envs_view(p).len() ==> envs_view(p)[i].0 != envs_view(p)[j].0
    &&& forall|i: int| 0 <= i < envs_view(p).len() ==> wf_environment((#[trigger] envs_view(p)[i]).1)
}

/// Finding an environment in a well-formed table yields a well-formed one.
pub proof fn lemma_find_env_wf(ev: Seq<(Seq<char>, EnvironmentView)>, name: Seq<char>)
    requires
        forall|i: int| 0 <= i < ev.len() ==> wf_environment((#[trigger] ev[i]).1),
    ensures
        match find_env_view(ev, name) {
            Some(e) => wf_environment(e),
            None => true,
        },
    decreases ev.len(),
{
    if ev.len() > 0 && ev[0].0 != name {
        assert(forall|i: int| 0 <= i < ev.skip(1).len() ==> (#[trigger] ev.skip(1)[i]) == ev[i + 1]);
        lemma_find_env_wf(ev.skip(1), name);
    }
}

// ---------------------------------------------------------------------------
// Environment-variable maps
// ---------------------------------------------------------------------------

/// The value bound to `k`, taking the first binding.
pub open spec fn env_lookup(m: Seq<(Seq<char>, Seq<char>)>, k: Seq<char>) -> Option<Seq<char>>
    decreases m.len(),
{
    if m.len() == 0 {
        None
    } else if m[0].0 == k {
        Some(m[0].1)
    } else {
        env_lookup(m.skip(1), k)
    }
}

pub open spec fn env_has_key(m: Seq<(Seq<char>, Seq<char>)>, k: Seq<char>) -> bool {
    env_lookup(m, k) is Some
}

/// A key is bound exactly when some entry carries it.
pub proof fn lemma_env_lookup_exists(m: Seq<(Seq<char>, Seq<char>)>, k: Seq<char>)
    ensures
        env_has_key(m, k) <==> exists|i: int| 0 <= i < m.len() && (#[trigger] m[i].0) == k,
    decreases m.len(),
{
    if m.len() > 0 {
        if m[0].0 == k {
            assert(m[0].0 == k);
        } else {
            lemma_env_lookup_exists(m.skip(1), k);
            assert(forall|i: int|
                0 <= i < m.skip(1).len() ==> (#[trigger] m.skip(1)[i]) == m[i + 1]);
            if env_has_key(m, k) {
                let i0 = choose|i: int|
                    0 <= i < m.skip(1).len() && (#[trigger] m.skip(1)[i].0) == k;
                assert(m[i0 + 1].0 == k);
            }
            if exists|i: int| 0 <= i < m.len() && (#[trigger] m[i].0) == k {
                let i0 = choose|i: int| 0 <= i < m.len() && (#[trigger] m[i].0) == k;
                assert(i0 >= 1);
                assert(m.skip(1)[i0 - 1].0 == k);
            }
        }
    }
}

/// The merged variable map: shared bindings not overridden by the service,
/// in shared order, followed by the service's own bindings.
pub open spec fn merged_env(
    sh: Seq<(Seq<char>, Seq<char>)>,
    sv: Seq<(Seq<char>, Seq<char>)>,
) -> Seq<(Seq<char>, Seq<char>)>
    decreases sh.len(),
{
    if sh.len() == 0 {
        sv
    } else if env_has_key(sv, sh[0].0) {
        merged_env(sh.skip(1), sv)
    } else {
        seq![sh[0]] + merged_env(sh.skip(1), sv)
    }
}

/// Whether `m` binds the key `k`.
pub fn env_contains_key(m: &Vec<(String, String)>, k: &String) -> (r: bool)
    ensures
        r == env_has_key(pairs_view(m@), k@),
{
    let ghost mv = pairs_view(m@);
    let mut i: usize = 0;
    while i < m.len()
        invariant
            mv == pairs_view(m@),
            i <= m@.len(),
            forall|j: int| 0 <= j < i ==> (#[trigger] mv[j].0) != k@,
        decreases m@.len() - i,
    {
        if m[i].0 == *k {
            proof {
                assert(mv[i as int].0 == k@);
                lemma_env_lookup_exists(mv, k@);
            }
            return true;
        }
        proof {
            assert(mv[i as int].0 == m@[i as int].0@);
        }
        i = i + 1;
    }
    proof {
        lemma_env_lookup_exists(mv, k@);
        if env_has_key(mv, k@) {
            let j = choose|j: int| 0 <= j < mv.len() && (#[trigger] mv[j].0) == k@;
            assert(false);
        }
    }
    false
}

/// Merges shared and service variables; the service overrides the shared
/// map on key conflicts.
pub fn merge_env(sh: &Vec<(String, String)>, sv: &Vec<(String, String)>) -> (r: Vec<
    (String, String),
>)
    ensures
        pairs_view(r@) == merged_env(pairs_view(sh@), pairs_view(sv@)),
{
    let ghost shv = pairs_view(sh@);
    let ghost svv = pairs_view(sv@);
    let mut r: Vec<(String, String)> = Vec::new();
    let mut i: usize = 0;
    proof {
        assert(shv.skip(0) =~= shv);
        assert(pairs_view(r@) =~= Seq::<(Seq<char>, Seq<char>)>::empty());
        assert(pairs_view(r@) + merged_env(shv, svv) =~= merged_env(shv, svv));
    }
    while i < sh.len()
        invariant
            shv == pairs_view(sh@),
            svv == pairs_view(sv@),
            i <= sh@.len(),
            pairs_view(r@) + merged_env(shv.skip(i as int), svv) == merged_env(shv, svv),
        decreases sh@.len() - i,
    {
        let ghost prev = pairs_view(r@);
        let ghost rest = shv.skip(i as int);
        if !env_contains_key(sv, &sh[i].0) {
            let p = (sh[i].0.clone(), sh[i].1.clone());
            proof {
                assert((p.0@, p.1@) == shv[i as int]);
            }
            r.push(p);
            proof {
                assert(pairs_view(r@) =~= prev.push(shv[i as int]));
            }
        }
        proof {
            assert(rest[0] == shv[i as int]);
            assert(rest.skip(1) =~= shv.skip(i + 1));
            if env_has_key(svv, shv[i as int].0) {
                assert(pairs_view(r@) + merged_env(shv.skip(i + 1), svv) =~= prev + merged_env(
                    rest,
                    svv,
                ));
            } else {
                assert(merged_env(rest, svv) == seq![rest[0]] + merged_env(rest.skip(1), svv));
                assert(pairs_view(r@) + merged_env(shv.skip(i + 1), svv) =~= prev + merged_env(
                    rest,
                    svv,
                ));
            }
        }
        i = i + 1;
    }
    proof {
        assert(shv.skip(sh@.len() as int) =~= Seq::<(Seq<char>, Seq<char>)>::empty());
    }
    let ghost base = pairs_view(r@);
    proof {
        assert(base + svv == merged_env(shv, svv));
    }
    let mut j: usize = 0;
    while j < sv.len()
        invariant
            shv == pairs_view(sh@),
            svv == pairs_view(sv@),
            j <= sv@.len(),
            pairs_view(r@) == base + svv.take(j as int),
        decreases sv@.len() - j,
    {
        let p = (sv[j].0.clone(), sv[j].1.clone());
        proof {
            assert((p.0@, p.1@) == svv[j as int]);
        }
        let ghost prev = pairs_view(r@);
        r.push(p);
        proof {
            assert(pairs_view(r@) =~= prev.push(svv[j as int]));
            assert(svv.take(j + 1) =~= svv.take(j as int).push(svv[j as int]));
            assert(base + svv.take(j + 1) =~= (base + svv.take(j as int)).push(svv[j as int]));
        }
        j = j + 1;
    }
    proof {
        assert(svv.take(sv@.len() as int) =~= svv);
    }
    r
}

/// In the merged map a service binding wins over a shared one: looking up
/// any key yields the service's value where the service binds it, else the
/// shared value.
pub proof fn lemma_merged_env_lookup(
    sh: Seq<(Seq<char>, Seq<char>)>,
    sv: Seq<(Seq<char>, Seq<char>)>,
    k: Seq<char>,
)
    ensures
        env_lookup(merged_env(sh, sv), k) == if env_has_key(sv, k) {
            env_lookup(sv, k)
        } else {
            env_lookup(sh, k)
        },
    decreases sh.len(),
{
    if sh.len() == 0 {
    } else {
        lemma_merged_env_lookup(sh.skip(1), sv, k);
        if env_has_key(sv, sh[0].0) {
            if k == sh[0].0 {
            } else {
                assert(env_lookup(sh, k) == env_lookup(sh.skip(1), k));
            }
        } else {
            let m = seq![sh[0]] + merged_env(sh.skip(1), sv);
            assert(m[0] == sh[0]);
            assert(m.skip(1) =~= merged_env(sh.skip(1), sv));
            if k == sh[0].0 {
                assert(!env_has_key(sv, k));
                assert(env_lookup(m, k) == Some(sh[0].1));
            } else {
                assert(env_lookup(m, k) == env_lookup(merged_env(sh.skip(1), sv), k));
            }
        }
    }
}

} // verus!
