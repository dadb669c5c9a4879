//! Locations of a project's own documents under its root directory.

use vstd::prelude::*;

verus! {

/// The root directory of a named project inside a workspace.
pub fn project_root(workspace: &str, name: &str) -> (r: String)
    ensures
        r@ == workspace@ + "/"@ + name@,
{
    let mut out = String::new();
    out.append(workspace);
    out.append("/");
    out.append(name);
    proof {
        assert(out@ =~= workspace@ + "/"@ + name@);
    }
    out
}

/// The project document inside a project root.
pub fn project_file(root: &str) -> (r: String)
    ensures
        r@ == root@ + "/project.json"@,
{
    let mut out = String::new();
    out.append(root);
    out.append("/project.json");
    out
}

/// The directory of the per-environment documents.
pub fn env_dir(root: &str) -> (r: String)
    ensures
        r@ == root@ + "/environments"@,
{
    let mut out = String::new();
    out.append(root);
    out.append("/environments");
    out
}

/// The document of one environment.
pub fn env_file(root: &str, env: &str) -> (r: String)
    ensures
        r@ == root@ + "/environments"@ + "/"@ + env@ + ".json"@,
{
    let mut out = env_dir(root);
    out.append("/");
    out.append(env);
    out.append(".json");
    proof {
        assert(out@ =~= root@ + "/environments"@ + "/"@ + env@ + ".json"@);
    }
    out
}

} // verus!
