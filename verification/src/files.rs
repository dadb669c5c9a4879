//! The generated file tree as a value: planned writes, a model of the
//! files on disk, and the rules by which a plan lands on the model.
//!
//! Root and per-service manifests are always rewritten; first-touch files
//! are written only where no file exists yet, and an existing one keeps its
//! content whatever the plan holds for it.

use vstd::prelude::*;

use crate::project::{env_has_key, env_lookup, pairs_view};

verus! {

/// One planned file write. A first-touch write is skipped when the file
/// already exists.
#[derive(Debug)]
pub struct FileWrite {
    pub path: String,
    pub content: String,
    pub first_touch: bool,
}

/// The planned effect of one generation run: directories that must exist
/// and the files to write, in order.
#[derive(Debug)]
pub struct GenerationPlan {
    pub dirs: Vec<String>,
    pub files: Vec<FileWrite>,
}

/// An in-memory model of the generated files: path/content entries with
/// distinct paths.
#[derive(Debug)]
pub struct FileModel {
    pub entries: Vec<(String, String)>,
}

/// The triple a write stands for.
pub open spec fn write_view(w: FileWrite) -> (Seq<char>, Seq<char>, bool) {
    (w.path@, w.content@, w.first_touch)
}

pub open spec fn writes_view(ws: Seq<FileWrite>) -> Seq<(Seq<char>, Seq<char>, bool)> {
    ws.map_values(|w: FileWrite| write_view(w))
}

// ---------------------------------------------------------------------------
// Applying a plan to a model
// ---------------------------------------------------------------------------

/// `m` without any binding for `k`.
pub open spec fn remove_key(
    m: Seq<(Seq<char>, Seq<char>)>,
    k: Seq<char>,
) -> Seq<(Seq<char>, Seq<char>)>
    decreases m.len(),
{
    if m.len() == 0 {
        m
    } else if m[0].0 == k {
        remove_key(m.skip(1), k)
    } else {
        seq![m[0]] + remove_key(m.skip(1), k)
    }
}

/// `m` with `path` bound to `content`, the binding moved to the end.
pub open spec fn set_entry(
    m: Seq<(Seq<char>, Seq<char>)>,
    path: Seq<char>,
    content: Seq<char>,
) -> Seq<(Seq<char>, Seq<char>)> {
    remove_key(m, path).push((path, content))
}

/// The model after one planned write: a first-touch write leaves an
/// existing file alone, anything else lands.
pub open spec fn apply_write(
    m: Seq<(Seq<char>, Seq<char>)>,
    w: (Seq<char>, Seq<char>, bool),
) -> Seq<(Seq<char>, Seq<char>)> {
    if w.2 && env_has_key(m, w.0) {
        m
    } else {
        set_entry(m, w.0, w.1)
    }
}

/// The model after all planned writes, in order.
pub open spec fn apply_writes(
    m: Seq<(Seq<char>, Seq<char>)>,
    ws: Seq<(Seq<char>, Seq<char>, bool)>,
) -> Seq<(Seq<char>, Seq<char>)>
    decreases ws.len(),
{
    if ws.len() == 0 {
        m
    } else {
        apply_writes(apply_write(m, ws[0]), ws.skip(1))
    }
}

impl FileModel {
    pub open spec fn view_map(&self) -> Seq<(Seq<char>, Seq<char>)> {
        pairs_view(self.entries@)
    }

    /// The content of the file at `path`, if one exists.
    pub open spec fn spec_content(&self, path: Seq<char>) -> Option<Seq<char>> {
        env_lookup(self.view_map(), path)
    }

    pub fn new() -> (r: FileModel)
        ensures
            r.view_map() == Seq::<(Seq<char>, Seq<char>)>::empty(),
    {
        let r = FileModel { entries: Vec::new() };
        proof {
            assert(r.view_map() =~= Seq::<(Seq<char>, Seq<char>)>::empty());
        }
        r
    }

    /// Looks up the file at `path`.
    pub fn content_at(&self, path: &String) -> (r: Option<String>)
        ensures
            match r {
                Some(c) => self.spec_content(path@) == Some(c@),
                None => self.spec_content(path@) is None,
            },
    {
        let ghost mv = self.view_map();
        let mut i: usize = 0;
        proof {
            assert(mv.skip(0) =~= mv);
        }
        while i < self.entries.len()
            invariant
                mv == self.view_map(),
                i <= self.entries@.len(),
                env_lookup(mv, path@) == env_lookup(mv.skip(i as int), path@),
            decreases self.entries@.len() - i,
        {
            proof {
                assert(mv.skip(i as int)[0] == mv[i as int]);
                assert(mv[i as int] == (self.entries@[i as int].0@, self.entries@[i as int].1@));
                assert(mv.skip(i as int).skip(1) =~= mv.skip(i + 1));
            }
            if self.entries[i].0 == *path {
                return Some(self.entries[i].1.clone());
            }
            i = i + 1;
        }
        proof {
            assert(mv.skip(self.entries@.len() as int) =~= Seq::<(Seq<char>, Seq<char>)>::empty());
        }
        None
    }

    /// Writes `content` at `path`, replacing any existing entry.
    pub fn set(&mut self, path: &String, content: &String)
        ensures
            final(self).view_map() == set_entry(old(self).view_map(), path@, content@),
    {
        let ghost mv = self.view_map();
        let mut kept: Vec<(String, String)> = Vec::new();
        let mut i: usize = 0;
        proof {
            assert(mv.skip(0) =~= mv);
            assert(pairs_view(kept@) =~= Seq::<(Seq<char>, Seq<char>)>::empty());
            assert(pairs_view(kept@) + remove_key(mv, path@) =~= remove_key(mv, path@));
        }
        while i < self.entries.len()
            invariant
                mv == self.view_map(),
                i <= self.entries@.len(),
                pairs_view(kept@) + remove_key(mv.skip(i as int), path@) == remove_key(mv, path@),
            decreases self.entries@.len() - i,
        {
            let ghost prev = pairs_view(kept@);
            let ghost rest = mv.skip(i as int);
            proof {
                assert(rest[0] == mv[i as int]);
                assert(mv[i as int] == (self.entries@[i as int].0@, self.entries@[i as int].1@));
                assert(rest.skip(1) =~= mv.skip(i + 1));
            }
            if self.entries[i].0 == *path {
                proof {
                    assert(pairs_view(kept@) + remove_key(mv.skip(i + 1), path@) =~= prev
                        + remove_key(rest, path@));
                }
            } else {
                let p = (self.entries[i].0.clone(), self.entries[i].1.clone());
                proof {
                    assert((p.0@, p.1@) == mv[i as int]);
                }
                kept.push(p);
                proof {
                    assert(pairs_view(kept@) =~= prev.push(mv[i as int]));
                    assert(remove_key(rest, path@) == seq![rest[0]] + remove_key(
                        rest.skip(1),
                        path@,
                    ));
                    assert(pairs_view(kept@) + remove_key(mv.skip(i + 1), path@) =~= prev
                        + remove_key(rest, path@));
                }
            }
            i = i + 1;
        }
        proof {
            assert(mv.skip(self.entries@.len() as int) =~= Seq::<(Seq<char>, Seq<char>)>::empty());
        }
        let ghost removed = pairs_view(kept@);
        kept.push((path.clone(), content.clone()));
        proof {
            assert(pairs_view(kept@) =~= removed.push((path@, content@)));
        }
        self.entries = kept;
    }
}

/// Applies every planned write to the model: first-touch files only where
/// absent, everything else unconditionally.
pub fn apply_plan(plan: &GenerationPlan, model: &mut FileModel)
    ensures
        final(model).view_map() == apply_writes(old(model).view_map(), writes_view(plan.files@)),
{
    let ghost ws = writes_view(plan.files@);
    let mut i: usize = 0;
    proof {
        assert(ws.skip(0) =~= ws);
    }
    while i < plan.files.len()
        invariant
            ws == writes_view(plan.files@),
            i <= plan.files@.len(),
            apply_writes(model.view_map(), ws.skip(i as int)) == apply_writes(
                old(model).view_map(),
                ws,
            ),
        decreases plan.files@.len() - i,
    {
        let w = &plan.files[i];
        let ghost rest = ws.skip(i as int);
        proof {
            assert(rest[0] == ws[i as int]);
            assert(ws[i as int] == write_view(plan.files@[i as int]));
            assert(rest.skip(1) =~= ws.skip(i + 1));
        }
        let exists_already = match model.content_at(&w.path) {
            Some(_) => true,
            None => false,
        };
        if !(w.first_touch && exists_already) {
            model.set(&w.path, &w.content);
        }
        i = i + 1;
    }
    proof {
        assert(ws.skip(plan.files@.len() as int) =~= Seq::<(Seq<char>, Seq<char>, bool)>::empty());
    }
}

/// Whether the plan writes each path at most once — the hypothesis under
/// which the landing guarantees below speak.
pub fn plan_writes_each_path_once(plan: &GenerationPlan) -> (r: bool)
    ensures
        r == (forall|a: int, b: int|
            #![trigger writes_view(plan.files@)[a], writes_view(plan.files@)[b]]
            0 <= a < b < writes_view(plan.files@).len() ==> writes_view(plan.files@)[a].0
                != writes_view(plan.files@)[b].0),
{
    let ghost ws = writes_view(plan.files@);
    let mut a: usize = 0;
    while a < plan.files.len()
        invariant
            ws == writes_view(plan.files@),
            a <= plan.files@.len(),
            forall|x: int, y: int|
                #![trigger ws[x], ws[y]]
                0 <= x < y < ws.len() && x < a ==> ws[x].0 != ws[y].0,
        decreases plan.files@.len() - a,
    {
        let mut b: usize = a + 1;
        while b < plan.files.len()
            invariant
                ws == writes_view(plan.files@),
                a < b <= plan.files@.len() || (a + 1 == b && b > plan.files@.len()),
                a < plan.files@.len(),
                forall|y: int| a < y < b ==> (#[trigger] ws[y]).0 != ws[a as int].0,
            decreases plan.files@.len() - b,
        {
            proof {
                assert(ws[a as int] == write_view(plan.files@[a as int]));
                assert(ws[b as int] == write_view(plan.files@[b as int]));
            }
            if plan.files[a].path == plan.files[b].path {
                proof {
                    assert(ws[a as int].0 == ws[b as int].0);
                }
                return false;
            }
            b = b + 1;
        }
        a = a + 1;
    }
    true
}

// ---------------------------------------------------------------------------
// What landing a plan guarantees
// ---------------------------------------------------------------------------

proof fn lemma_remove_key_lookup(m: Seq<(Seq<char>, Seq<char>)>, k: Seq<char>, p: Seq<char>)
    ensures
        p != k ==> env_lookup(remove_key(m, k), p) == env_lookup(m, p),
        env_lookup(remove_key(m, k), k) is None,
    decreases m.len(),
{
    if m.len() > 0 {
        lemma_remove_key_lookup(m.skip(1), k, p);
        if m[0].0 == k {
        } else {
            let r = seq![m[0]] + remove_key(m.skip(1), k);
            assert(r[0] == m[0]);
            assert(r.skip(1) =~= remove_key(m.skip(1), k));
        }
    }
}

proof fn lemma_push_lookup(m: Seq<(Seq<char>, Seq<char>)>, e: (Seq<char>, Seq<char>), p: Seq<char>)
    ensures
        env_has_key(m, p) ==> env_lookup(m.push(e), p) == env_lookup(m, p),
        !env_has_key(m, p) && e.0 == p ==> env_lookup(m.push(e), p) == Some(e.1),
        !env_has_key(m, p) && e.0 != p ==> env_lookup(m.push(e), p) is None,
    decreases m.len(),
{
    if m.len() == 0 {
        assert(m.push(e)[0] == e);
        assert(m.push(e).len() == 1);
        assert(m.push(e).skip(1) =~= m);
    } else {
        lemma_push_lookup(m.skip(1), e, p);
        assert(m.push(e)[0] == m[0]);
        assert(m.push(e).skip(1) =~= m.skip(1).push(e));
    }
}

/// After `set_entry` the set path holds the new content and every other
/// path is untouched.
proof fn lemma_set_entry_lookup(
    m: Seq<(Seq<char>, Seq<char>)>,
    path: Seq<char>,
    content: Seq<char>,
    p: Seq<char>,
)
    ensures
        p == path ==> env_lookup(set_entry(m, path, content), p) == Some(content),
        p != path ==> env_lookup(set_entry(m, path, content), p) == env_lookup(m, p),
{
    lemma_remove_key_lookup(m, path, p);
    lemma_push_lookup(remove_key(m, path), (path, content), p);
}

/// One write changes no other path.
proof fn lemma_apply_write_other(
    m: Seq<(Seq<char>, Seq<char>)>,
    w: (Seq<char>, Seq<char>, bool),
    p: Seq<char>,
)
    requires
        w.0 != p,
    ensures
        env_lookup(apply_write(m, w), p) == env_lookup(m, p),
{
    lemma_set_entry_lookup(m, w.0, w.1, p);
}

/// A run of writes none of which names `p` leaves `p` untouched.
pub proof fn lemma_apply_writes_untouched(
    m: Seq<(Seq<char>, Seq<char>)>,
    ws: Seq<(Seq<char>, Seq<char>, bool)>,
    p: Seq<char>,
)
    requires
        forall|i: int| 0 <= i < ws.len() ==> (#[trigger] ws[i].0) != p,
    ensures
        env_lookup(apply_writes(m, ws), p) == env_lookup(m, p),
    decreases ws.len(),
{
    if ws.len() > 0 {
        assert(ws[0].0 != p);
        lemma_apply_write_other(m, ws[0], p);
        assert(forall|i: int| 0 <= i < ws.skip(1).len() ==> (#[trigger] ws.skip(1)[i]) == ws[i + 1]);
        lemma_apply_writes_untouched(apply_write(m, ws[0]), ws.skip(1), p);
    }
}

/// What one plan leaves at a written path, when the plan writes each path
/// once: an existing file named by a first-touch write keeps its content;
/// every other write lands.
pub proof fn lemma_apply_writes_at(
    m: Seq<(Seq<char>, Seq<char>)>,
    ws: Seq<(Seq<char>, Seq<char>, bool)>,
    i: int,
)
    requires
        forall|a: int, b: int| 0 <= a < b < ws.len() ==> ws[a].0 != ws[b].0,
        0 <= i < ws.len(),
    ensures
        ws[i].2 && env_has_key(m, ws[i].0) ==> env_lookup(apply_writes(m, ws), ws[i].0)
            == env_lookup(m, ws[i].0),
        !(ws[i].2 && env_has_key(m, ws[i].0)) ==> env_lookup(apply_writes(m, ws), ws[i].0) == Some(
            ws[i].1,
        ),
    decreases i,
{
    let p = ws[i].0;
    if i == 0 {
        let m1 = apply_write(m, ws[0]);
        if ws[0].2 && env_has_key(m, p) {
            assert(env_lookup(m1, p) == env_lookup(m, p));
        } else {
            lemma_set_entry_lookup(m, ws[0].0, ws[0].1, p);
            assert(env_lookup(m1, p) == Some(ws[0].1));
        }
        assert(forall|a: int| 0 <= a < ws.skip(1).len() ==> (#[trigger] ws.skip(1)[a]) == ws[a + 1]);
        assert(forall|a: int| 0 <= a < ws.skip(1).len() ==> (#[trigger] ws.skip(1)[a].0) != p);
        lemma_apply_writes_untouched(m1, ws.skip(1), p);
    } else {
        assert(ws[0].0 != p);
        lemma_apply_write_other(m, ws[0], p);
        let m1 = apply_write(m, ws[0]);
        assert(env_lookup(m1, p) == env_lookup(m, p));
        assert(forall|a: int| 0 <= a < ws.skip(1).len() ==> (#[trigger] ws.skip(1)[a]) == ws[a + 1]);
        lemma_apply_writes_at(m1, ws.skip(1), i - 1);
        assert(ws.skip(1)[i - 1] == ws[i]);
    }
}

/// Landing the same plan twice changes nothing that landing it once did
/// not: first-touch files created by the first run already exist for the
/// second, and manifests are rewritten with the same content.
pub proof fn lemma_apply_writes_idempotent(
    m: Seq<(Seq<char>, Seq<char>)>,
    ws: Seq<(Seq<char>, Seq<char>, bool)>,
    p: Seq<char>,
)
    requires
        forall|a: int, b: int| 0 <= a < b < ws.len() ==> ws[a].0 != ws[b].0,
    ensures
        env_lookup(apply_writes(apply_writes(m, ws), ws), p) == env_lookup(apply_writes(m, ws), p),
{
    let m1 = apply_writes(m, ws);
    if exists|i: int| 0 <= i < ws.len() && (#[trigger] ws[i].0) == p {
        let i = choose|i: int| 0 <= i < ws.len() && (#[trigger] ws[i].0) == p;
        lemma_apply_writes_at(m, ws, i);
        lemma_apply_writes_at(m1, ws, i);
        if ws[i].2 && env_has_key(m, p) {
            assert(env_lookup(m1, p) == env_lookup(m, p));
            assert(env_has_key(m1, p));
        } else {
            assert(env_lookup(m1, p) == Some(ws[i].1));
            if ws[i].2 {
                assert(env_has_key(m1, p));
            }
        }
    } else {
        assert(forall|i: int| 0 <= i < ws.len() ==> (#[trigger] ws[i].0) != p);
        lemma_apply_writes_untouched(m, ws, p);
        lemma_apply_writes_untouched(m1, ws, p);
    }
}

} // verus!
