//! Dependency graph resolution: cycle detection and deterministic
//! topological ordering over a service list.
//!
//! Nodes are service names; edges are declared dependencies. A dependency
//! name with no matching service is a valid edge target for cycle purposes
//! but is never emitted by the sort. Both operations share one depth-first
//! traversal that follows the input order, so their outcome is a function
//! of the input alone.

use vstd::prelude::*;
use vstd::seq_lib::group_seq_lib_default;
use vstd::set_lib::lemma_len_subset;

use crate::project::{distinct_names, svc_views, Service, ServiceView};
use crate::strutil::views_of;

verus! {

broadcast use group_seq_lib_default;
// ---------------------------------------------------------------------------
// The graph in specification terms
// ---------------------------------------------------------------------------

/// The declared dependencies of a service; none means no outgoing edges.
pub open spec fn deps_of(s: ServiceView) -> Seq<Seq<char>> {
    match s.depends_on {
        Some(d) => d,
        None => Seq::empty(),
    }
}

/// Some service in the list carries this name.
pub open spec fn is_service_name(vs: Seq<ServiceView>, n: Seq<char>) -> bool {
    exists|i: int| 0 <= i < vs.len() && (#[trigger] vs[i]).name == n
}

/// The service named `a` declares a dependency on `b`.
pub open spec fn has_edge(vs: Seq<ServiceView>, a: Seq<char>, b: Seq<char>) -> bool {
    exists|i: int|
        0 <= i < vs.len() && (#[trigger] vs[i]).name == a && deps_of(vs[i]).contains(b)
}

/// A closed walk along dependency edges: at least one edge, ending where it
/// began.
pub open spec fn is_cycle_chain(vs: Seq<ServiceView>, p: Seq<Seq<char>>) -> bool {
    &&& p.len() >= 2
    &&& p[0] == p[p.len() - 1]
    &&& forall|i: int| 0 <= i < p.len() - 1 ==> has_edge(vs, #[trigger] p[i], p[i + 1])
}

/// The dependency graph contains a cycle.
pub open spec fn has_cycle(vs: Seq<ServiceView>) -> bool {
    exists|p: Seq<Seq<char>>| is_cycle_chain(vs, p)
}

/// The shape of a reported cycle: an edge-connected walk whose last node
/// repeats an earlier one, read entry point first.
pub open spec fn is_cycle_path(vs: Seq<ServiceView>, p: Seq<Seq<char>>) -> bool {
    &&& p.len() >= 2
    &&& forall|i: int| 0 <= i < p.len() - 1 ==> has_edge(vs, #[trigger] p[i], p[i + 1])
    &&& exists|j: int| 0 <= j < p.len() - 1 && #[trigger] p[j] == p[p.len() - 1]
}

/// A reported cycle path witnesses a genuine cycle.
pub proof fn lemma_cycle_path_has_cycle(vs: Seq<ServiceView>, p: Seq<Seq<char>>)
    requires
        is_cycle_path(vs, p),
    ensures
        has_cycle(vs),
{
    let j = choose|j: int| 0 <= j < p.len() - 1 && #[trigger] p[j] == p[p.len() - 1];
    let q = p.subrange(j, p.len() as int);
    assert(q[0] == p[j]);
    assert(q[q.len() - 1] == p[p.len() - 1]);
    assert(forall|i: int| 0 <= i < q.len() - 1 ==> has_edge(vs, #[trigger] q[i], q[i + 1])) by {
        assert(forall|i: int|
            0 <= i < q.len() - 1 ==> (#[trigger] q[i]) == p[j + i] && q[i + 1] == p[j + i + 1]);
    }
    assert(is_cycle_chain(vs, q));
}

/// No service stands before one it depends on.
pub open spec fn respects_deps(r: Seq<ServiceView>) -> bool {
    forall|i: int, j: int|
        #![trigger deps_of(r[i]).contains(r[j].name)]
        0 <= i < j < r.len() ==> !deps_of(r[i]).contains(r[j].name)
}

/// Every emitted service's existing dependencies stand earlier in the list.
pub open spec fn emitted_after_deps(r: Seq<ServiceView>, vs: Seq<ServiceView>) -> bool {
    forall|i: int, k: int|
        #![trigger deps_of(r[i])[k]]
        0 <= i < r.len() && 0 <= k < deps_of(r[i]).len() ==> (is_service_name(
            vs,
            deps_of(r[i])[k],
        ) ==> exists|j: int| 0 <= j < i && (#[trigger] r[j]).name == deps_of(r[i])[k])
}

// ---------------------------------------------------------------------------
// Derived facts about orderings
// ---------------------------------------------------------------------------

/// A dependency-closed ordering with distinct names places no service
/// before one it depends on.
pub proof fn lemma_ordered_respects_deps(r: Seq<ServiceView>, vs: Seq<ServiceView>)
    requires
        distinct_names(r),
        forall|i: int| 0 <= i < r.len() ==> vs.contains(#[trigger] r[i]),
        emitted_after_deps(r, vs),
    ensures
        respects_deps(r),
{
    assert forall|i: int, j: int|
        0 <= i < j < r.len() implies !(#[trigger] deps_of(r[i]).contains(r[j].name)) by {
        if deps_of(r[i]).contains(r[j].name) {
            let k = choose|k: int|
                0 <= k < deps_of(r[i]).len() && (#[trigger] deps_of(r[i])[k]) == r[j].name;
            assert(vs.contains(r[j]));
            let jv = choose|m: int| 0 <= m < vs.len() && #[trigger] vs[m] == r[j];
            assert(vs[jv].name == r[j].name);
            assert(is_service_name(vs, deps_of(r[i])[k]));
            let e = choose|m: int| 0 <= m < i && (#[trigger] r[m]).name == deps_of(r[i])[k];
            assert(r[e].name == r[j].name);
            assert(e != j);
            assert(false);
        }
    }
}

/// The first position in `r` of a service with name `n`.
pub open spec fn name_index(r: Seq<ServiceView>, n: Seq<char>) -> int {
    choose|j: int| 0 <= j < r.len() && (#[trigger] r[j]).name == n
}

proof fn lemma_chain_descends(
    vs: Seq<ServiceView>,
    r: Seq<ServiceView>,
    p: Seq<Seq<char>>,
    i: int,
)
    requires
        distinct_names(vs),
        distinct_names(r),
        forall|m: int| 0 <= m < vs.len() ==> r.contains(#[trigger] vs[m]),
        forall|m: int| 0 <= m < r.len() ==> vs.contains(#[trigger] r[m]),
        emitted_after_deps(r, vs),
        is_cycle_chain(vs, p),
        0 <= i < p.len(),
    ensures
        is_service_name(vs, p[i]),
        0 <= name_index(r, p[i]) < r.len(),
        r[name_index(r, p[i])].name == p[i],
        name_index(r, p[i]) <= name_index(r, p[0]) - i,
    decreases i,
{
    // The node at position i carries an outgoing edge, so it is a service
    // name; a service name always stands somewhere in r.
    if i < p.len() - 1 {
        assert(has_edge(vs, p[i], p[i + 1]));
        let a = choose|m: int|
            0 <= m < vs.len() && (#[trigger] vs[m]).name == p[i] && deps_of(vs[m]).contains(
                p[i + 1],
            );
        assert(is_service_name(vs, p[i]));
    } else {
        assert(p[i] == p[0]);
        assert(has_edge(vs, p[0], p[1]));
        assert(is_service_name(vs, p[i]));
    }
    let a = choose|m: int| 0 <= m < vs.len() && (#[trigger] vs[m]).name == p[i];
    assert(r.contains(vs[a]));
    let ra = choose|m: int| 0 <= m < r.len() && #[trigger] r[m] == vs[a];
    assert(r[ra].name == p[i]);
    let pos = name_index(r, p[i]);
    assert(0 <= pos < r.len() && r[pos].name == p[i]);
    if i == 0 {
    } else {
        lemma_chain_descends(vs, r, p, i - 1);
        let prev = name_index(r, p[i - 1]);
        // The service at position prev is the service of vs named p[i-1],
        // whose dependencies contain p[i].
        assert(has_edge(vs, p[i - 1], p[i]));
        let b = choose|m: int|
            0 <= m < vs.len() && (#[trigger] vs[m]).name == p[i - 1] && deps_of(vs[m]).contains(
                p[i],
            );
        assert(vs.contains(r[prev]));
        let c = choose|m: int| 0 <= m < vs.len() && #[trigger] vs[m] == r[prev];
        assert(vs[c].name == vs[b].name);
        assert(c == b) by {
            if c != b {
                assert(vs[c].name != vs[b].name);
            }
        }
        assert(r[prev] == vs[b]);
        assert(deps_of(r[prev]).contains(p[i]));
        let k = choose|m: int|
            0 <= m < deps_of(r[prev]).len() && (#[trigger] deps_of(r[prev])[m]) == p[i];
        assert(is_service_name(vs, deps_of(r[prev])[k]));
        let e = choose|m: int| 0 <= m < prev && (#[trigger] r[m]).name == deps_of(r[prev])[k];
        assert(r[e].name == p[i]);
        assert(e == pos) by {
            if e != pos {
                assert(r[e].name != r[pos].name);
            }
        }
        assert(pos < prev);
    }
}

/// A complete dependency-closed ordering excludes cycles: were there a
/// cycle, positions along it would descend forever.
pub proof fn lemma_order_excludes_cycle(vs: Seq<ServiceView>, r: Seq<ServiceView>)
    requires
        distinct_names(vs),
        distinct_names(r),
        forall|m: int| 0 <= m < vs.len() ==> r.contains(#[trigger] vs[m]),
        forall|m: int| 0 <= m < r.len() ==> vs.contains(#[trigger] r[m]),
        emitted_after_deps(r, vs),
    ensures
        !has_cycle(vs),
{
    if has_cycle(vs) {
        let p = choose|p: Seq<Seq<char>>| is_cycle_chain(vs, p);
        lemma_chain_descends(vs, r, p, p.len() - 1);
        assert(p[p.len() - 1] == p[0]);
        assert(name_index(r, p[p.len() - 1]) == name_index(r, p[0]));
        assert(false);
    }
}

// ---------------------------------------------------------------------------
// Every name the input mentions, for the traversal's termination measure
// ---------------------------------------------------------------------------

pub open spec fn all_mentions(vs: Seq<ServiceView>) -> Seq<Seq<char>>
    decreases vs.len(),
{
    if vs.len() == 0 {
        Seq::empty()
    } else {
        seq![vs[0].name] + deps_of(vs[0]) + all_mentions(vs.skip(1))
    }
}

proof fn lemma_concat_contains<A>(a: Seq<A>, b: Seq<A>, x: A)
    requires
        a.contains(x) || b.contains(x),
    ensures
        (a + b).contains(x),
{
    if a.contains(x) {
        let i = choose|i: int| 0 <= i < a.len() && a[i] == x;
        assert((a + b)[i] == x);
    } else {
        let i = choose|i: int| 0 <= i < b.len() && b[i] == x;
        assert((a + b)[a.len() + i] == x);
    }
}

proof fn lemma_mentions_at(vs: Seq<ServiceView>, i: int)
    requires
        0 <= i < vs.len(),
    ensures
        all_mentions(vs).contains(vs[i].name),
        forall|k: int|
            0 <= k < deps_of(vs[i]).len() ==> all_mentions(vs).contains(
                #[trigger] deps_of(vs[i])[k],
            ),
    decreases i,
{
    let head = seq![vs[0].name] + deps_of(vs[0]);
    assert(all_mentions(vs) == head + all_mentions(vs.skip(1)));
    if i == 0 {
        assert(head[0] == vs[0].name);
        assert(head.contains(vs[0].name));
        lemma_concat_contains(head, all_mentions(vs.skip(1)), vs[0].name);
        assert forall|k: int|
            0 <= k < deps_of(vs[0]).len() implies all_mentions(vs).contains(
            #[trigger] deps_of(vs[0])[k],
        ) by {
            assert(head[1 + k] == deps_of(vs[0])[k]);
            assert(head.contains(deps_of(vs[0])[k]));
            lemma_concat_contains(head, all_mentions(vs.skip(1)), deps_of(vs[0])[k]);
        }
    } else {
        assert(vs.skip(1)[i - 1] == vs[i]);
        lemma_mentions_at(vs.skip(1), i - 1);
        lemma_concat_contains(head, all_mentions(vs.skip(1)), vs[i].name);
        assert forall|k: int|
            0 <= k < deps_of(vs[i]).len() implies all_mentions(vs).contains(
            #[trigger] deps_of(vs[i])[k],
        ) by {
            assert(all_mentions(vs.skip(1)).contains(deps_of(vs.skip(1)[i - 1])[k]));
            lemma_concat_contains(head, all_mentions(vs.skip(1)), deps_of(vs[i])[k]);
        }
    }
}

/// Distinct elements all drawn from `all` cannot outnumber it.
proof fn lemma_distinct_in_bound(all: Seq<Seq<char>>, v: Seq<Seq<char>>)
    requires
        v.no_duplicates(),
        forall|n: Seq<char>| #[trigger] v.contains(n) ==> all.contains(n),
    ensures
        v.len() <= all.len(),
{
    broadcast use vstd::set::group_set_axioms;

    v.unique_seq_to_set();
    all.lemma_cardinality_of_set();
    assert(v.to_set().subset_of(all.to_set())) by {
        assert forall|x: Seq<char>| v.to_set().contains(x) implies all.to_set().contains(x) by {
            assert(v.contains(x));
            assert(all.contains(x));
        }
    }
    lemma_len_subset(v.to_set(), all.to_set());
}

proof fn lemma_push_contains<A>(s: Seq<A>, x: A, y: A)
    ensures
        s.push(x).contains(y) <==> (s.contains(y) || y == x),
{
    if s.push(x).contains(y) {
        let i = choose|i: int| 0 <= i < s.push(x).len() && s.push(x)[i] == y;
        if i < s.len() {
            assert(s[i] == y);
        }
    }
    if s.contains(y) {
        let i = choose|i: int| 0 <= i < s.len() && s[i] == y;
        assert(s.push(x)[i] == y);
    }
    assert(s.push(x)[s.len() as int] == x);
}

// ---------------------------------------------------------------------------
// The traversal
// ---------------------------------------------------------------------------

/// Names visited, names still on the recursion stack (in chain order),
/// services emitted so far, and the first cycle found, if any.
pub(crate) struct DfsState {
    pub visited: Vec<String>,
    pub stack: Vec<String>,
    pub result: Vec<Service>,
    pub cycle: Option<Vec<String>>,
}

/// A name is finished once visited and off the stack.
pub open spec fn name_finished(visited: Seq<Seq<char>>, stack: Seq<Seq<char>>, n: Seq<char>) -> bool {
    visited.contains(n) && !stack.contains(n)
}

pub(crate) open spec fn dfs_inv(vs: Seq<ServiceView>, st: DfsState) -> bool {
    let v = views_of(st.visited@);
    let k = views_of(st.stack@);
    let r = svc_views(st.result@);
    &&& v.no_duplicates()
    &&& forall|n: Seq<char>| #[trigger] k.contains(n) ==> v.contains(n)
    &&& k.no_duplicates()
    &&& forall|i: int| 0 <= i < k.len() - 1 ==> has_edge(vs, #[trigger] k[i], k[i + 1])
    &&& forall|i: int| 0 <= i < r.len() ==> vs.contains(#[trigger] r[i])
    &&& distinct_names(r)
    &&& forall|i: int| 0 <= i < r.len() ==> name_finished(v, k, (#[trigger] r[i]).name)
    &&& forall|i: int|
        0 <= i < vs.len() ==> (name_finished(v, k, (#[trigger] vs[i]).name) ==> r.contains(vs[i]))
    &&& (st.cycle is None ==> emitted_after_deps(r, vs))
    &&& match st.cycle {
        Some(c) => is_cycle_path(vs, views_of(c@)),
        None => true,
    }
    &&& forall|n: Seq<char>| #[trigger] v.contains(n) ==> all_mentions(vs).contains(n)
}

/// Whether the name list holds `n`.
fn contains_name(v: &Vec<String>, n: &String) -> (r: bool)
    ensures
        r == views_of(v@).contains(n@),
{
    let mut i: usize = 0;
    while i < v.len()
        invariant
            i <= v@.len(),
            forall|j: int| 0 <= j < i ==> (#[trigger] views_of(v@)[j]) != n@,
        decreases v@.len() - i,
    {
        if v[i] == *n {
            proof {
                assert(views_of(v@)[i as int] == n@);
            }
            return true;
        }
        proof {
            assert(views_of(v@)[i as int] == v@[i as int]@);
        }
        i = i + 1;
    }
    proof {
        if views_of(v@).contains(n@) {
            let j = choose|j: int| 0 <= j < views_of(v@).len() && views_of(v@)[j] == n@;
            assert(false);
        }
    }
    false
}

/// The position of the service carrying this name, if one exists.
fn find_service(ss: &Vec<Service>, n: &String) -> (r: Option<usize>)
    ensures
        match r {
            Some(i) => i < ss@.len() && svc_views(ss@)[i as int].name == n@,
            None => !is_service_name(svc_views(ss@), n@),
        },
{
    let mut i: usize = 0;
    while i < ss.len()
        invariant
            i <= ss@.len(),
            forall|j: int| 0 <= j < i ==> (#[trigger] svc_views(ss@)[j]).name != n@,
        decreases ss@.len() - i,
    {
        if ss[i].name == *n {
            proof {
                assert(svc_views(ss@)[i as int] == ss@[i as int]@);
            }
            return Some(i);
        }
        proof {
            assert(svc_views(ss@)[i as int] == ss@[i as int]@);
        }
        i = i + 1;
    }
    proof {
        if is_service_name(svc_views(ss@), n@) {
            let j = choose|j: int|
                0 <= j < svc_views(ss@).len() && (#[trigger] svc_views(ss@)[j]).name == n@;
            assert(false);
        }
    }
    None
}

fn visit(ss: &Vec<Service>, node: &String, st: DfsState) -> (out: DfsState)
    requires
        distinct_names(svc_views(ss@)),
        dfs_inv(svc_views(ss@), st),
        all_mentions(svc_views(ss@)).contains(node@),
        views_of(st.stack@).len() > 0 ==> has_edge(
            svc_views(ss@),
            views_of(st.stack@).last(),
            node@,
        ),
    ensures
        dfs_inv(svc_views(ss@), out),
        out.stack@ == st.stack@,
        out.visited@.len() >= st.visited@.len(),
        forall|n: Seq<char>|
            #[trigger] views_of(st.visited@).contains(n) ==> views_of(out.visited@).contains(n),
        views_of(out.visited@).contains(node@),
        forall|n: Seq<char>|
            #[trigger] name_finished(views_of(st.visited@), views_of(st.stack@), n)
                ==> name_finished(views_of(out.visited@), views_of(out.stack@), n),
        st.cycle is Some ==> out.cycle == st.cycle,
        out.cycle is None ==> name_finished(views_of(out.visited@), views_of(out.stack@), node@),
    decreases all_mentions(svc_views(ss@)).len() - st.visited@.len(), 1int, 0int,
{
    let ghost vs = svc_views(ss@);
    let ghost v0 = views_of(st.visited@);
    let ghost k0 = views_of(st.stack@);
    if contains_name(&st.stack, node) {
        // A back edge: the chain from the repeated name onward, closed by
        // this node, is a cycle.
        if st.cycle.is_none() {
            let mut c = crate::project::clone_names(&st.stack);
            c.push(node.clone());
            proof {
                let p = views_of(c@);
                assert(p =~= k0.push(node@));
                assert(p[p.len() - 1] == node@);
                assert(forall|i: int| 0 <= i < k0.len() ==> p[i] == k0[i]);
                assert forall|i: int| 0 <= i < p.len() - 1 implies has_edge(
                    vs,
                    #[trigger] p[i],
                    p[i + 1],
                ) by {
                    if i < k0.len() - 1 {
                        assert(has_edge(vs, k0[i], k0[i + 1]));
                    } else {
                        assert(p[i] == k0.last());
                        assert(has_edge(vs, k0.last(), node@));
                    }
                }
                let j = choose|j: int| 0 <= j < k0.len() && k0[j] == node@;
                assert(p[j] == p[p.len() - 1]);
                assert(is_cycle_path(vs, p));
            }
            return DfsState {
                visited: st.visited,
                stack: st.stack,
                result: st.result,
                cycle: Some(c),
            };
        } else {
            return st;
        }
    }
    if contains_name(&st.visited, node) {
        return st;
    }
    let mut visited = st.visited;
    let mut stack = st.stack;
    visited.push(node.clone());
    stack.push(node.clone());
    let st1 = DfsState { visited, stack, result: st.result, cycle: st.cycle };
    proof {
        let v1 = views_of(st1.visited@);
        let k1 = views_of(st1.stack@);
        assert(v1 =~= v0.push(node@));
        assert(k1 =~= k0.push(node@));
        lemma_push_contains(v0, node@, node@);
        assert forall|n: Seq<char>| #[trigger] v1.contains(n) implies (v0.contains(n) || n
            == node@) by {
            lemma_push_contains(v0, node@, n);
        }
        assert forall|n: Seq<char>| #[trigger] k1.contains(n) implies (k0.contains(n) || n
            == node@) by {
            lemma_push_contains(k0, node@, n);
        }
        assert forall|n: Seq<char>| v0.contains(n) implies #[trigger] v1.contains(n) by {
            lemma_push_contains(v0, node@, n);
        }
        assert forall|n: Seq<char>| k0.contains(n) implies #[trigger] k1.contains(n) by {
            lemma_push_contains(k0, node@, n);
        }
        assert(v1.no_duplicates()) by {
            assert(forall|i: int| 0 <= i < v0.len() ==> v1[i] == v0[i]);
            assert(v1[v0.len() as int] == node@);
        }
        assert(k1.no_duplicates()) by {
            assert(forall|i: int| 0 <= i < k0.len() ==> k1[i] == k0[i]);
            assert(k1[k0.len() as int] == node@);
            assert(!k0.contains(node@));
        }
        assert forall|i: int| 0 <= i < k1.len() - 1 implies has_edge(
            vs,
            #[trigger] k1[i],
            k1[i + 1],
        ) by {
            if i < k0.len() - 1 {
                assert(k1[i] == k0[i] && k1[i + 1] == k0[i + 1]);
                assert(has_edge(vs, k0[i], k0[i + 1]));
            } else {
                assert(k0.len() > 0);
                assert(k1[i] == k0.last() && k1[i + 1] == node@);
            }
        }
        let r = svc_views(st1.result@);
        assert forall|i: int| 0 <= i < r.len() implies name_finished(
            v1,
            k1,
            (#[trigger] r[i]).name,
        ) by {
            assert(name_finished(v0, k0, r[i].name));
            assert(r[i].name != node@);
        }
        assert forall|i: int|
            0 <= i < vs.len() && name_finished(v1, k1, (#[trigger] vs[i]).name) implies r.contains(
            vs[i],
        ) by {
            assert(k1[k0.len() as int] == node@);
            assert(k1.contains(node@));
            assert(vs[i].name != node@);
            assert(name_finished(v0, k0, vs[i].name));
        }
        assert(dfs_inv(vs, st1));
    }
    let found = find_service(ss, node);
    let st2 = match found {
        Some(idx) => {
            match &ss[idx].depends_on {
                Some(d) => {
                    proof {
                        assert(svc_views(ss@)[idx as int] == ss@[idx as int]@);
                        assert(deps_of(vs[idx as int]) == views_of(d@));
                        assert(views_of(st1.stack@).last() == node@);
                        lemma_distinct_in_bound(all_mentions(vs), views_of(st1.visited@));
                        assert(views_of(st1.visited@).len() == st1.visited@.len());
                    }
                    visit_deps(ss, idx, d, 0, st1)
                },
                None => st1,
            }
        },
        None => st1,
    };
    let mut visited2 = st2.visited;
    let mut stack2 = st2.stack;
    let mut result2 = st2.result;
    let ghost v2 = views_of(visited2@);
    let ghost k2 = views_of(stack2@);
    let _ = stack2.pop();
    proof {
        assert(stack2@ =~= st.stack@);
    }
    let out_cycle = st2.cycle;
    if let Some(idx) = found {
        let emitted = ss[idx].clone();
        result2.push(emitted);
        proof {
            let r2 = svc_views(st2.result@);
            let r3 = svc_views(result2@);
            assert(r3 =~= r2.push(vs[idx as int]));
            assert(vs[idx as int].name == node@);
            // The node was not on the entry stack but is on st2's stack.
            assert(k2 =~= views_of(st.stack@).push(node@));
            lemma_push_contains(views_of(st.stack@), node@, node@);
            assert(k2.contains(node@));
            // No already-emitted service carries this name.
            assert forall|i: int| 0 <= i < r2.len() implies (#[trigger] r2[i]).name != node@ by {
                assert(name_finished(v2, k2, r2[i].name));
            }
            assert(distinct_names(r3)) by {
                assert(forall|i: int| 0 <= i < r2.len() ==> r3[i] == r2[i]);
                assert(r3[r2.len() as int] == vs[idx as int]);
            }
            // The node itself is finished against the restored stack.
            assert(views_of(st1.visited@).contains(node@)) by {
                lemma_push_contains(v0, node@, node@);
            }
            assert(v2.contains(node@));
            assert(!views_of(stack2@).contains(node@));
            assert forall|i: int| 0 <= i < r3.len() implies name_finished(
                v2,
                views_of(stack2@),
                (#[trigger] r3[i]).name,
            ) by {
                if i < r2.len() {
                    assert(name_finished(v2, k2, r2[i].name));
                    assert forall|n: Seq<char>|
                        k2.contains(n) || !views_of(stack2@).contains(n) implies true by {}
                    lemma_push_contains(views_of(st.stack@), node@, r2[i].name);
                }
            }
            // Every finished service is emitted.
            assert forall|i: int|
                0 <= i < vs.len() && name_finished(v2, views_of(stack2@), (#[trigger] vs[i]).name)
                implies r3.contains(vs[i]) by {
                if vs[i].name == node@ {
                    assert(vs[i] == vs[idx as int]) by {
                        if i != idx {
                            assert(vs[i].name != vs[idx as int].name);
                        }
                    }
                    assert(r3[r2.len() as int] == vs[i]);
                } else {
                    lemma_push_contains(views_of(st.stack@), node@, vs[i].name);
                    assert(name_finished(v2, k2, vs[i].name));
                    assert(r2.contains(vs[i]));
                    let j = choose|j: int| 0 <= j < r2.len() && #[trigger] r2[j] == vs[i];
                    assert(r3[j] == vs[i]);
                }
            }
            // Ordering: the new entry's existing dependencies are all
            // emitted, hence stand earlier.
            if out_cycle is None {
                assert(emitted_after_deps(r2, vs));
                assert forall|i: int, k: int|
                    #![trigger deps_of(r3[i])[k]]
                    0 <= i < r3.len() && 0 <= k < deps_of(r3[i]).len() && is_service_name(
                        vs,
                        deps_of(r3[i])[k],
                    ) implies exists|j: int|
                    0 <= j < i && (#[trigger] r3[j]).name == deps_of(r3[i])[k] by {
                    if i < r2.len() {
                        assert(deps_of(r2[i])[k] == deps_of(r3[i])[k]);
                        let j = choose|j: int|
                            0 <= j < i && (#[trigger] r2[j]).name == deps_of(r2[i])[k];
                        assert(r3[j].name == deps_of(r3[i])[k]);
                    } else {
                        let dep = deps_of(r3[i])[k];
                        assert(r3[i] == vs[idx as int]);
                        // The dependency is finished after the children ran.
                        assert(name_finished(v2, k2, dep)) by {
                            match st2.cycle {
                                Some(_) => {
                                    assert(false);
                                },
                                None => {},
                            }
                        }
                        let a = choose|m: int|
                            0 <= m < vs.len() && (#[trigger] vs[m]).name == dep;
                        assert(r2.contains(vs[a]));
                        let j = choose|j: int| 0 <= j < r2.len() && #[trigger] r2[j] == vs[a];
                        assert(r3[j].name == dep);
                    }
                }
                assert(emitted_after_deps(r3, vs));
            }
        }
    }
    let out = DfsState { visited: visited2, stack: stack2, result: result2, cycle: out_cycle };
    proof {
        assert(dfs_inv(vs, out)) by {
            let k_fin = views_of(out.stack@);
            assert(k_fin =~= k0);
            assert forall|n: Seq<char>| #[trigger] k_fin.contains(n) implies views_of(
                out.visited@,
            ).contains(n) by {
                assert(v0.contains(n));
            }
            if found is None {
                let r = svc_views(out.result@);
                assert forall|i: int| 0 <= i < r.len() implies name_finished(
                    views_of(out.visited@),
                    k_fin,
                    (#[trigger] r[i]).name,
                ) by {
                    assert(name_finished(v2, k2, r[i].name));
                    lemma_push_contains(k0, node@, r[i].name);
                }
                assert forall|i: int|
                    0 <= i < vs.len() && name_finished(
                        views_of(out.visited@),
                        k_fin,
                        (#[trigger] vs[i]).name,
                    ) implies r.contains(vs[i]) by {
                    if vs[i].name == node@ {
                        assert(is_service_name(vs, node@));
                        assert(false);
                    } else {
                        lemma_push_contains(k0, node@, vs[i].name);
                        assert(name_finished(v2, k2, vs[i].name));
                    }
                }
            }
        }
        assert(views_of(out.visited@).contains(node@)) by {
            lemma_push_contains(v0, node@, node@);
        }
        assert forall|n: Seq<char>| #[trigger] v0.contains(n) implies views_of(
            out.visited@,
        ).contains(n) by {
            lemma_push_contains(v0, node@, n);
        }
        assert forall|n: Seq<char>|
            #[trigger] name_finished(v0, k0, n) implies name_finished(
            views_of(out.visited@),
            views_of(out.stack@),
            n,
        ) by {
            lemma_push_contains(v0, node@, n);
        }
    }
    out
}

fn visit_deps(ss: &Vec<Service>, idx: usize, deps: &Vec<String>, k: usize, st: DfsState) -> (out:
    DfsState)
    requires
        distinct_names(svc_views(ss@)),
        dfs_inv(svc_views(ss@), st),
        k <= deps@.len(),
        idx < ss@.len(),
        views_of(st.stack@).len() > 0,
        svc_views(ss@)[idx as int].name == views_of(st.stack@).last(),
        deps_of(svc_views(ss@)[idx as int]) == views_of(deps@),
    ensures
        dfs_inv(svc_views(ss@), out),
        out.stack@ == st.stack@,
        out.visited@.len() >= st.visited@.len(),
        forall|n: Seq<char>|
            #[trigger] views_of(st.visited@).contains(n) ==> views_of(out.visited@).contains(n),
        forall|n: Seq<char>|
            #[trigger] name_finished(views_of(st.visited@), views_of(st.stack@), n)
                ==> name_finished(views_of(out.visited@), views_of(out.stack@), n),
        st.cycle is Some ==> out.cycle == st.cycle,
        out.cycle is None ==> forall|m: int|
            k <= m < deps@.len() ==> name_finished(
                views_of(out.visited@),
                views_of(out.stack@),
                #[trigger] views_of(deps@)[m],
            ),
    decreases all_mentions(svc_views(ss@)).len() - st.visited@.len(), 2int, deps@.len() - k,
{
    let ghost vs = svc_views(ss@);
    if k == deps.len() {
        return st;
    }
    let dep = &deps[k];
    proof {
        lemma_mentions_at(vs, idx as int);
        assert(views_of(deps@)[k as int] == dep@);
        assert(all_mentions(vs).contains(deps_of(vs[idx as int])[k as int]));
        assert(has_edge(vs, views_of(st.stack@).last(), dep@)) by {
            assert(vs[idx as int].name == views_of(st.stack@).last());
            assert(deps_of(vs[idx as int]).contains(dep@));
        }
        lemma_distinct_in_bound(all_mentions(vs), views_of(st.visited@));
        assert(views_of(st.visited@).len() == st.visited@.len());
    }
    let st1 = visit(ss, dep, st);
    proof {
        lemma_distinct_in_bound(all_mentions(vs), views_of(st1.visited@));
        assert(views_of(st1.visited@).len() == st1.visited@.len());
    }
    let out = visit_deps(ss, idx, deps, k + 1, st1);
    proof {
        if out.cycle is None {
            assert(st1.cycle is None) by {
                match st1.cycle {
                    Some(_) => {
                        assert(out.cycle == st1.cycle);
                        assert(false);
                    },
                    None => {},
                }
            }
            assert(name_finished(views_of(st1.visited@), views_of(st1.stack@), dep@));
            assert(name_finished(views_of(out.visited@), views_of(out.stack@), dep@));
        }
    }
    out
}

// ---------------------------------------------------------------------------
// The public operations
// ---------------------------------------------------------------------------

fn run_dfs(ss: &Vec<Service>) -> (st: DfsState)
    requires
        distinct_names(svc_views(ss@)),
    ensures
        dfs_inv(svc_views(ss@), st),
        st.stack@.len() == 0,
        forall|i: int|
            0 <= i < svc_views(ss@).len() ==> svc_views(st.result@).contains(
                #[trigger] svc_views(ss@)[i],
            ),
        st.cycle is None ==> !has_cycle(svc_views(ss@)),
{
    let ghost vs = svc_views(ss@);
    let mut st = DfsState {
        visited: Vec::new(),
        stack: Vec::new(),
        result: Vec::new(),
        cycle: None,
    };
    proof {
        assert(views_of(st.visited@) =~= Seq::<Seq<char>>::empty());
        assert(views_of(st.stack@) =~= Seq::<Seq<char>>::empty());
        assert(svc_views(st.result@) =~= Seq::<ServiceView>::empty());
        assert(dfs_inv(vs, st));
    }
    let mut i: usize = 0;
    while i < ss.len()
        invariant
            distinct_names(vs),
            vs == svc_views(ss@),
            i <= ss@.len(),
            dfs_inv(vs, st),
            st.stack@.len() == 0,
            forall|j: int|
                0 <= j < i ==> views_of(st.visited@).contains((#[trigger] vs[j]).name),
        decreases ss@.len() - i,
    {
        proof {
            lemma_mentions_at(vs, i as int);
            assert(vs[i as int].name == ss@[i as int].name@);
        }
        let st_next = visit(ss, &ss[i].name, st);
        st = st_next;
        i = i + 1;
    }
    proof {
        let r = svc_views(st.result@);
        let v = views_of(st.visited@);
        let k = views_of(st.stack@);
        assert(k =~= Seq::<Seq<char>>::empty());
        assert forall|j: int| 0 <= j < vs.len() implies r.contains(#[trigger] vs[j]) by {
            assert(v.contains(vs[j].name));
            assert(!k.contains(vs[j].name));
            assert(name_finished(v, k, vs[j].name));
        }
        if st.cycle is None {
            lemma_order_excludes_cycle(vs, r);
        }
    }
    st
}

/// Searches the dependency graph for a cycle. Returns the names along the
/// first cycle the input-ordered traversal closes — the walk from where the
/// traversal entered the cycle, ending with the repeated name — or nothing
/// exactly when the graph is acyclic.
pub fn detect_cycles(services: &Vec<Service>) -> (r: Option<Vec<String>>)
    requires
        crate::project::services_distinct(services@),
    ensures
        (r is None) <==> !has_cycle(svc_views(services@)),
        match r {
            Some(c) => is_cycle_path(svc_views(services@), views_of(c@)),
            None => true,
        },
{
    let st = run_dfs(services);
    proof {
        match st.cycle {
            Some(ref c) => {
                lemma_cycle_path_has_cycle(svc_views(services@), views_of(c@));
            },
            None => {},
        }
    }
    st.cycle
}

/// Orders the services so that every service follows the services it
/// depends on, dependencies first, traversing in input order. The result
/// holds exactly the input services. On a cyclic input the relative order
/// along the cycle is not dependable; callers check for cycles first.
pub fn topo_sort(services: &Vec<Service>) -> (r: Vec<Service>)
    requires
        crate::project::services_distinct(services@),
    ensures
        r@.len() == services@.len(),
        forall|i: int|
            0 <= i < r@.len() ==> svc_views(services@).contains(#[trigger] svc_views(r@)[i]),
        forall|i: int|
            0 <= i < services@.len() ==> svc_views(r@).contains(#[trigger] svc_views(services@)[i]),
        crate::project::services_distinct(r@),
        !has_cycle(svc_views(services@)) ==> respects_deps(svc_views(r@)),
{
    let ghost vs = svc_views(services@);
    let st = run_dfs(services);
    proof {
        let r = svc_views(st.result@);
        // The emitted services are exactly the input services: both lists
        // have distinct names, so matching name sets force equal lengths.
        assert(r.no_duplicates()) by {
            assert forall|i: int, j: int| 0 <= i < j < r.len() implies r[i] != r[j] by {
                assert(r[i].name != r[j].name);
            }
        }
        assert(vs.no_duplicates()) by {
            assert forall|i: int, j: int| 0 <= i < j < vs.len() implies vs[i] != vs[j] by {
                assert(vs[i].name != vs[j].name);
            }
        }
        broadcast use vstd::set::group_set_axioms;

        assert(r.to_set() =~= vs.to_set()) by {
            assert forall|x: ServiceView| r.to_set().contains(x) implies vs.to_set().contains(
                x,
            ) by {
                assert(r.contains(x));
                let i = choose|i: int| 0 <= i < r.len() && r[i] == x;
                assert(vs.contains(x));
            }
            assert forall|x: ServiceView| vs.to_set().contains(x) implies r.to_set().contains(
                x,
            ) by {
                assert(vs.contains(x));
                let i = choose|i: int| 0 <= i < vs.len() && vs[i] == x;
                assert(r.contains(x));
            }
        }
        r.unique_seq_to_set();
        vs.unique_seq_to_set();
        assert(r.len() == vs.len());
        if !has_cycle(vs) {
            match st.cycle {
                Some(c) => {
                    lemma_cycle_path_has_cycle(vs, views_of(c@));
                    assert(false);
                },
                None => {},
            }
            lemma_ordered_respects_deps(r, vs);
        }
    }
    st.result
}

} // verus!
