//! The dependency graph of a resolved project: which targets a target
//! depends on, directly and through other targets.

use vstd::prelude::*;
use crate::model::{module_at, project_target, project_wf, target_named, IdView, ModuleView, ProjectView};

verus! {

/// `a` is a target of `p` that depends directly on `b`.
pub open spec fn edge(p: ProjectView, a: IdView, b: IdView) -> bool {
    match project_target(p, a) {
        Some(t) => t.dependencies.contains(b),
        None => false,
    }
}

/// `path` starts at `a`, ends at `b`, and follows dependency edges.
pub open spec fn is_path(p: ProjectView, path: Seq<IdView>, a: IdView, b: IdView) -> bool {
    &&& path.len() > 0
    &&& path[0] == a
    &&& path.last() == b
    &&& forall|k: int| 0 <= k < path.len() - 1 ==> #[trigger] edge(p, path[k], path[k + 1])
}

/// `b` is `a` or a direct or indirect dependency of `a`.
pub open spec fn reaches(p: ProjectView, a: IdView, b: IdView) -> bool {
    exists|path: Seq<IdView>| is_path(p, path, a, b)
}

/// Every target reaches itself.
pub proof fn lemma_reaches_self(p: ProjectView, a: IdView)
    ensures
        reaches(p, a, a),
{
    assert(is_path(p, seq![a], a, a));
}

/// What a target reaches, reaches its dependencies too.
pub proof fn lemma_reaches_step(p: ProjectView, a: IdView, b: IdView, c: IdView)
    requires
        reaches(p, a, b),
        edge(p, b, c),
    ensures
        reaches(p, a, c),
{
    let path = choose|path: Seq<IdView>| is_path(p, path, a, b);
    let q = path.push(c);
    assert forall|k: int| 0 <= k < q.len() - 1 implies #[trigger] edge(p, q[k], q[k + 1]) by {
        if k < path.len() - 1 {
            assert(q[k] == path[k] && q[k + 1] == path[k + 1]);
        } else {
            assert(q[k] == b && q[k + 1] == c);
        }
    }
    assert(is_path(p, q, a, c));
}

/// A set that holds `a` and is closed under dependency edges holds every
/// target that `a` reaches.
pub proof fn lemma_closed_set_holds_reached(p: ProjectView, a: IdView, b: IdView, s: Set<IdView>)
    requires
        s.contains(a),
        forall|x: IdView, y: IdView| s.contains(x) && #[trigger] edge(p, x, y) ==> s.contains(y),
        reaches(p, a, b),
    ensures
        s.contains(b),
{
    let path = choose|path: Seq<IdView>| is_path(p, path, a, b);
    lemma_path_prefix_in_set(p, path, a, b, s, path.len() - 1);
}

/// Along a path from a member of a closed set, every step stays in the set.
proof fn lemma_path_prefix_in_set(p: ProjectView, path: Seq<IdView>, a: IdView, b: IdView, s: Set<IdView>, k: int)
    requires
        is_path(p, path, a, b),
        s.contains(a),
        forall|x: IdView, y: IdView| s.contains(x) && #[trigger] edge(p, x, y) ==> s.contains(y),
        0 <= k < path.len(),
    ensures
        s.contains(path[k]),
    decreases k,
{
    if k > 0 {
        lemma_path_prefix_in_set(p, path, a, b, s, k - 1);
        let j = k - 1;
        assert(edge(p, path[j], path[j + 1]));
        assert(j + 1 == k);
    }
}

/// The identities of the targets of the first `k` modules.
pub open spec fn ids_upto(ms: Seq<ModuleView>, k: nat) -> Set<IdView>
    decreases k,
{
    if k == 0 || k > ms.len() {
        Set::empty()
    } else {
        ids_upto(ms, (k - 1) as nat).union(ms[k - 1].targets.map_values(|t: crate::model::TargetView| t.id).to_set())
    }
}

/// The identities of all targets of a project.
pub open spec fn project_ids(p: ProjectView) -> Set<IdView> {
    ids_upto(p.modules, p.modules.len())
}

/// The identities of the targets of finitely many modules are finitely many.
pub proof fn lemma_ids_upto_finite(ms: Seq<ModuleView>, k: nat)
    ensures
        ids_upto(ms, k).finite(),
    decreases k,
{
    if k > 0 && k <= ms.len() {
        lemma_ids_upto_finite(ms, (k - 1) as nat);
    }
}

/// Every target of a module among the first `k` has its identity in
/// `ids_upto(ms, k)`.
pub proof fn lemma_ids_upto_holds(ms: Seq<ModuleView>, k: nat, i: int, j: int)
    requires
        0 <= i < k <= ms.len(),
        0 <= j < ms[i].targets.len(),
    ensures
        ids_upto(ms, k).contains(ms[i].targets[j].id),
    decreases k,
{
    if i < k - 1 {
        lemma_ids_upto_holds(ms, (k - 1) as nat, i, j);
    } else {
        let f = |t: crate::model::TargetView| t.id;
        assert(ms[i].targets.map_values(f)[j] == ms[i].targets[j].id);
        assert(ms[i].targets.map_values(f).to_set().contains(ms[i].targets[j].id));
    }
}

/// Every target of a project has its identity in the finite set
/// `project_ids(p)`.
pub proof fn lemma_project_ids(p: ProjectView, id: IdView)
    requires
        project_wf(p),
    ensures
        project_ids(p).finite(),
        project_target(p, id) is Some ==> project_ids(p).contains(id),
{
    lemma_ids_upto_finite(p.modules, p.modules.len());
    if project_target(p, id) is Some {
        let i = choose|i: int| 0 <= i < p.modules.len() && (#[trigger] p.modules[i]).namespace == id.0;
        let m = p.modules[i];
        assert(module_at(p, id.0) == Some(m));
        let j = choose|j: int| 0 <= j < m.targets.len() && (#[trigger] m.targets[j]).id.1 == id.1;
        assert(target_named(m, id.1) == Some(m.targets[j]));
        assert(project_target(p, id) == Some(m.targets[j]));
        lemma_ids_upto_holds(p.modules, p.modules.len(), i, j);
        assert(project_ids(p).contains(m.targets[j].id));
        assert(m.targets[j].id == id) by {
            assert(m.targets[j].id.1 == id.1);
            assert(crate::model::module_wf(m));
            assert(m.targets[j].id.0 == m.namespace);
        }
    }
}

/// Every dependency and every import of a project names one of its
/// targets.
pub open spec fn project_closed(p: ProjectView) -> bool {
    &&& forall|i: int, j: int, d: IdView|
        0 <= i < p.modules.len() && 0 <= j < p.modules[i].targets.len()
            && #[trigger] p.modules[i].targets[j].dependencies.contains(d) ==> project_target(p, d) is Some
    &&& forall|i: int, d: IdView|
        0 <= i < p.modules.len() && #[trigger] p.modules[i].includes.contains(d) ==> project_target(p, d) is Some
}

/// In a project where every dependency names a target, whatever a target
/// reaches is a target too: planning from one of its targets never meets a
/// missing target.
pub proof fn lemma_closed_reaches_targets(p: ProjectView, a: IdView, b: IdView)
    requires
        project_closed(p),
        project_target(p, a) is Some,
        reaches(p, a, b),
    ensures
        project_target(p, b) is Some,
{
    let s = Set::new(|x: IdView| project_target(p, x) is Some);
    assert forall|x: IdView, y: IdView| s.contains(x) && #[trigger] edge(p, x, y) implies s.contains(y) by {
        let m = module_at(p, x.0).unwrap();
        let ci = choose|i: int| 0 <= i < p.modules.len() && (#[trigger] p.modules[i]).namespace == x.0;
        assert(m == p.modules[ci]);
        let cj = choose|j: int| 0 <= j < m.targets.len() && (#[trigger] m.targets[j]).id.1 == x.1;
        assert(project_target(p, x) == Some(m.targets[cj]));
        assert(p.modules[ci].targets[cj].dependencies.contains(y));
    }
    lemma_closed_set_holds_reached(p, a, b, s);
}

} // verus!
