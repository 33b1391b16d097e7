//! Turning the dependency graph below a target into a staged plan, and the
//! default Markdown rendering of that plan.
//!
//! The first stage holds the targets without dependencies; every later stage
//! holds the targets whose dependencies are all in earlier stages, so the
//! targets of one stage are independent of each other.

use vstd::prelude::*;
use crate::graph::{edge, is_path, lemma_project_ids, lemma_reaches_self, lemma_reaches_step, project_ids, reaches};
use crate::model::{
    contains_id, copy_ids, id_text, ids, module_at, project_target, project_wf, spec_texts, IdView, Project, Target, TargetId,
    TargetView,
};
use crate::order::id_lt;
use crate::text::{decimal, join, owned, push_decimal, push_str, texts};

verus! {

/// The view of a planned target.
pub struct PlannedView {
    pub id: IdView,
    pub dependencies: Seq<IdView>,
    pub description: Seq<char>,
    pub specifications: Seq<Seq<char>>,
}

/// What a plan records of a target.
pub open spec fn snapshot(t: TargetView) -> PlannedView {
    PlannedView {
        id: t.id,
        dependencies: t.dependencies,
        description: t.description,
        specifications: t.specifications,
    }
}

/// The data of one target in a plan.
#[derive(Debug, PartialEq, Eq)]
pub struct PlannedTarget {
    id: TargetId,
    dependencies: Vec<TargetId>,
    description: String,
    specifications: Vec<String>,
}

impl View for PlannedTarget {
    type V = PlannedView;

    closed spec fn view(&self) -> PlannedView {
        PlannedView {
            id: self.id@,
            dependencies: ids(self.dependencies@),
            description: self.description@,
            specifications: texts(self.specifications@),
        }
    }
}

impl PlannedTarget {
    /// The identity of the target.
    pub fn id(&self) -> (r: &TargetId)
        ensures
            r@ == self@.id,
    {
        &self.id
    }

    /// The direct dependencies of the target.
    pub fn dependencies(&self) -> (r: &[TargetId])
        ensures
            ids(r@) == self@.dependencies,
    {
        self.dependencies.as_slice()
    }

    /// The description of the target.
    pub fn description(&self) -> (r: &str)
        ensures
            r@ == self@.description,
    {
        self.description.as_str()
    }

    /// The acceptance specifications of the target.
    pub fn specifications(&self) -> (r: &[String])
        ensures
            texts(r@) == self@.specifications,
    {
        self.specifications.as_slice()
    }

    /// Records a project target.
    fn from_target(t: &Target) -> (r: Self)
        ensures
            r@ == snapshot(t@),
    {
        let mut specifications: Vec<String> = Vec::new();
        let specs = t.specifications();
        let mut i: usize = 0;
        while i < specs.len()
            invariant
                i <= specs.len(),
                specifications@.len() == i,
                forall|j: int| 0 <= j < i ==> #[trigger] specifications@[j]@ == specs@[j]@,
            decreases specs.len() - i,
        {
            specifications.push(owned(specs[i].content()));
            i = i + 1;
        }
        assert(texts(specifications@) =~= spec_texts(specs@));
        PlannedTarget {
            id: t.id().duplicate(),
            dependencies: copy_ids(t.dependencies()),
            description: owned(t.description()),
            specifications,
        }
    }

    /// Copies the planned target.
    fn duplicate(&self) -> (r: Self)
        ensures
            r@ == self@,
    {
        PlannedTarget {
            id: self.id.duplicate(),
            dependencies: copy_ids(self.dependencies.as_slice()),
            description: self.description.clone(),
            specifications: crate::model::copy_strings(&self.specifications),
        }
    }
}

/// The identities of a list of planned targets.
pub open spec fn planned_ids(v: Seq<PlannedTarget>) -> Seq<IdView> {
    v.map_values(|t: PlannedTarget| t@.id)
}

/// The views of a list of planned targets.
pub open spec fn planned_views(v: Seq<PlannedTarget>) -> Seq<PlannedView> {
    v.map_values(|t: PlannedTarget| t@)
}

/// Every identity precedes the identities after it.
pub open spec fn ids_sorted(k: Seq<IdView>) -> bool {
    forall|i: int, j: int| 0 <= i < j < k.len() ==> id_lt(#[trigger] k[i], #[trigger] k[j])
}

/// Inserting an identity at the position where it fits keeps the list sorted.
pub proof fn lemma_insert_keeps_ids_sorted(k: Seq<IdView>, p: int, x: IdView)
    requires
        ids_sorted(k),
        0 <= p <= k.len(),
        forall|j: int| 0 <= j < p ==> id_lt(#[trigger] k[j], x),
        p < k.len() ==> id_lt(x, k[p]),
    ensures
        ids_sorted(k.insert(p, x)),
{
    let n = k.insert(p, x);
    assert forall|i: int, j: int| 0 <= i < j < n.len() implies id_lt(#[trigger] n[i], #[trigger] n[j]) by {
        if i < p && j > p {
            assert(n[j] == k[j - 1]);
            crate::order::lemma_id_lt_order(x, k[p], k[j - 1]);
            crate::order::lemma_id_lt_order(k[i], x, k[j - 1]);
        } else if i == p && j > p {
            assert(n[j] == k[j - 1]);
            crate::order::lemma_id_lt_order(x, k[p], k[j - 1]);
        } else if i > p {
            assert(n[i] == k[i - 1] && n[j] == k[j - 1]);
        }
    }
}

/// Looks up a target of the project by identity.
pub fn find_target<'a>(project: &'a Project, id: &TargetId) -> (r: Option<&'a Target>)
    requires
        project.wf(),
    ensures
        match r {
            Some(t) => project_target(project@, id@) == Some(t@),
            None => project_target(project@, id@) is None,
        },
{
    match project.module(id.namespace()) {
        Some(m) => {
            proof {
                let i = choose|i: int| 0 <= i < project@.modules.len() && (#[trigger] project@.modules[i]).namespace == id@.0;
                assert(crate::model::module_wf(project@.modules[i]));
            }
            m.target(id.name())
        },
        None => None,
    }
}

/// Why no plan can be made for a target.
#[derive(Debug, PartialEq, Eq)]
pub enum CompileError {
    TargetNotFound(TargetId),
    DependencyCycle(Vec<TargetId>),
}

/// Whether `v` holds an element with identity `id`, and where.
fn position_of(v: &Vec<PlannedTarget>, id: &TargetId) -> (r: Option<usize>)
    ensures
        match r {
            Some(i) => i < v@.len() && v@[i as int]@.id == id@,
            None => !planned_ids(v@).contains(id@),
        },
{
    let mut i: usize = 0;
    while i < v.len()
        invariant
            i <= v.len(),
            forall|j: int| 0 <= j < i ==> (#[trigger] v@[j])@.id != id@,
        decreases v.len() - i,
    {
        if v[i].id.same(id) {
            return Some(i);
        }
        i = i + 1;
    }
    assert(!planned_ids(v@).contains(id@)) by {
        if planned_ids(v@).contains(id@) {
            let k = choose|k: int| 0 <= k < planned_ids(v@).len() && planned_ids(v@)[k] == id@;
            assert(v@[k]@.id == id@);
        }
    }
    None
}

/// The identities of a list of planned target views.
pub open spec fn view_ids(v: Seq<PlannedView>) -> Seq<IdView> {
    v.map_values(|t: PlannedView| t.id)
}

/// What the targets below `root` look like once they are all collected:
/// sorted by identity, each reachable from `root`, recorded from the project,
/// and closed under dependencies.
pub open spec fn collected(p: crate::model::ProjectView, root: IdView, v: Seq<PlannedView>) -> bool {
    &&& ids_sorted(view_ids(v))
    &&& forall|i: int| 0 <= i < v.len() ==> reaches(p, root, (#[trigger] v[i]).id)
        && project_target(p, v[i].id) is Some && v[i] == snapshot(project_target(p, v[i].id).unwrap())
    &&& forall|t: IdView| reaches(p, root, t) ==> #[trigger] view_ids(v).contains(t)
}

/// A depth-first walk from `t` over dependencies, each target's in order,
/// skipping targets met before (`seen`): the targets met, or the first one
/// met that the project lacks. `fuel` bounds the depth of the walk.
pub open spec fn search_missing(p: crate::model::ProjectView, fuel: nat, t: IdView, seen: Seq<IdView>) -> Result<Seq<IdView>, IdView>
    decreases fuel, 0nat,
{
    if seen.contains(t) {
        Ok(seen)
    } else if fuel == 0 {
        Ok(seen)
    } else {
        match project_target(p, t) {
            None => Err(t),
            Some(tv) => search_missing_deps(p, (fuel - 1) as nat, tv.dependencies, seen.push(t)),
        }
    }
}

/// Walks from the targets `rest` one after another, as `search_missing`
/// does, stopping at the first target found missing.
pub open spec fn search_missing_deps(p: crate::model::ProjectView, fuel: nat, rest: Seq<IdView>, seen: Seq<IdView>) -> Result<Seq<IdView>, IdView>
    decreases fuel, rest.len() + 1,
{
    if rest.len() == 0 {
        Ok(seen)
    } else {
        match search_missing(p, fuel, rest[0], seen) {
            Err(t) => Err(t),
            Ok(s) => search_missing_deps(p, fuel, rest.drop_first(), s),
        }
    }
}

/// The target that planning `root` reports missing, if any: the first
/// target that the project lacks met by a depth-first walk of the
/// dependencies from `root`, each target's in order.
pub open spec fn first_missing(p: crate::model::ProjectView, root: IdView) -> Option<IdView> {
    match search_missing(p, project_ids(p).len() + 1, root, seq![]) {
        Err(t) => Some(t),
        Ok(_) => None,
    }
}

/// The number of targets of `p` not met yet.
pub open spec fn unmet(p: crate::model::ProjectView, seen: Seq<IdView>) -> nat {
    project_ids(p).difference(seen.to_set()).len()
}

/// Meeting a new target of the project leaves one target fewer unmet, and
/// meeting more leaves no more unmet.
#[verifier::spinoff_prover]
proof fn lemma_unmet(p: crate::model::ProjectView, seen: Seq<IdView>, more: Seq<IdView>, t: IdView)
    requires
        project_wf(p),
    ensures
        project_target(p, t) is Some && !seen.contains(t) ==> unmet(p, seen.push(t)) + 1 == unmet(p, seen),
        (forall|x: IdView| seen.contains(x) ==> #[trigger] more.contains(x)) ==> unmet(p, more) <= unmet(p, seen),
{
    lemma_project_ids(p, t);
    let pids = project_ids(p);
    if project_target(p, t) is Some && !seen.contains(t) {
        assert forall|x: IdView| #[trigger] pids.difference(seen.push(t).to_set()).contains(x)
            <==> pids.difference(seen.to_set()).remove(t).contains(x) by {
            crate::project::lemma_push_contains(seen, t, x);
            assert(seen.push(t).to_set().contains(x) == seen.push(t).contains(x));
            assert(seen.to_set().contains(x) == seen.contains(x));
        }
        assert(pids.difference(seen.push(t).to_set()) =~= pids.difference(seen.to_set()).remove(t));
        assert(pids.difference(seen.to_set()).contains(t));
    }
    if forall|x: IdView| seen.contains(x) ==> #[trigger] more.contains(x) {
        assert(pids.difference(more.to_set()).subset_of(pids.difference(seen.to_set())));
        vstd::set_lib::lemma_len_subset(pids.difference(more.to_set()), pids.difference(seen.to_set()));
    }
}

/// A walk that finds nothing missing meets `t`, keeps what was met, and
/// every target it newly meets is in the project with all its dependencies
/// met.
proof fn lemma_search_complete(p: crate::model::ProjectView, fuel: nat, t: IdView, seen: Seq<IdView>)
    requires
        project_wf(p),
        fuel > unmet(p, seen),
        search_missing(p, fuel, t, seen) is Ok,
    ensures
        ({
            let s = search_missing(p, fuel, t, seen)->Ok_0;
            &&& forall|x: IdView| seen.contains(x) ==> #[trigger] s.contains(x)
            &&& s.contains(t)
            &&& forall|x: IdView| #[trigger] s.contains(x) && !seen.contains(x) ==> project_target(p, x) is Some
            &&& forall|x: IdView, d: IdView| #![trigger s.contains(x), edge(p, x, d)]
                s.contains(x) && !seen.contains(x) && edge(p, x, d) ==> s.contains(d)
        }),
    decreases fuel, 0nat,
{
    if !seen.contains(t) {
        assert(fuel > 0);
        assert(project_target(p, t) is Some);
        lemma_unmet(p, seen, seen, t);
        let tv = project_target(p, t)->0;
        let s1 = seen.push(t);
        assert(search_missing(p, fuel, t, seen) == search_missing_deps(p, (fuel - 1) as nat, tv.dependencies, s1));
        lemma_search_deps_complete(p, (fuel - 1) as nat, tv.dependencies, s1);
        let s = search_missing(p, fuel, t, seen)->Ok_0;
        assert forall|x: IdView| seen.contains(x) implies #[trigger] s.contains(x) by {
            crate::project::lemma_push_contains(seen, t, x);
        }
        crate::project::lemma_push_contains(seen, t, t);
        assert forall|x: IdView| #[trigger] s.contains(x) && !seen.contains(x) implies project_target(p, x) is Some by {
            crate::project::lemma_push_contains(seen, t, x);
        }
        assert forall|x: IdView, d: IdView| s.contains(x) && !seen.contains(x) && edge(p, x, d) implies s.contains(d) by {
            crate::project::lemma_push_contains(seen, t, x);
            if x == t {
                assert(tv.dependencies.contains(d));
            }
        }
    }
}

/// A walk from the targets `rest` that finds nothing missing meets them
/// all, keeps what was met, and every target it newly meets is in the
/// project with all its dependencies met.
proof fn lemma_search_deps_complete(p: crate::model::ProjectView, fuel: nat, rest: Seq<IdView>, seen: Seq<IdView>)
    requires
        project_wf(p),
        fuel > unmet(p, seen),
        search_missing_deps(p, fuel, rest, seen) is Ok,
    ensures
        ({
            let s = search_missing_deps(p, fuel, rest, seen)->Ok_0;
            &&& forall|x: IdView| seen.contains(x) ==> #[trigger] s.contains(x)
            &&& forall|x: IdView| rest.contains(x) ==> #[trigger] s.contains(x)
            &&& forall|x: IdView| #[trigger] s.contains(x) && !seen.contains(x) ==> project_target(p, x) is Some
            &&& forall|x: IdView, d: IdView| #![trigger s.contains(x), edge(p, x, d)]
                s.contains(x) && !seen.contains(x) && edge(p, x, d) ==> s.contains(d)
        }),
    decreases fuel, rest.len() + 1,
{
    if rest.len() > 0 {
        lemma_search_complete(p, fuel, rest[0], seen);
        let s1 = search_missing(p, fuel, rest[0], seen)->Ok_0;
        lemma_unmet(p, seen, s1, rest[0]);
        lemma_search_deps_complete(p, fuel, rest.drop_first(), s1);
        let s = search_missing_deps(p, fuel, rest, seen)->Ok_0;
        assert(s == search_missing_deps(p, fuel, rest.drop_first(), s1)->Ok_0);
        assert forall|x: IdView| #[trigger] s.contains(x) && !seen.contains(x) implies project_target(p, x) is Some by {
            if !s1.contains(x) {
            } else {
            }
        }
        assert forall|x: IdView, d: IdView| s.contains(x) && !seen.contains(x) && edge(p, x, d) implies s.contains(d) by {
            if s1.contains(x) {
                assert(s1.contains(d));
            }
        }
        assert forall|x: IdView| rest.contains(x) implies #[trigger] s.contains(x) by {
            let k = choose|k: int| 0 <= k < rest.len() && rest[k] == x;
            if k > 0 {
                assert(rest.drop_first()[k - 1] == x);
            }
        }
    }
}

/// The target a walk reports missing is reached from `root` and is not in
/// the project.
proof fn lemma_search_missing_found(p: crate::model::ProjectView, fuel: nat, root: IdView, t: IdView, seen: Seq<IdView>)
    requires
        reaches(p, root, t),
        search_missing(p, fuel, t, seen) is Err,
    ensures
        ({
            let m = search_missing(p, fuel, t, seen)->Err_0;
            reaches(p, root, m) && project_target(p, m) is None
        }),
    decreases fuel, 0nat,
{
    if !seen.contains(t) && fuel > 0 {
        if let Some(tv) = project_target(p, t) {
            assert forall|d: IdView| tv.dependencies.contains(d) implies reaches(p, root, d) by {
                assert(edge(p, t, d));
                lemma_reaches_step(p, root, t, d);
            }
            lemma_search_deps_missing_found(p, (fuel - 1) as nat, root, tv.dependencies, seen.push(t));
        }
    }
}

/// The target a walk from the targets `rest` reports missing is reached
/// from `root` and is not in the project.
proof fn lemma_search_deps_missing_found(p: crate::model::ProjectView, fuel: nat, root: IdView, rest: Seq<IdView>, seen: Seq<IdView>)
    requires
        forall|d: IdView| rest.contains(d) ==> reaches(p, root, d),
        search_missing_deps(p, fuel, rest, seen) is Err,
    ensures
        ({
            let m = search_missing_deps(p, fuel, rest, seen)->Err_0;
            reaches(p, root, m) && project_target(p, m) is None
        }),
    decreases fuel, rest.len() + 1,
{
    if rest.len() > 0 {
        assert(rest.contains(rest[0]));
        match search_missing(p, fuel, rest[0], seen) {
            Err(_) => {
                lemma_search_missing_found(p, fuel, root, rest[0], seen);
            },
            Ok(s1) => {
                assert forall|d: IdView| rest.drop_first().contains(d) implies reaches(p, root, d) by {
                    let k = choose|k: int| 0 <= k < rest.drop_first().len() && rest.drop_first()[k] == d;
                    assert(rest[k + 1] == d);
                    assert(rest.contains(d));
                }
                lemma_search_deps_missing_found(p, fuel, root, rest.drop_first(), s1);
            },
        }
    }
}

/// Planning reports a target missing exactly when the project lacks some
/// target that the requested target reaches; the one reported is reached
/// and missing.
pub proof fn lemma_first_missing(p: crate::model::ProjectView, root: IdView, t: IdView)
    requires
        project_wf(p),
    ensures
        first_missing(p, root) matches Some(m) ==> reaches(p, root, m) && project_target(p, m) is None,
        first_missing(p, root) is None && reaches(p, root, t) ==> project_target(p, t) is Some,
{
    let fuel = project_ids(p).len() + 1;
    crate::graph::lemma_ids_upto_finite(p.modules, p.modules.len());
    let empty = Seq::<IdView>::empty();
    assert(project_ids(p).difference(empty.to_set()).subset_of(project_ids(p)));
    vstd::set_lib::lemma_len_subset(project_ids(p).difference(empty.to_set()), project_ids(p));
    lemma_reaches_self(p, root);
    if search_missing(p, fuel, root, empty) is Err {
        lemma_search_missing_found(p, fuel, root, root, empty);
    } else if reaches(p, root, t) {
        lemma_search_complete(p, fuel, root, empty);
        let s = search_missing(p, fuel, root, empty)->Ok_0;
        assert forall|x: IdView, y: IdView| s.to_set().contains(x) && #[trigger] edge(p, x, y) implies s.to_set().contains(y) by {
            assert(s.contains(x) && !empty.contains(x));
            assert(s.contains(y));
        }
        crate::graph::lemma_closed_set_holds_reached(p, root, t, s.to_set());
        assert(s.contains(t) && !empty.contains(t));
    }
}

/// Walks the dependencies from `t` depth first, as `search_missing` does,
/// and gives back the first target found missing.
fn find_missing(project: &Project, t: &TargetId, seen: &mut Vec<TargetId>, fuel: Ghost<nat>) -> (r: Option<TargetId>)
    requires
        project.wf(),
        fuel@ > unmet(project@, ids(old(seen)@)),
    ensures
        forall|x: IdView| ids(old(seen)@).contains(x) ==> #[trigger] ids(final(seen)@).contains(x),
        match r {
            Some(m) => search_missing(project@, fuel@, t@, ids(old(seen)@)) == Err::<Seq<IdView>, IdView>(m@),
            None => search_missing(project@, fuel@, t@, ids(old(seen)@)) == Ok::<Seq<IdView>, IdView>(ids(final(seen)@)),
        },
    decreases fuel@,
{
    let ghost p = project@;
    let ghost s0 = ids(seen@);
    if contains_id(seen.as_slice(), t) {
        return None;
    }
    proof {
        lemma_unmet(p, s0, s0, t@);
    }
    match find_target(project, t) {
        None => Some(t.duplicate()),
        Some(target) => {
            let ghost before = seen@;
            seen.push(t.duplicate());
            let ghost s1 = ids(seen@);
            assert(s1 =~= s0.push(t@));
            proof {
                lemma_unmet(p, s0, s0, t@);
                assert forall|x: IdView| s0.contains(x) implies #[trigger] s1.contains(x) by {
                    crate::project::lemma_push_contains(s0, t@, x);
                }
            }
            let deps = target.dependencies();
            let ghost dl = target@.dependencies;
            let ghost goal = search_missing_deps(p, (fuel@ - 1) as nat, dl, s1);
            assert(dl.subrange(0, dl.len() as int) =~= dl);
            let mut i: usize = 0;
            while i < deps.len()
                invariant
                    i <= deps.len(),
                    project.wf(),
                    project@ == p,
                    ids(deps@) == dl,
                    fuel@ > 0,
                    s0 == ids(old(seen)@),
                    unmet(p, s1) + 1 == unmet(p, s0),
                    fuel@ > unmet(p, s0),
                    forall|x: IdView| s1.contains(x) ==> #[trigger] ids(seen@).contains(x),
                    forall|x: IdView| s0.contains(x) ==> #[trigger] ids(seen@).contains(x),
                    search_missing_deps(p, (fuel@ - 1) as nat, dl.subrange(i as int, dl.len() as int), ids(seen@)) == goal,
                    goal == search_missing_deps(p, (fuel@ - 1) as nat, dl, s1),
                    search_missing(p, fuel@, t@, s0) == goal,
                decreases deps.len() - i,
            {
                let ghost cur = ids(seen@);
                proof {
                    lemma_unmet(p, s1, cur, t@);
                }
                let found = find_missing(project, &deps[i], seen, Ghost((fuel@ - 1) as nat));
                proof {
                    let rest = dl.subrange(i as int, dl.len() as int);
                    assert(rest[0] == deps@[i as int]@) by {
                        assert(ids(deps@)[i as int] == deps@[i as int]@);
                    }
                    assert(rest.drop_first() =~= dl.subrange(i + 1, dl.len() as int));
                }
                proof {
                    assert forall|x: IdView| s1.contains(x) implies #[trigger] ids(seen@).contains(x) by {
                        assert(cur.contains(x));
                    }
                    assert forall|x: IdView| s0.contains(x) implies #[trigger] ids(seen@).contains(x) by {
                        assert(cur.contains(x));
                    }
                }
                match found {
                    Some(m) => {
                        proof {
                            let rest = dl.subrange(i as int, dl.len() as int);
                            assert(search_missing(p, (fuel@ - 1) as nat, rest[0], cur) == Err::<Seq<IdView>, IdView>(m@));
                            assert(search_missing_deps(p, (fuel@ - 1) as nat, rest, cur) == Err::<Seq<IdView>, IdView>(m@));
                        }
                        return Some(m);
                    },
                    None => {},
                }
                i = i + 1;
            }
            assert(dl.subrange(i as int, dl.len() as int) =~= Seq::<IdView>::empty());
            None
        },
    }
}

/// Collects every target below `root`, in identity order.
#[verifier::loop_isolation(false)]
fn collect_reachable(project: &Project, root: &TargetId) -> (r: Result<Vec<PlannedTarget>, CompileError>)
    requires
        project.wf(),
    ensures
        match r {
            Ok(v) => collected(project@, root@, planned_views(v@)),
            Err(e) => e matches CompileError::TargetNotFound(t) && reaches(project@, root@, t@)
                && project_target(project@, t@) is None,
        },
{
    let ghost p = project@;
    let mut found: Vec<PlannedTarget> = Vec::new();
    let mut stack: Vec<TargetId> = Vec::new();
    stack.push(root.duplicate());
    let ghost mut seen: Set<IdView> = Set::empty();
    proof {
        lemma_reaches_self(p, root@);
        lemma_project_ids(p, root@);
        assert(ids(stack@)[0] == root@);
    }
    loop
        invariant
            project.wf(),
            project@ == p,
            project_ids(p).finite(),
            seen == planned_ids(found@).to_set(),
            seen.subset_of(project_ids(p)),
            ids_sorted(planned_ids(found@)),
            forall|i: int| 0 <= i < found@.len() ==> reaches(p, root@, (#[trigger] found@[i])@.id)
                && project_target(p, found@[i]@.id) is Some
                && found@[i]@ == snapshot(project_target(p, found@[i]@.id).unwrap()),
            forall|i: int| 0 <= i < stack@.len() ==> reaches(p, root@, (#[trigger] stack@[i])@),
            forall|x: IdView, y: IdView| seen.contains(x) && #[trigger] edge(p, x, y) ==> seen.contains(y) || ids(stack@).contains(y),
            seen.contains(root@) || ids(stack@).contains(root@),
        decreases project_ids(p).len() - seen.len(), stack@.len(),
    {
        let ghost stack_before = stack@;
        let t = match stack.pop() {
            Some(t) => t,
            None => {
                proof {
                    assert forall|x: IdView, y: IdView| seen.contains(x) && #[trigger] edge(p, x, y) implies seen.contains(y) by {
                        assert(ids(stack@) =~= seq![]);
                    }
                    assert(ids(stack@) =~= seq![]);
                    assert forall|t: IdView| reaches(p, root@, t) implies #[trigger] view_ids(planned_views(found@)).contains(t) by {
                        crate::graph::lemma_closed_set_holds_reached(p, root@, t, seen);
                        assert(view_ids(planned_views(found@)) =~= planned_ids(found@));
                    }
                    assert(view_ids(planned_views(found@)) =~= planned_ids(found@));
                    assert forall|i: int| 0 <= i < planned_views(found@).len() implies reaches(p, root@, (#[trigger] planned_views(found@)[i]).id)
                        && project_target(p, planned_views(found@)[i].id) is Some
                        && planned_views(found@)[i] == snapshot(project_target(p, planned_views(found@)[i].id).unwrap()) by {
                        assert(planned_views(found@)[i] == found@[i]@);
                    }
                }
                break;
            },
        };
        proof {
            assert(stack_before == stack@.push(t));
            assert(stack_before[stack@.len() as int] == t);
            assert forall|y: IdView| ids(stack_before).contains(y) implies y == t@ || ids(stack@).contains(y) by {
                let k = choose|k: int| 0 <= k < ids(stack_before).len() && ids(stack_before)[k] == y;
                if k < stack@.len() {
                    assert(ids(stack@)[k] == y);
                }
            }
        }
        if position_of(&found, &t).is_some() {
            assert(seen.contains(t@)) by {
                let i = choose|i: int| 0 <= i < found@.len() && found@[i]@.id == t@;
                assert(planned_ids(found@)[i] == t@);
            }
            continue;
        }
        let target = match find_target(project, &t) {
            Some(x) => x,
            None => {
                return Err(CompileError::TargetNotFound(t));
            },
        };
        let planned = PlannedTarget::from_target(target);
        let mut i: usize = 0;
        while i < found.len() && found[i].id.precedes(&t)
            invariant
                i <= found.len(),
                ids_sorted(planned_ids(found@)),
                forall|j: int| 0 <= j < i ==> id_lt(#[trigger] planned_ids(found@)[j], t@),
            decreases found.len() - i,
        {
            i = i + 1;
        }
        proof {
            if i < found.len() {
                assert(planned_ids(found@)[i as int] != t@) by {
                    assert(!planned_ids(found@).contains(t@));
                }
                crate::order::lemma_id_lt_order(t@, planned_ids(found@)[i as int], t@);
            }
            lemma_insert_keeps_ids_sorted(planned_ids(found@), i as int, t@);
            lemma_project_ids(p, t@);
        }
        let ghost old_found = found@;
        found.insert(i, planned);
        proof {
            assert(planned_ids(found@) =~= planned_ids(old_found).insert(i as int, t@));
            assert(planned_ids(found@).to_set() =~= seen.insert(t@)) by {
                assert forall|x: IdView| planned_ids(found@).to_set().contains(x) <==> seen.insert(t@).contains(x) by {
                    if planned_ids(found@).contains(x) {
                        let k = choose|k: int| 0 <= k < planned_ids(found@).len() && planned_ids(found@)[k] == x;
                        if k < i {
                            assert(planned_ids(old_found)[k] == x);
                        } else if k > i {
                            assert(planned_ids(old_found)[k - 1] == x);
                        }
                    }
                    if seen.contains(x) && x != t@ {
                        let k = choose|k: int| 0 <= k < planned_ids(old_found).len() && planned_ids(old_found)[k] == x;
                        if k < i {
                            assert(planned_ids(found@)[k] == x);
                        } else {
                            assert(planned_ids(found@)[k + 1] == x);
                        }
                    }
                    if x == t@ {
                        assert(planned_ids(found@)[i as int] == x);
                    }
                }
            }
            assert(!seen.contains(t@));
            vstd::set_lib::lemma_len_subset(seen.insert(t@), project_ids(p));
            seen = seen.insert(t@);
            assert forall|j: int| 0 <= j < found@.len() implies reaches(p, root@, (#[trigger] found@[j])@.id)
                && project_target(p, found@[j]@.id) is Some
                && found@[j]@ == snapshot(project_target(p, found@[j]@.id).unwrap()) by {
                if j < i {
                    assert(found@[j] == old_found[j]);
                } else if j > i {
                    assert(found@[j] == old_found[j - 1]);
                }
            }
        }
        let deps = target.dependencies();
        let ghost base = stack@;
        let mut k = deps.len();
        while k > 0
            invariant
                k <= deps.len(),
                ids(deps@) == project_target(p, t@).unwrap().dependencies,
                stack@.len() >= base.len(),
                stack@.take(base.len() as int) == base,
                forall|m: int| k <= m < deps.len() ==> ids(stack@).contains(#[trigger] ids(deps@)[m]),
                forall|m: int| 0 <= m < stack@.len() ==> reaches(p, root@, (#[trigger] stack@[m])@),
            decreases k,
        {
            k = k - 1;
            let ghost before = stack@;
            let d = deps[k].duplicate();
            proof {
                assert(ids(deps@)[k as int] == d@);
                assert(edge(p, t@, d@));
                lemma_reaches_step(p, root@, t@, d@);
            }
            stack.push(d);
            proof {
                assert(stack@.take(base.len() as int) =~= before.take(base.len() as int));
                assert(ids(stack@) =~= ids(before).push(d@));
                assert forall|m: int| k <= m < deps.len() implies ids(stack@).contains(#[trigger] ids(deps@)[m]) by {
                    if m > k {
                        assert(ids(before).contains(ids(deps@)[m]));
                        let q = choose|q: int| 0 <= q < ids(before).len() && ids(before)[q] == ids(deps@)[m];
                        assert(ids(stack@)[q] == ids(deps@)[m]);
                    } else {
                        assert(ids(stack@)[before.len() as int] == d@);
                    }
                }
            }
        }
        proof {
            assert forall|y: IdView| ids(stack_before).contains(y) && y != t@ implies ids(stack@).contains(y) by {
                let q = choose|q: int| 0 <= q < ids(stack_before).len() && ids(stack_before)[q] == y;
                assert(q < base.len());
                assert(stack@.take(base.len() as int)[q] == base[q]);
                assert(ids(stack@)[q] == y);
            }
            assert forall|x: IdView, y: IdView| seen.contains(x) && #[trigger] edge(p, x, y) implies seen.contains(y) || ids(stack@).contains(y) by {
                if x == t@ {
                    assert(project_target(p, t@).unwrap().dependencies.contains(y));
                    let m = choose|m: int| 0 <= m < ids(deps@).len() && ids(deps@)[m] == y;
                }
            }
        }
    }
    Ok(found)
}

/// The number of `true` entries.
pub open spec fn count_true(s: Seq<bool>) -> nat
    decreases s.len(),
{
    if s.len() == 0 {
        0
    } else {
        count_true(s.drop_last()) + if s.last() {
            1nat
        } else {
            0nat
        }
    }
}

/// Turning one `true` entry to `false` lowers the count by one.
proof fn lemma_count_true_clear(s: Seq<bool>, i: int)
    requires
        0 <= i < s.len(),
        s[i],
    ensures
        count_true(s.update(i, false)) + 1 == count_true(s),
    decreases s.len(),
{
    if i < s.len() - 1 {
        assert(s.update(i, false).drop_last() =~= s.drop_last().update(i, false));
        lemma_count_true_clear(s.drop_last(), i);
    } else {
        assert(s.update(i, false).drop_last() =~= s.drop_last());
    }
}

/// A positive count has a `true` entry.
proof fn lemma_count_true_witness(s: Seq<bool>)
    requires
        count_true(s) > 0,
    ensures
        exists|i: int| 0 <= i < s.len() && #[trigger] s[i],
    decreases s.len(),
{
    if !s.last() {
        lemma_count_true_witness(s.drop_last());
        let i = choose|i: int| 0 <= i < s.drop_last().len() && #[trigger] s.drop_last()[i];
        assert(s[i]);
    } else {
        assert(s[s.len() - 1]);
    }
}

/// A sequence with a `true` entry counts more than zero.
proof fn lemma_count_true_positive(s: Seq<bool>, i: int)
    requires
        0 <= i < s.len(),
        s[i],
    ensures
        count_true(s) > 0,
    decreases s.len(),
{
    if i < s.len() - 1 {
        lemma_count_true_positive(s.drop_last(), i);
    }
}

/// The view of a stage.
pub struct StageView {
    pub index: nat,
    pub targets: Seq<PlannedView>,
}

/// The view of a plan.
pub struct PlanView {
    pub root_target: IdView,
    pub stages: Seq<StageView>,
}

/// A group of targets that do not depend on each other.
#[derive(Debug, PartialEq, Eq)]
pub struct CompilationStage {
    index: usize,
    targets: Vec<PlannedTarget>,
}

impl View for CompilationStage {
    type V = StageView;

    closed spec fn view(&self) -> StageView {
        StageView { index: self.index as nat, targets: planned_views(self.targets@) }
    }
}

impl CompilationStage {
    /// The 1-based number of the stage.
    pub fn index(&self) -> (r: usize)
        ensures
            r == self@.index,
    {
        self.index
    }

    /// The targets of the stage, in identity order.
    pub fn targets(&self) -> (r: &[PlannedTarget])
        ensures
            planned_views(r@) == self@.targets,
    {
        self.targets.as_slice()
    }
}

/// The views of a list of stages.
pub open spec fn stage_views(v: Seq<CompilationStage>) -> Seq<StageView> {
    v.map_values(|s: CompilationStage| s@)
}

/// A staged plan from the foundations to the requested target.
#[derive(Debug, PartialEq, Eq)]
pub struct CompilationPlan {
    root_target: TargetId,
    stages: Vec<CompilationStage>,
}

impl View for CompilationPlan {
    type V = PlanView;

    closed spec fn view(&self) -> PlanView {
        PlanView { root_target: self.root_target@, stages: stage_views(self.stages@) }
    }
}

impl CompilationPlan {
    /// The requested target.
    pub fn root_target(&self) -> (r: &TargetId)
        ensures
            r@ == self@.root_target,
    {
        &self.root_target
    }

    /// The stages, from the foundations to the requested target.
    pub fn stages(&self) -> (r: &[CompilationStage])
        ensures
            stage_views(r@) == self@.stages,
    {
        self.stages.as_slice()
    }
}

/// A stage holds a target with identity `id`.
pub open spec fn in_stage(st: StageView, id: IdView) -> bool {
    exists|j: int| 0 <= j < st.targets.len() && (#[trigger] st.targets[j]).id == id
}

/// `plan` stages the targets below `root`: each exactly once, recorded from
/// the project, in numbered, non-empty stages ordered by identity, every
/// dependency in an earlier stage, and every target after the first stage
/// depending on a target of the stage right before it.
pub open spec fn staged(p: crate::model::ProjectView, root: IdView, plan: PlanView) -> bool {
    let st = plan.stages;
    &&& plan.root_target == root
    &&& forall|k: int| 0 <= k < st.len() ==> (#[trigger] st[k]).index == k + 1 && st[k].targets.len() > 0
        && ids_sorted(view_ids(st[k].targets))
    &&& forall|k: int, j: int| 0 <= k < st.len() && 0 <= j < st[k].targets.len() ==> {
        let t = #[trigger] st[k].targets[j];
        reaches(p, root, t.id) && project_target(p, t.id) is Some && t == snapshot(project_target(p, t.id).unwrap())
    }
    &&& forall|t: IdView| reaches(p, root, t) ==> exists|k: int| 0 <= k < st.len() && #[trigger] in_stage(st[k], t)
    &&& forall|k1: int, j1: int, k2: int, j2: int|
        0 <= k1 < st.len() && 0 <= j1 < st[k1].targets.len() && 0 <= k2 < st.len() && 0 <= j2 < st[k2].targets.len()
            && (#[trigger] st[k1].targets[j1]).id == (#[trigger] st[k2].targets[j2]).id ==> k1 == k2 && j1 == j2
    &&& forall|k: int, j: int, d: IdView| 0 <= k < st.len() && 0 <= j < st[k].targets.len()
        && #[trigger] st[k].targets[j].dependencies.contains(d) ==> exists|k2: int| 0 <= k2 < k && #[trigger] in_stage(st[k2], d)
    &&& forall|k: int, j: int| 0 < k < st.len() && 0 <= j < st[k].targets.len() ==> depends_on_stage(
        #[trigger] st[k].targets[j],
        st[k - 1],
    )
}

/// `t` depends on some target of the stage `st`.
pub open spec fn depends_on_stage(t: PlannedView, st: StageView) -> bool {
    exists|d: IdView| t.dependencies.contains(d) && #[trigger] in_stage(st, d)
}

/// `t` depends on some target listed in `c`.
pub open spec fn depends_into(p: crate::model::ProjectView, t: IdView, c: Seq<IdView>) -> bool {
    exists|d: IdView| #[trigger] edge(p, t, d) && c.contains(d)
}

/// `c` lists, by identity, the targets below `root` that cannot be staged:
/// each depends on another one of them, while the other targets below `root`
/// can be ranked so that each depends only on lower-ranked targets outside
/// `c`.
pub open spec fn cyclic_core(p: crate::model::ProjectView, root: IdView, c: Seq<IdView>) -> bool {
    &&& c.len() > 0
    &&& ids_sorted(c)
    &&& forall|i: int| 0 <= i < c.len() ==> reaches(p, root, #[trigger] c[i]) && project_target(p, c[i]) is Some
    &&& forall|i: int| 0 <= i < c.len() ==> depends_into(p, #[trigger] c[i], c)
    &&& exists|rank: spec_fn(IdView) -> nat| #[trigger] ranked_outside(p, root, c, rank)
}

/// Every target below `root` outside `c` depends only on targets outside `c`
/// of lower rank.
pub open spec fn ranked_outside(
    p: crate::model::ProjectView,
    root: IdView,
    c: Seq<IdView>,
    rank: spec_fn(IdView) -> nat,
) -> bool {
    forall|t: IdView, d: IdView|
        reaches(p, root, t) && !c.contains(t) && #[trigger] edge(p, t, d) ==> !c.contains(d) && rank(d) < rank(t)
}

/// Every dependency of a collected target is itself collected.
pub open spec fn deps_closed(fv: Seq<PlannedView>) -> bool {
    forall|i: int, d: IdView| 0 <= i < fv.len() && #[trigger] fv[i].dependencies.contains(d)
        ==> exists|j: int| 0 <= j < fv.len() && #[trigger] fv[j].id == d
}

/// Target `i` is still unstaged and all of its dependencies are staged.
pub open spec fn is_leaf(fv: Seq<PlannedView>, level: Seq<int>, i: int) -> bool {
    &&& level[i] == -1
    &&& forall|j: int| 0 <= j < fv.len() && #[trigger] fv[i].dependencies.contains(fv[j].id) ==> level[j] != -1
}

/// How the stages built so far relate to the collected targets: `level[i]`
/// is the stage of target `i`, or `-1` while it is unstaged.
pub open spec fn stage_inv(fv: Seq<PlannedView>, level: Seq<int>, sv: Seq<StageView>, origin: Seq<Seq<int>>) -> bool {
    let n = fv.len();
    let k_count = sv.len();
    &&& level.len() == n
    &&& forall|i: int| 0 <= i < n ==> -1 <= #[trigger] level[i] < k_count
    &&& forall|k: int| 0 <= k < k_count ==> (#[trigger] sv[k]).index == k + 1 && sv[k].targets.len() > 0
        && ids_sorted(view_ids(sv[k].targets))
    &&& origin.len() == k_count
    &&& forall|k: int| 0 <= k < k_count ==> (#[trigger] origin[k]).len() == sv[k].targets.len()
    &&& forall|k: int, j: int| 0 <= k < k_count && 0 <= j < sv[k].targets.len() ==> {
        let i = #[trigger] origin[k][j];
        0 <= i < n && sv[k].targets[j] == fv[i] && level[i] == k
    }
    &&& forall|i: int| 0 <= i < n && level[i] >= 0 ==> #[trigger] in_stage(sv[level[i]], fv[i].id)
    &&& forall|i: int, j: int| 0 <= i < n && 0 <= j < n && level[i] >= 0 && #[trigger] fv[i].dependencies.contains(#[trigger] fv[j].id)
        ==> 0 <= level[j] < level[i]
    &&& forall|i: int| 0 <= i < n && #[trigger] level[i] > 0 ==> exists|j: int|
        0 <= j < n && fv[i].dependencies.contains(#[trigger] fv[j].id) && level[j] == level[i] - 1
    &&& k_count > 0 ==> forall|i: int| 0 <= i < n && #[trigger] level[i] == -1 ==> exists|j: int|
        0 <= j < n && fv[i].dependencies.contains(#[trigger] fv[j].id) && (level[j] == -1 || level[j] == k_count - 1)
}

/// Staging all current leaves as the next stage keeps the relation.
proof fn lemma_stage_step(
    fv: Seq<PlannedView>,
    level: Seq<int>,
    sv: Seq<StageView>,
    leaves: Seq<int>,
    new_level: Seq<int>,
    stage: StageView,
    origin: Seq<Seq<int>>,
)
    requires
        stage_inv(fv, level, sv, origin),
        deps_closed(fv),
        ids_sorted(view_ids(fv)),
        leaves.len() > 0,
        forall|a: int, b: int| 0 <= a < b < leaves.len() ==> #[trigger] leaves[a] < #[trigger] leaves[b],
        forall|m: int| 0 <= m < leaves.len() ==> 0 <= #[trigger] leaves[m] < fv.len() && is_leaf(fv, level, leaves[m]),
        forall|i: int| 0 <= i < fv.len() && is_leaf(fv, level, i) ==> #[trigger] leaves.contains(i),
        new_level.len() == level.len(),
        forall|i: int| 0 <= i < level.len() ==> #[trigger] new_level[i] == if leaves.contains(i) { sv.len() as int } else { level[i] },
        stage.index == sv.len() + 1,
        stage.targets.len() == leaves.len(),
        forall|m: int| 0 <= m < leaves.len() ==> #[trigger] stage.targets[m] == fv[leaves[m]],
    ensures
        stage_inv(fv, new_level, sv.push(stage), origin.push(leaves)),
{
    let norigin = origin.push(leaves);
    let k_new = sv.len() as int;
    let nsv = sv.push(stage);
    let n = fv.len();
    assert forall|i: int| 0 <= i < n implies -1 <= #[trigger] new_level[i] < nsv.len() by {}
    assert(ids_sorted(view_ids(stage.targets))) by {
        assert forall|a: int, b: int| 0 <= a < b < view_ids(stage.targets).len() implies id_lt(
            #[trigger] view_ids(stage.targets)[a],
            #[trigger] view_ids(stage.targets)[b],
        ) by {
            assert(leaves[a] < leaves[b]);
            assert(view_ids(fv)[leaves[a]] == fv[leaves[a]].id);
            assert(view_ids(fv)[leaves[b]] == fv[leaves[b]].id);
        }
    }
    assert forall|k: int| 0 <= k < nsv.len() implies (#[trigger] nsv[k]).index == k + 1 && nsv[k].targets.len() > 0
        && ids_sorted(view_ids(nsv[k].targets)) by {
        if k < sv.len() {
            assert(nsv[k] == sv[k]);
        }
    }
    assert forall|k: int| 0 <= k < nsv.len() implies (#[trigger] norigin[k]).len() == nsv[k].targets.len() by {
        if k < sv.len() {
            assert(norigin[k] == origin[k]);
        }
    }
    assert forall|k: int, j: int| 0 <= k < nsv.len() && 0 <= j < nsv[k].targets.len() implies {
        let i = #[trigger] norigin[k][j];
        0 <= i < n && nsv[k].targets[j] == fv[i] && new_level[i] == k
    } by {
        if k < sv.len() {
            assert(nsv[k] == sv[k]);
            assert(norigin[k] == origin[k]);
            let i = origin[k][j];
            assert(0 <= i < n && sv[k].targets[j] == fv[i] && level[i] == k);
            assert(!leaves.contains(i)) by {
                if leaves.contains(i) {
                    let m = choose|m: int| 0 <= m < leaves.len() && leaves[m] == i;
                    assert(is_leaf(fv, level, leaves[m]));
                }
            }
        } else {
            assert(norigin[k] == leaves);
            let i = leaves[j];
            assert(leaves.contains(i));
        }
    }
    assert forall|i: int| 0 <= i < n && new_level[i] >= 0 implies #[trigger] in_stage(nsv[new_level[i]], fv[i].id) by {
        if leaves.contains(i) {
            let m = choose|m: int| 0 <= m < leaves.len() && leaves[m] == i;
            assert(nsv[k_new].targets[m] == fv[i]);
        } else {
            assert(in_stage(sv[level[i]], fv[i].id));
            assert(nsv[level[i]] == sv[level[i]]);
        }
    }
    assert forall|i: int, j: int| 0 <= i < n && 0 <= j < n && new_level[i] >= 0 && #[trigger] fv[i].dependencies.contains(#[trigger] fv[j].id)
        implies 0 <= new_level[j] < new_level[i] by {
        if leaves.contains(i) {
            let m = choose|m: int| 0 <= m < leaves.len() && leaves[m] == i;
            assert(is_leaf(fv, level, leaves[m]));
            assert(level[j] != -1);
            assert(!leaves.contains(j)) by {
                if leaves.contains(j) {
                    let m2 = choose|m2: int| 0 <= m2 < leaves.len() && leaves[m2] == j;
                    assert(is_leaf(fv, level, leaves[m2]));
                }
            }
        } else {
            assert(level[i] >= 0);
            assert(!leaves.contains(j)) by {
                if leaves.contains(j) {
                    let m2 = choose|m2: int| 0 <= m2 < leaves.len() && leaves[m2] == j;
                    assert(is_leaf(fv, level, leaves[m2]));
                }
            }
        }
    }
    assert forall|i: int| 0 <= i < n && #[trigger] new_level[i] > 0 implies exists|j: int|
        0 <= j < n && fv[i].dependencies.contains(#[trigger] fv[j].id) && new_level[j] == new_level[i] - 1 by {
        if leaves.contains(i) {
            let m = choose|m: int| 0 <= m < leaves.len() && leaves[m] == i;
            assert(is_leaf(fv, level, leaves[m]));
            assert(level[i] == -1);
            assert(sv.len() > 0);
            let j = choose|j: int| 0 <= j < n && fv[i].dependencies.contains(#[trigger] fv[j].id) && (level[j] == -1 || level[j] == sv.len() - 1);
            assert(level[j] != -1);
            assert(!leaves.contains(j)) by {
                if leaves.contains(j) {
                    let m2 = choose|m2: int| 0 <= m2 < leaves.len() && leaves[m2] == j;
                    assert(is_leaf(fv, level, leaves[m2]));
                }
            }
            assert(new_level[j] == new_level[i] - 1);
        } else {
            assert(level[i] > 0);
            let j = choose|j: int| 0 <= j < n && fv[i].dependencies.contains(#[trigger] fv[j].id) && level[j] == level[i] - 1;
            assert(!leaves.contains(j)) by {
                if leaves.contains(j) {
                    let m2 = choose|m2: int| 0 <= m2 < leaves.len() && leaves[m2] == j;
                    assert(is_leaf(fv, level, leaves[m2]));
                }
            }
            assert(new_level[j] == new_level[i] - 1);
        }
    }
    assert forall|i: int| 0 <= i < n && #[trigger] new_level[i] == -1 implies exists|j: int|
        0 <= j < n && fv[i].dependencies.contains(#[trigger] fv[j].id) && (new_level[j] == -1 || new_level[j] == nsv.len() - 1) by {
        assert(!leaves.contains(i));
        assert(level[i] == -1);
        assert(!is_leaf(fv, level, i));
        let j = choose|j: int| 0 <= j < fv.len() && #[trigger] fv[i].dependencies.contains(fv[j].id) && level[j] == -1;
        assert(fv[i].dependencies.contains(fv[j].id));
        if leaves.contains(j) {
            assert(new_level[j] == nsv.len() - 1);
        } else {
            assert(new_level[j] == -1);
        }
    }
}

/// In a sorted list of identities each identity occurs once.
pub proof fn lemma_sorted_ids_distinct(k: Seq<IdView>, i: int, j: int)
    requires
        ids_sorted(k),
        0 <= i < k.len(),
        0 <= j < k.len(),
        k[i] == k[j],
    ensures
        i == j,
{
    if i < j {
        assert(id_lt(k[i], k[j]));
        crate::order::lemma_id_lt_order(k[i], k[i], k[i]);
    } else if j < i {
        assert(id_lt(k[j], k[i]));
        crate::order::lemma_id_lt_order(k[i], k[i], k[i]);
    }
}

/// The collected targets are closed under dependencies, and their
/// dependencies are the dependency edges of the project.
proof fn lemma_collected_closed(p: crate::model::ProjectView, root: IdView, fv: Seq<PlannedView>)
    requires
        collected(p, root, fv),
    ensures
        deps_closed(fv),
        forall|i: int, d: IdView| 0 <= i < fv.len() ==> (#[trigger] fv[i].dependencies.contains(d) <==> edge(p, fv[i].id, d)),
{
    assert forall|i: int, d: IdView| 0 <= i < fv.len() implies (#[trigger] fv[i].dependencies.contains(d) <==> edge(p, fv[i].id, d)) by {
        assert(fv[i] == snapshot(project_target(p, fv[i].id).unwrap()));
    }
    assert forall|i: int, d: IdView| 0 <= i < fv.len() && #[trigger] fv[i].dependencies.contains(d)
        implies exists|j: int| 0 <= j < fv.len() && #[trigger] fv[j].id == d by {
        assert(reaches(p, root, fv[i].id));
        assert(edge(p, fv[i].id, d));
        lemma_reaches_step(p, root, fv[i].id, d);
        assert(view_ids(fv).contains(d));
        let j = choose|j: int| 0 <= j < view_ids(fv).len() && view_ids(fv)[j] == d;
        assert(fv[j].id == d);
    }
}

/// Once every collected target has a stage, the stages form a plan.
proof fn lemma_staged(
    p: crate::model::ProjectView,
    root: IdView,
    fv: Seq<PlannedView>,
    level: Seq<int>,
    sv: Seq<StageView>,
    origin: Seq<Seq<int>>,
)
    requires
        collected(p, root, fv),
        stage_inv(fv, level, sv, origin),
        forall|i: int| 0 <= i < fv.len() ==> #[trigger] level[i] >= 0,
    ensures
        staged(p, root, PlanView { root_target: root, stages: sv }),
{
    lemma_collected_closed(p, root, fv);
    let n = fv.len();
    assert forall|k: int, j: int| 0 <= k < sv.len() && 0 <= j < sv[k].targets.len() implies {
        let t = #[trigger] sv[k].targets[j];
        reaches(p, root, t.id) && project_target(p, t.id) is Some && t == snapshot(project_target(p, t.id).unwrap())
    } by {
        let i = origin[k][j];
        assert(sv[k].targets[j] == fv[i]);
    }
    assert forall|t: IdView| reaches(p, root, t) implies exists|k: int| 0 <= k < sv.len() && #[trigger] in_stage(sv[k], t) by {
        assert(view_ids(fv).contains(t));
        let i = choose|i: int| 0 <= i < view_ids(fv).len() && view_ids(fv)[i] == t;
        assert(fv[i].id == t);
        assert(level[i] >= 0);
        assert(in_stage(sv[level[i]], fv[i].id));
    }
    assert forall|k1: int, j1: int, k2: int, j2: int|
        0 <= k1 < sv.len() && 0 <= j1 < sv[k1].targets.len() && 0 <= k2 < sv.len() && 0 <= j2 < sv[k2].targets.len()
            && (#[trigger] sv[k1].targets[j1]).id == (#[trigger] sv[k2].targets[j2]).id implies k1 == k2 && j1 == j2 by {
        let i1 = origin[k1][j1];
        let i2 = origin[k2][j2];
        assert(view_ids(fv)[i1] == view_ids(fv)[i2]);
        lemma_sorted_ids_distinct(view_ids(fv), i1, i2);
        assert(k1 == k2);
        if j1 != j2 {
            assert(view_ids(sv[k1].targets)[j1] == view_ids(sv[k1].targets)[j2]);
            lemma_sorted_ids_distinct(view_ids(sv[k1].targets), j1, j2);
        }
    }
    assert forall|k: int, j: int, d: IdView| 0 <= k < sv.len() && 0 <= j < sv[k].targets.len()
        && #[trigger] sv[k].targets[j].dependencies.contains(d) implies exists|k2: int| 0 <= k2 < k && #[trigger] in_stage(sv[k2], d) by {
        let i = origin[k][j];
        assert(sv[k].targets[j] == fv[i]);
        assert(fv[i].dependencies.contains(d));
        let m = choose|m: int| 0 <= m < fv.len() && #[trigger] fv[m].id == d;
        assert(fv[i].dependencies.contains(fv[m].id));
        assert(0 <= level[m] < level[i]);
        assert(in_stage(sv[level[m]], fv[m].id));
    }
    assert forall|k: int, j: int| 0 < k < sv.len() && 0 <= j < sv[k].targets.len() implies depends_on_stage(
        #[trigger] sv[k].targets[j],
        sv[k - 1],
    ) by {
        let i = origin[k][j];
        assert(sv[k].targets[j] == fv[i]);
        assert(level[i] > 0);
        let m = choose|m: int| 0 <= m < n && fv[i].dependencies.contains(#[trigger] fv[m].id) && level[m] == level[i] - 1;
        assert(in_stage(sv[level[m]], fv[m].id));
        assert(fv[i].dependencies.contains(fv[m].id));
    }
}

/// When no unstaged target can be staged, the unstaged targets form the
/// cyclic core.
proof fn lemma_cyclic_core(
    p: crate::model::ProjectView,
    root: IdView,
    fv: Seq<PlannedView>,
    level: Seq<int>,
    sv: Seq<StageView>,
    origin: Seq<Seq<int>>,
    cidx: Seq<int>,
    c: Seq<IdView>,
)
    requires
        collected(p, root, fv),
        stage_inv(fv, level, sv, origin),
        forall|i: int| 0 <= i < fv.len() ==> !is_leaf(fv, level, i),
        cidx.len() > 0,
        c.len() == cidx.len(),
        forall|a: int, b: int| 0 <= a < b < cidx.len() ==> #[trigger] cidx[a] < #[trigger] cidx[b],
        forall|m: int| 0 <= m < cidx.len() ==> 0 <= #[trigger] cidx[m] < fv.len() && level[cidx[m]] == -1 && c[m] == fv[cidx[m]].id,
        forall|i: int| 0 <= i < fv.len() && #[trigger] level[i] == -1 ==> cidx.contains(i),
    ensures
        cyclic_core(p, root, c),
        forall|t: IdView| reaches(p, root, t) ==> #[trigger] project_target(p, t) is Some,
{
    lemma_collected_closed(p, root, fv);
    let n = fv.len();
    assert forall|t: IdView| reaches(p, root, t) implies #[trigger] project_target(p, t) is Some by {
        assert(view_ids(fv).contains(t));
        let i = choose|i: int| 0 <= i < view_ids(fv).len() && view_ids(fv)[i] == t;
        assert(fv[i].id == t);
    }
    assert(ids_sorted(c)) by {
        assert forall|a: int, b: int| 0 <= a < b < c.len() implies id_lt(#[trigger] c[a], #[trigger] c[b]) by {
            assert(cidx[a] < cidx[b]);
            assert(view_ids(fv)[cidx[a]] == c[a]);
            assert(view_ids(fv)[cidx[b]] == c[b]);
        }
    }
    // A member of `c` sits at the position of its index.
    assert forall|j: int| 0 <= j < n && #[trigger] c.contains(fv[j].id) implies level[j] == -1 by {
        let t = fv[j].id;
        let m = choose|m: int| 0 <= m < c.len() && c[m] == t;
        assert(view_ids(fv)[cidx[m]] == view_ids(fv)[j]);
        lemma_sorted_ids_distinct(view_ids(fv), cidx[m], j);
    }
    assert forall|m: int| #![trigger c[m]] 0 <= m < c.len() implies reaches(p, root, c[m]) && project_target(p, c[m]) is Some by {
        assert(fv[cidx[m]].id == c[m]);
    }
    assert forall|m: int| 0 <= m < c.len() implies depends_into(p, #[trigger] c[m], c) by {
        let i = cidx[m];
        assert(!is_leaf(fv, level, i));
        let j = choose|j: int| 0 <= j < fv.len() && #[trigger] fv[i].dependencies.contains(fv[j].id) && level[j] == -1;
        assert(fv[i].dependencies.contains(fv[j].id));
        assert(edge(p, c[m], fv[j].id));
        assert(cidx.contains(j));
        let q = choose|q: int| 0 <= q < cidx.len() && cidx[q] == j;
        assert(c[q] == fv[j].id);
    }
    let rank = |t: IdView| -> nat {
        if exists|i: int| 0 <= i < n && #[trigger] fv[i].id == t {
            let i = choose|i: int| 0 <= i < n && #[trigger] fv[i].id == t;
            if level[i] >= 0 { level[i] as nat } else { 0nat }
        } else {
            0nat
        }
    };
    assert forall|t: IdView, d: IdView|
        reaches(p, root, t) && !c.contains(t) && #[trigger] edge(p, t, d) implies !c.contains(d) && rank(d) < rank(t) by {
        assert(view_ids(fv).contains(t));
        let i = choose|i: int| 0 <= i < view_ids(fv).len() && view_ids(fv)[i] == t;
        assert(fv[i].id == t);
        if level[i] == -1 {
            assert(cidx.contains(i));
            let q = choose|q: int| 0 <= q < cidx.len() && cidx[q] == i;
            assert(c[q] == t);
        }
        assert(fv[i].dependencies.contains(d));
        let j = choose|j: int| 0 <= j < fv.len() && #[trigger] fv[j].id == d;
        assert(fv[i].dependencies.contains(fv[j].id));
        assert(0 <= level[j] < level[i]);
        let ci = choose|x: int| 0 <= x < n && #[trigger] fv[x].id == t;
        assert(view_ids(fv)[ci] == view_ids(fv)[i]);
        lemma_sorted_ids_distinct(view_ids(fv), ci, i);
        let cj = choose|x: int| 0 <= x < n && #[trigger] fv[x].id == d;
        assert(view_ids(fv)[cj] == view_ids(fv)[j]);
        lemma_sorted_ids_distinct(view_ids(fv), cj, j);
    }
    assert(ranked_outside(p, root, c, rank));
}

/// Whether every dependency of `found[i]` is staged.
#[verifier::loop_isolation(false)]
fn all_deps_staged(found: &Vec<PlannedTarget>, remaining: &Vec<bool>, i: usize, Ghost(level): Ghost<Seq<int>>) -> (r: bool)
    requires
        i < found@.len(),
        remaining@.len() == found@.len(),
        level.len() == found@.len(),
        forall|j: int| 0 <= j < found@.len() ==> (remaining@[j] <==> #[trigger] level[j] == -1),
        deps_closed(planned_views(found@)),
        ids_sorted(view_ids(planned_views(found@))),
    ensures
        r == (forall|j: int| 0 <= j < found@.len() && #[trigger] planned_views(found@)[i as int].dependencies.contains(planned_views(found@)[j].id) ==> level[j] != -1),
{
    let ghost fv = planned_views(found@);
    let deps = found[i].dependencies();
    let mut q: usize = 0;
    while q < deps.len()
        invariant
            q <= deps.len(),
            ids(deps@) == fv[i as int].dependencies,
            forall|m: int, j: int| #![trigger fv[j], ids(deps@)[m]] 0 <= m < q && 0 <= j < fv.len() && fv[j].id == ids(deps@)[m] ==> level[j] != -1,
        decreases deps.len() - q,
    {
        assert(ids(deps@)[q as int] == deps@[q as int]@);
        assert(fv[i as int].dependencies.contains(deps@[q as int]@));
        let j = match position_of(found, &deps[q]) {
            Some(j) => j,
            None => {
                proof {
                    assert(exists|w: int| 0 <= w < fv.len() && #[trigger] fv[w].id == deps@[q as int]@);
                    let w = choose|w: int| 0 <= w < fv.len() && #[trigger] fv[w].id == deps@[q as int]@;
                    assert(fv[w] == found@[w]@);
                    assert(planned_ids(found@)[w] == deps@[q as int]@);
                    assert(planned_ids(found@).contains(deps@[q as int]@));
                }
                return false;
            },
        };
        assert(fv[j as int].id == deps@[q as int]@);
        if remaining[j] {
            assert(fv[i as int].dependencies.contains(fv[j as int].id));
            return false;
        }
        proof {
            assert forall|w: int| 0 <= w < fv.len() && fv[w].id == ids(deps@)[q as int] implies #[trigger] level[w] != -1 by {
                assert(view_ids(fv)[w] == view_ids(fv)[j as int]);
                lemma_sorted_ids_distinct(view_ids(fv), w, j as int);
            }
        }
        q = q + 1;
    }
    proof {
        assert forall|j: int| 0 <= j < fv.len() && #[trigger] fv[i as int].dependencies.contains(fv[j].id) implies level[j] != -1 by {
            let m = choose|m: int| 0 <= m < ids(deps@).len() && ids(deps@)[m] == fv[j].id;
            assert(fv[j].id == ids(deps@)[m]);
        }
    }
    true
}

/// The unstaged targets whose dependencies are all staged, in position order.
fn find_leaves(found: &Vec<PlannedTarget>, remaining: &Vec<bool>, Ghost(level): Ghost<Seq<int>>) -> (leaves: Vec<usize>)
    requires
        remaining@.len() == found@.len(),
        level.len() == found@.len(),
        forall|j: int| 0 <= j < found@.len() ==> (remaining@[j] <==> #[trigger] level[j] == -1),
        deps_closed(planned_views(found@)),
        ids_sorted(view_ids(planned_views(found@))),
    ensures
        forall|a: int, b: int| 0 <= a < b < leaves@.len() ==> #[trigger] leaves@[a] < #[trigger] leaves@[b],
        forall|m: int| 0 <= m < leaves@.len() ==> #[trigger] leaves@[m] < found@.len()
            && is_leaf(planned_views(found@), level, leaves@[m] as int),
        forall|j: int| 0 <= j < found@.len() && is_leaf(planned_views(found@), level, j) ==> #[trigger] leaves@.contains(j as usize),
{
    let ghost fv = planned_views(found@);
    let n = found.len();
    let mut leaves: Vec<usize> = Vec::new();
    let mut i: usize = 0;
    while i < n
        invariant
            i <= n,
            fv == planned_views(found@),
            n == found@.len(),
            remaining@.len() == n,
            level.len() == n,
            forall|j: int| 0 <= j < n ==> (remaining@[j] <==> #[trigger] level[j] == -1),
            deps_closed(fv),
            ids_sorted(view_ids(fv)),
            forall|a: int, b: int| 0 <= a < b < leaves@.len() ==> #[trigger] leaves@[a] < #[trigger] leaves@[b],
            forall|m: int| 0 <= m < leaves@.len() ==> #[trigger] leaves@[m] < i && is_leaf(fv, level, leaves@[m] as int),
            forall|j: int| 0 <= j < i && is_leaf(fv, level, j) ==> #[trigger] leaves@.contains(j as usize),
        decreases n - i,
    {
        if remaining[i] && all_deps_staged(found, remaining, i, Ghost(level)) {
            let ghost before = leaves@;
            leaves.push(i);
            proof {
                assert forall|j: int| 0 <= j < i + 1 && is_leaf(fv, level, j) implies #[trigger] leaves@.contains(j as usize) by {
                    if j < i {
                        assert(before.contains(j as usize));
                        let m = choose|m: int| 0 <= m < before.len() && before[m] == j as usize;
                        assert(leaves@[m] == j as usize);
                    } else {
                        assert(leaves@[before.len() as int] == i);
                    }
                }
            }
        }
        i = i + 1;
    }
    leaves
}

/// The identities of the unstaged targets, once none of them can be staged.
fn blocked_targets(
    found: &Vec<PlannedTarget>,
    remaining: &Vec<bool>,
    Ghost(p): Ghost<crate::model::ProjectView>,
    Ghost(root): Ghost<IdView>,
    Ghost(level): Ghost<Seq<int>>,
    Ghost(sv): Ghost<Seq<StageView>>,
    Ghost(origin): Ghost<Seq<Seq<int>>>,
) -> (cycle: Vec<TargetId>)
    requires
        collected(p, root, planned_views(found@)),
        stage_inv(planned_views(found@), level, sv, origin),
        remaining@.len() == found@.len(),
        forall|j: int| 0 <= j < found@.len() ==> (remaining@[j] <==> #[trigger] level[j] == -1),
        forall|j: int| 0 <= j < found@.len() ==> !is_leaf(planned_views(found@), level, j),
        count_true(remaining@) > 0,
    ensures
        cyclic_core(p, root, ids(cycle@)),
        forall|t: IdView| reaches(p, root, t) ==> #[trigger] project_target(p, t) is Some,
{
    let ghost fv = planned_views(found@);
    let n = found.len();
    let mut cycle: Vec<TargetId> = Vec::new();
    let ghost mut cidx: Seq<int> = seq![];
    let mut j: usize = 0;
    while j < n
        invariant
            j <= n,
            fv == planned_views(found@),
            n == found@.len(),
            remaining@.len() == n,
            forall|x: int| 0 <= x < n ==> (remaining@[x] <==> #[trigger] level[x] == -1),
            cidx.len() == cycle@.len(),
            forall|a: int, b: int| 0 <= a < b < cidx.len() ==> #[trigger] cidx[a] < #[trigger] cidx[b],
            forall|m: int| 0 <= m < cidx.len() ==> 0 <= #[trigger] cidx[m] < j && level[cidx[m]] == -1
                && ids(cycle@)[m] == fv[cidx[m]].id,
            forall|x: int| 0 <= x < j && #[trigger] level[x] == -1 ==> cidx.contains(x),
        decreases n - j,
    {
        if remaining[j] {
            let ghost before = cidx;
            let ghost old_cycle = cycle@;
            cycle.push(found[j].id().duplicate());
            proof {
                cidx = cidx.push(j as int);
                assert(ids(cycle@) =~= ids(old_cycle).push(fv[j as int].id));
                assert forall|x: int| 0 <= x < j + 1 && #[trigger] level[x] == -1 implies cidx.contains(x) by {
                    if x < j {
                        let m = choose|m: int| 0 <= m < before.len() && before[m] == x;
                        assert(cidx[m] == x);
                    } else {
                        assert(cidx[before.len() as int] == x);
                    }
                }
            }
        }
        j = j + 1;
    }
    proof {
        lemma_count_true_witness(remaining@);
        let w = choose|w: int| 0 <= w < remaining@.len() && #[trigger] remaining@[w];
        assert(level[w] == -1);
        assert(cidx.contains(w));
        lemma_cyclic_core(p, root, fv, level, sv, origin, cidx, ids(cycle@));
    }
    cycle
}

/// Takes the leaves out of the unstaged targets and returns copies of them.
fn take_leaves(found: &Vec<PlannedTarget>, remaining: &mut Vec<bool>, leaves: &Vec<usize>) -> (targets: Vec<PlannedTarget>)
    requires
        old(remaining)@.len() == found@.len(),
        forall|a: int, b: int| 0 <= a < b < leaves@.len() ==> #[trigger] leaves@[a] < #[trigger] leaves@[b],
        forall|q: int| 0 <= q < leaves@.len() ==> #[trigger] leaves@[q] < found@.len() && old(remaining)@[leaves@[q] as int],
    ensures
        final(remaining)@.len() == found@.len(),
        targets@.len() == leaves@.len(),
        forall|q: int| 0 <= q < leaves@.len() ==> (#[trigger] targets@[q])@ == found@[leaves@[q] as int]@,
        forall|x: int| 0 <= x < found@.len() ==> #[trigger] final(remaining)@[x]
            == (old(remaining)@[x] && !leaves@.map_values(|y: usize| y as int).contains(x)),
        count_true(final(remaining)@) + leaves@.len() == count_true(old(remaining)@),
{
    let ghost lv = leaves@.map_values(|x: usize| x as int);
    let ghost old_rem = remaining@;
    let n = found.len();
    let mut targets: Vec<PlannedTarget> = Vec::new();
    let mut m: usize = 0;
    while m < leaves.len()
        invariant
            m <= leaves@.len(),
            lv == leaves@.map_values(|x: usize| x as int),
            n == found@.len(),
            remaining@.len() == n,
            old_rem.len() == n,
            forall|a: int, b: int| 0 <= a < b < leaves@.len() ==> #[trigger] leaves@[a] < #[trigger] leaves@[b],
            forall|q: int| 0 <= q < leaves@.len() ==> #[trigger] leaves@[q] < n && old_rem[leaves@[q] as int],
            targets@.len() == m,
            forall|q: int| 0 <= q < m ==> (#[trigger] targets@[q])@ == found@[leaves@[q] as int]@,
            forall|x: int| 0 <= x < n ==> #[trigger] remaining@[x] == (old_rem[x] && !lv.take(m as int).contains(x)),
            count_true(remaining@) + m == count_true(old_rem),
        decreases leaves.len() - m,
    {
        let l = leaves[m];
        targets.push(found[l].duplicate());
        proof {
            assert(lv[m as int] == l as int);
            assert(!lv.take(m as int).contains(l as int)) by {
                let t0 = lv.take(m as int);
                if t0.contains(l as int) {
                    let q = choose|q: int| 0 <= q < t0.len() && t0[q] == l as int;
                    assert(leaves@[q] < leaves@[m as int]);
                }
            }
            assert(remaining@[l as int]);
            lemma_count_true_clear(remaining@, l as int);
        }
        let ghost before = remaining@;
        remaining.set(l, false);
        proof {
            assert forall|x: int| 0 <= x < n implies #[trigger] remaining@[x] == (old_rem[x] && !lv.take(m + 1).contains(x)) by {
                assert(lv.take(m + 1) == lv.take(m as int).push(l as int));
                if x == l as int {
                    assert(lv.take(m + 1)[m as int] == x);
                } else {
                    assert(remaining@[x] == before[x]);
                    let t0 = lv.take(m as int);
                    let t1 = lv.take(m + 1);
                    if t1.contains(x) {
                        let q = choose|q: int| 0 <= q < t1.len() && t1[q] == x;
                        assert(t0[q] == x);
                    }
                    if t0.contains(x) {
                        let q = choose|q: int| 0 <= q < t0.len() && t0[q] == x;
                        assert(t1[q] == x);
                    }
                }
            }
        }
        m = m + 1;
    }
    assert(lv.take(leaves@.len() as int) == lv);
    targets
}

/// Plans dependency graphs of a project.
#[derive(Clone, Copy, Debug)]
pub struct Compiler;

impl Compiler {
    /// Creates a compiler.
    pub fn new() -> (r: Self) {
        Compiler
    }

    /// Plans the targets below `root_target`, foundations first: the plan
    /// of the outcome that `plan_outcome` names.
    pub fn plan(&self, project: &Project, root_target: TargetId) -> (r: Result<CompilationPlan, CompileError>)
        requires
            project.wf(),
        ensures
            outcome_matches(plan_outcome(project@, root_target@), r),
            match r {
                Ok(plan) => staged(project@, root_target@, plan@),
                Err(CompileError::TargetNotFound(t)) => reaches(project@, root_target@, t@)
                    && project_target(project@, t@) is None,
                Err(CompileError::DependencyCycle(c)) => (forall|t: IdView| reaches(project@, root_target@, t)
                    ==> #[trigger] project_target(project@, t) is Some) && cyclic_core(project@, root_target@, ids(c@)),
            },
    {
        let ghost p = project@;
        let ghost root = root_target@;
        let r = self.staged_plan(project, root_target);
        proof {
            if r is Ok {
                lemma_plan_outcome(p, root, r->Ok_0@, seq![]);
            } else if r->Err_0 is DependencyCycle {
                lemma_plan_outcome(p, root, choose|q: PlanView| staged(p, root, q), ids(r->Err_0->DependencyCycle_0@));
            }
        }
        r
    }

    /// Plans the targets below `root_target`, stage by stage.
    fn staged_plan(&self, project: &Project, root_target: TargetId) -> (r: Result<CompilationPlan, CompileError>)
        requires
            project.wf(),
        ensures
            match r {
                Ok(plan) => first_missing(project@, root_target@) is None && staged(project@, root_target@, plan@),
                Err(CompileError::TargetNotFound(t)) => first_missing(project@, root_target@) == Some(t@)
                    && reaches(project@, root_target@, t@) && project_target(project@, t@) is None,
                Err(CompileError::DependencyCycle(c)) => first_missing(project@, root_target@) is None
                    && (forall|t: IdView| reaches(project@, root_target@, t) ==> #[trigger] project_target(project@, t) is Some)
                    && cyclic_core(project@, root_target@, ids(c@)),
            },
    {
        let ghost p = project@;
        let mut met: Vec<TargetId> = Vec::new();
        proof {
            crate::graph::lemma_ids_upto_finite(p.modules, p.modules.len());
            assert(ids(met@) =~= Seq::<IdView>::empty());
            assert(project_ids(p).difference(ids(met@).to_set()).subset_of(project_ids(p)));
            vstd::set_lib::lemma_len_subset(project_ids(p).difference(ids(met@).to_set()), project_ids(p));
        }
        match find_missing(project, &root_target, &mut met, Ghost((project_ids(p).len() + 1) as nat)) {
            Some(m) => {
                proof {
                    lemma_first_missing(p, root_target@, m@);
                }
                return Err(CompileError::TargetNotFound(m));
            },
            None => {},
        }
        let found = match collect_reachable(project, &root_target) {
            Ok(v) => v,
            Err(e) => {
                proof {
                    lemma_first_missing(p, root_target@, e->TargetNotFound_0@);
                }
                return Err(e);
            },
        };
        proof {
            assert(first_missing(p, root_target@) is None);
        }
        let ghost fv = planned_views(found@);
        proof {
            lemma_collected_closed(p, root_target@, fv);
        }
        let n = found.len();
        let mut remaining: Vec<bool> = Vec::new();
        let mut k: usize = 0;
        while k < n
            invariant
                k <= n,
                remaining@.len() == k,
                forall|j: int| 0 <= j < k ==> #[trigger] remaining@[j],
                count_true(remaining@) == k,
            decreases n - k,
        {
            let ghost before = remaining@;
            remaining.push(true);
            assert(remaining@.drop_last() == before);
            k = k + 1;
        }
        let ghost mut level: Seq<int> = Seq::new(n as nat, |i: int| -1int);
        let ghost mut origin: Seq<Seq<int>> = seq![];
        let mut stages: Vec<CompilationStage> = Vec::new();
        let mut left: usize = n;
        assert(stage_inv(fv, level, stage_views(stages@), origin)) by {
            assert(stage_views(stages@) =~= seq![]);
        }
        while left > 0
            invariant
                p == project@,
                fv == planned_views(found@),
                n == found@.len(),
                collected(p, root_target@, fv),
                deps_closed(fv),
                remaining@.len() == n,
                forall|j: int| 0 <= j < n ==> (remaining@[j] <==> #[trigger] level[j] == -1),
                count_true(remaining@) == left,
                stage_views(stages@).len() + left <= n,
                stage_inv(fv, level, stage_views(stages@), origin),
                first_missing(p, root_target@) is None,
            decreases left,
        {
            let leaves = find_leaves(&found, &remaining, Ghost(level));
            if leaves.len() == 0 {
                proof {
                    assert forall|x: int| 0 <= x < n implies !is_leaf(fv, level, x) by {
                        if is_leaf(fv, level, x) {
                            assert(leaves@.contains(x as usize));
                        }
                    }
                }
                let cycle = blocked_targets(&found, &remaining, Ghost(p), Ghost(root_target@), Ghost(level), Ghost(stage_views(stages@)), Ghost(origin));
                return Err(CompileError::DependencyCycle(cycle));
            }
            let ghost lv = leaves@.map_values(|x: usize| x as int);
            proof {
                assert forall|x: int| 0 <= x < fv.len() && is_leaf(fv, level, x) implies #[trigger] lv.contains(x) by {
                    assert(leaves@.contains(x as usize));
                    let m = choose|m: int| 0 <= m < leaves@.len() && leaves@[m] == x as usize;
                    assert(lv[m] == x);
                }
            }
            let ghost old_level = level;
            let targets = take_leaves(&found, &mut remaining, &leaves);
            let ghost k_new = stages@.len() as int;
            let ghost new_level = Seq::new(n as nat, |x: int| if lv.contains(x) { k_new } else { old_level[x] });
            let index = stages.len() + 1;
            let stage = CompilationStage { index, targets };
            proof {
                assert(stage@.targets.len() == lv.len());
                assert forall|q: int| 0 <= q < lv.len() implies #[trigger] stage@.targets[q] == fv[lv[q]] by {
                    assert(stage@.targets[q] == stage.targets@[q]@);
                }
                assert forall|a: int, b: int| 0 <= a < b < lv.len() implies #[trigger] lv[a] < #[trigger] lv[b] by {
                    assert(leaves@[a] < leaves@[b]);
                }
                assert forall|q: int| 0 <= q < lv.len() implies 0 <= #[trigger] lv[q] < fv.len() && is_leaf(fv, old_level, lv[q]) by {
                    assert(leaves@[q] < n);
                }
                lemma_stage_step(fv, old_level, stage_views(stages@), lv, new_level, stage@, origin);
                level = new_level;
                origin = origin.push(lv);
            }
            left = left - leaves.len();
            let ghost old_stages = stages@;
            stages.push(stage);
            proof {
                assert(stage_views(stages@) =~= stage_views(old_stages).push(stage@));
            }
        }
        proof {
            assert forall|x: int| 0 <= x < fv.len() implies #[trigger] level[x] >= 0 by {
                if level[x] == -1 {
                    lemma_count_true_positive(remaining@, x);
                }
            }
            lemma_staged(p, root_target@, fv, level, stage_views(stages@), origin);
        }
        Ok(CompilationPlan { root_target, stages })
    }
}

impl CompileError {
    /// The message that describes the error.
    pub fn to_string(&self) -> (r: String)
        ensures
            r@ == match self {
                CompileError::TargetNotFound(t) => "target `"@ + id_text(t@) + "` does not exist"@,
                CompileError::DependencyCycle(c) => "dependency cycle prevents compilation; blocked targets: "@
                    + join(ids(c@).map_values(|i: IdView| id_text(i)), ", "@),
            },
    {
        match self {
            CompileError::TargetNotFound(t) => {
                let mut r = owned("target `");
                let text = t.to_string();
                push_str(&mut r, text.as_str());
                push_str(&mut r, "` does not exist");
                r
            },
            CompileError::DependencyCycle(c) => {
                let mut r = owned("dependency cycle prevents compilation; blocked targets: ");
                let ghost prefix = r@;
                let ghost parts = ids(c@).map_values(|i: IdView| id_text(i));
                let mut i: usize = 0;
                while i < c.len()
                    invariant
                        i <= c.len(),
                        parts == ids(c@).map_values(|i: IdView| id_text(i)),
                        r@ == prefix + join(parts.take(i as int), ", "@),
                    decreases c.len() - i,
                {
                    if i > 0 {
                        push_str(&mut r, ", ");
                    }
                    let text = c[i].to_string();
                    push_str(&mut r, text.as_str());
                    proof {
                        assert(parts.take(i + 1).drop_last() =~= parts.take(i as int));
                        assert(parts[i as int] == id_text(c@[i as int]@));
                        if i == 0 {
                            assert(parts.take(1) =~= seq![parts[0]]);
                        }
                    }
                    i = i + 1;
                }
                assert(parts.take(c.len() as int) =~= parts);
                r
            },
        }
    }
}

/// A line of text followed by a line break.
pub open spec fn line(s: Seq<char>) -> Seq<char> {
    s + seq!['\n']
}

/// Appends a line and a line break.
fn push_line(output: &mut String, text: &str)
    ensures
        final(output)@ == old(output)@ + line(text@),
{
    push_str(output, text);
    output.push('\n');
}

/// The opening of every rendered plan.
pub open spec fn header_text(root: IdView) -> Seq<char> {
    line("# 规格实施计划："@ + id_text(root)) + line(""@) + line("本计划按照依赖关系分阶段排列。"@) + line(""@)
        + line("执行规则："@) + line(""@) + line("1. 按阶段顺序实施。"@)
        + line("2. 同一阶段中的目标互不依赖，可以并行实施，实际顺序由实施者决定。"@)
        + line("3. 开始下一阶段前，必须确认前序阶段的全部规格均已验收通过。"@)
        + line("4. 不得忽略未完成的前置目标。"@)
}

/// The title of stage `index` in a plan of `count` stages.
pub open spec fn stage_title(index: nat, count: nat) -> Seq<char> {
    if index == count {
        "最终目标"@
    } else if index == 1 {
        "基础目标"@
    } else {
        "依赖目标"@
    }
}

/// One bullet line per dependency.
pub open spec fn dependency_lines(deps: Seq<IdView>) -> Seq<char>
    decreases deps.len(),
{
    if deps.len() == 0 {
        seq![]
    } else {
        dependency_lines(deps.drop_last()) + line("- `"@ + id_text(deps.last()) + "`"@)
    }
}

/// One checkbox line per specification.
pub open spec fn specification_lines(specs: Seq<Seq<char>>) -> Seq<char>
    decreases specs.len(),
{
    if specs.len() == 0 {
        seq![]
    } else {
        specification_lines(specs.drop_last()) + line("- [ ] "@ + specs.last())
    }
}

/// The heading of a target section.
pub open spec fn target_head(t: PlannedView) -> Seq<char> {
    line(""@) + line("### 目标 `"@ + id_text(t.id) + "`"@)
}

/// The dependency part of a target section, empty without dependencies.
pub open spec fn target_deps(t: PlannedView) -> Seq<char> {
    if t.dependencies.len() > 0 {
        line(""@) + line("#### 前置目标"@) + line(""@)
            + line("开始本目标前，必须确保以下目标的全部规格均已验收通过："@) + line(""@)
            + dependency_lines(t.dependencies)
    } else {
        seq![]
    }
}

/// The description part of a target section.
pub open spec fn target_description(t: PlannedView) -> Seq<char> {
    line(""@) + line("#### 描述"@) + line(""@)
        + (if t.description.len() == 0 { line("（未提供描述）"@) } else { line(t.description) })
}

/// The specification part of a target section.
pub open spec fn target_specs(t: PlannedView) -> Seq<char> {
    line(""@) + line("#### 验收规格"@) + line(""@)
        + (if t.specifications.len() == 0 {
            line("（未提供验收规格）"@)
        } else {
            specification_lines(t.specifications)
        })
}

/// The section of one target.
pub open spec fn target_text(t: PlannedView) -> Seq<char> {
    target_head(t) + target_deps(t) + target_description(t) + target_specs(t)
}

/// The sections of several targets, in order.
pub open spec fn targets_text(ts: Seq<PlannedView>) -> Seq<char>
    decreases ts.len(),
{
    if ts.len() == 0 {
        seq![]
    } else {
        targets_text(ts.drop_last()) + target_text(ts.last())
    }
}

/// The section of one stage of a plan of `count` stages.
pub open spec fn stage_text(st: StageView, count: nat) -> Seq<char> {
    line(""@) + line("## 阶段 "@ + decimal(st.index) + "："@ + stage_title(st.index, count)) + targets_text(st.targets)
}

/// The sections of several stages of a plan of `count` stages, in order.
pub open spec fn stages_text(sts: Seq<StageView>, count: nat) -> Seq<char>
    decreases sts.len(),
{
    if sts.len() == 0 {
        seq![]
    } else {
        stages_text(sts.drop_last(), count) + stage_text(sts.last(), count)
    }
}

/// The Markdown document of a plan.
pub open spec fn rendered(plan: PlanView) -> Seq<char> {
    header_text(plan.root_target) + stages_text(plan.stages, plan.stages.len())
}

/// Appends the heading of a target section.
fn render_head(output: &mut String, target: &PlannedTarget)
    ensures
        final(output)@ == old(output)@ + target_head(target@),
{
    let ghost start = output@;
    push_line(output, "");
    let id = target.id().to_string();
    let mut heading = owned("### 目标 `");
    push_str(&mut heading, id.as_str());
    push_str(&mut heading, "`");
    push_line(output, heading.as_str());
    assert(output@ =~= start + target_head(target@));
}

/// Appends the dependency part of a target section.
fn render_deps(output: &mut String, target: &PlannedTarget)
    ensures
        final(output)@ == old(output)@ + target_deps(target@),
{
    let ghost start = output@;
    let deps = target.dependencies();
    if deps.len() > 0 {
        push_line(output, "");
        push_line(output, "#### 前置目标");
        push_line(output, "");
        push_line(output, "开始本目标前，必须确保以下目标的全部规格均已验收通过：");
        push_line(output, "");
        let ghost base = output@;
        let mut i: usize = 0;
        while i < deps.len()
            invariant
                i <= deps.len(),
                output@ == base + dependency_lines(ids(deps@).take(i as int)),
            decreases deps.len() - i,
        {
            let text = deps[i].to_string();
            let mut bullet = owned("- `");
            push_str(&mut bullet, text.as_str());
            push_str(&mut bullet, "`");
            push_line(output, bullet.as_str());
            assert(ids(deps@).take(i + 1).drop_last() =~= ids(deps@).take(i as int));
            i = i + 1;
        }
        assert(ids(deps@).take(deps.len() as int) =~= ids(deps@));
    }
    assert(output@ =~= start + target_deps(target@));
}

/// Appends the description part of a target section.
fn render_description(output: &mut String, target: &PlannedTarget)
    ensures
        final(output)@ == old(output)@ + target_description(target@),
{
    let ghost start = output@;
    push_line(output, "");
    push_line(output, "#### 描述");
    push_line(output, "");
    let description = target.description();
    if description.is_empty() {
        push_line(output, "（未提供描述）");
    } else {
        push_line(output, description);
    }
    assert(output@ =~= start + target_description(target@));
}

/// Appends the specification part of a target section.
fn render_specs(output: &mut String, target: &PlannedTarget)
    ensures
        final(output)@ == old(output)@ + target_specs(target@),
{
    let ghost start = output@;
    push_line(output, "");
    push_line(output, "#### 验收规格");
    push_line(output, "");
    let specs = target.specifications();
    if specs.len() == 0 {
        push_line(output, "（未提供验收规格）");
    } else {
        let ghost base = output@;
        let mut i: usize = 0;
        while i < specs.len()
            invariant
                i <= specs.len(),
                output@ == base + specification_lines(texts(specs@).take(i as int)),
            decreases specs.len() - i,
        {
            let mut item = owned("- [ ] ");
            push_str(&mut item, specs[i].as_str());
            push_line(output, item.as_str());
            assert(texts(specs@).take(i + 1).drop_last() =~= texts(specs@).take(i as int));
            i = i + 1;
        }
        assert(texts(specs@).take(specs.len() as int) =~= texts(specs@));
    }
    assert(output@ =~= start + target_specs(target@));
}

/// Appends the section of one target.
fn render_target(output: &mut String, target: &PlannedTarget)
    ensures
        final(output)@ == old(output)@ + target_text(target@),
{
    let ghost start = output@;
    render_head(output, target);
    render_deps(output, target);
    render_description(output, target);
    render_specs(output, target);
    assert(output@ =~= start + target_text(target@));
}

/// Appends the section of one stage of a plan of `count` stages.
fn render_stage(output: &mut String, stage: &CompilationStage, count: usize)
    ensures
        final(output)@ == old(output)@ + stage_text(stage@, count as nat),
{
    let ghost start = output@;
    push_line(output, "");
    let index = stage.index();
    let mut heading = owned("## 阶段 ");
    push_decimal(&mut heading, index);
    push_str(&mut heading, "：");
    if index == count {
        push_str(&mut heading, "最终目标");
    } else if index == 1 {
        push_str(&mut heading, "基础目标");
    } else {
        push_str(&mut heading, "依赖目标");
    }
    push_line(output, heading.as_str());
    let ghost head = output@;
    let targets = stage.targets();
    let mut j: usize = 0;
    while j < targets.len()
        invariant
            j <= targets.len(),
            output@ == head + targets_text(planned_views(targets@).take(j as int)),
        decreases targets.len() - j,
    {
        render_target(output, &targets[j]);
        proof {
            assert(planned_views(targets@).take(j + 1).drop_last() =~= planned_views(targets@).take(j as int));
            assert(planned_views(targets@)[j as int] == targets@[j as int]@);
        }
        j = j + 1;
    }
    assert(planned_views(targets@).take(targets.len() as int) =~= planned_views(targets@));
    assert(output@ =~= start + stage_text(stage@, count as nat));
}

/// Renders plans as the default Markdown document.
#[derive(Clone, Copy, Debug)]
pub struct DefaultMarkdownRenderer;

impl DefaultMarkdownRenderer {
    /// Creates the renderer.
    pub fn new() -> (r: Self) {
        DefaultMarkdownRenderer
    }

    /// The document for `plan`: the rules of execution, then one section per
    /// stage, each with one section per target.
    pub fn render(&self, plan: &CompilationPlan) -> (r: String)
        ensures
            r@ == rendered(plan@),
    {
        let mut output = String::new();
        let root = plan.root_target().to_string();
        let mut title = owned("# 规格实施计划：");
        push_str(&mut title, root.as_str());
        push_line(&mut output, title.as_str());
        push_line(&mut output, "");
        push_line(&mut output, "本计划按照依赖关系分阶段排列。");
        push_line(&mut output, "");
        push_line(&mut output, "执行规则：");
        push_line(&mut output, "");
        push_line(&mut output, "1. 按阶段顺序实施。");
        push_line(&mut output, "2. 同一阶段中的目标互不依赖，可以并行实施，实际顺序由实施者决定。");
        push_line(&mut output, "3. 开始下一阶段前，必须确认前序阶段的全部规格均已验收通过。");
        push_line(&mut output, "4. 不得忽略未完成的前置目标。");
        proof {
            assert(output@ =~= header_text(plan@.root_target));
        }
        let stages = plan.stages();
        let count = stages.len();
        let ghost sv = stage_views(stages@);
        let mut k: usize = 0;
        while k < count
            invariant
                k <= count,
                count == stages@.len(),
                sv == stage_views(stages@),
                sv == plan@.stages,
                output@ == header_text(plan@.root_target) + stages_text(sv.take(k as int), count as nat),
            decreases count - k,
        {
            let ghost before = output@;
            render_stage(&mut output, &stages[k], count);
            proof {
                assert(sv[k as int] == stages@[k as int]@);
                assert(sv.take(k + 1).drop_last() =~= sv.take(k as int));
            }
            k = k + 1;
        }
        assert(sv.take(count as int) =~= sv);
        output
    }
}

impl Compiler {
    /// Plans the targets below `root_target` and renders the plan as the
    /// default Markdown document.
    pub fn compile(&self, project: &Project, root_target: TargetId) -> (r: Result<String, CompileError>)
        requires
            project.wf(),
        ensures
            match plan_outcome(project@, root_target@) {
                PlanOutcome::Planned(plan) => r matches Ok(doc) && doc@ == rendered(plan),
                PlanOutcome::Missing(t) => r matches Err(CompileError::TargetNotFound(x)) && x@ == t,
                PlanOutcome::Cycle(c) => r matches Err(CompileError::DependencyCycle(v)) && ids(v@) == c,
            },
            match r {
                Ok(doc) => exists|plan: PlanView| #[trigger] staged(project@, root_target@, plan) && doc@ == rendered(plan),
                Err(CompileError::TargetNotFound(t)) => reaches(project@, root_target@, t@)
                    && project_target(project@, t@) is None,
                Err(CompileError::DependencyCycle(c)) => (forall|t: IdView| reaches(project@, root_target@, t)
                    ==> #[trigger] project_target(project@, t) is Some) && cyclic_core(project@, root_target@, ids(c@)),
            },
    {
        match self.plan(project, root_target) {
            Ok(plan) => {
                let doc = DefaultMarkdownRenderer::new().render(&plan);
                assert(staged(project@, plan@.root_target, plan@));
                Ok(doc)
            },
            Err(e) => Err(e),
        }
    }
}

/// No target of a stage depends on a target of the same stage: the targets
/// of one stage can be worked on in parallel.
pub proof fn lemma_stage_targets_independent(p: crate::model::ProjectView, root: IdView, plan: PlanView, k: int, a: int, b: int)
    requires
        staged(p, root, plan),
        0 <= k < plan.stages.len(),
        0 <= a < plan.stages[k].targets.len(),
        0 <= b < plan.stages[k].targets.len(),
    ensures
        !plan.stages[k].targets[a].dependencies.contains(plan.stages[k].targets[b].id),
{
    let st = plan.stages;
    let d = st[k].targets[b].id;
    if st[k].targets[a].dependencies.contains(d) {
        let k2 = choose|k2: int| 0 <= k2 < k && #[trigger] in_stage(st[k2], d);
        let j2 = choose|j2: int| 0 <= j2 < st[k2].targets.len() && (#[trigger] st[k2].targets[j2]).id == d;
        assert(st[k2].targets[j2].id == st[k].targets[b].id);
    }
}

/// Every dependency of a planned target is planned in an earlier stage:
/// foundations come first.
pub proof fn lemma_dependencies_come_first(p: crate::model::ProjectView, root: IdView, plan: PlanView, k: int, a: int, d: IdView)
    requires
        staged(p, root, plan),
        0 <= k < plan.stages.len(),
        0 <= a < plan.stages[k].targets.len(),
        plan.stages[k].targets[a].dependencies.contains(d),
    ensures
        exists|k2: int, j2: int| 0 <= k2 < k && 0 <= j2 < plan.stages[k2].targets.len()
            && (#[trigger] plan.stages[k2].targets[j2]).id == d,
{
    let st = plan.stages;
    let k2 = choose|k2: int| 0 <= k2 < k && #[trigger] in_stage(st[k2], d);
    let j2 = choose|j2: int| 0 <= j2 < st[k2].targets.len() && (#[trigger] st[k2].targets[j2]).id == d;
}

/// A plan holds exactly the targets the requested target reaches, each in
/// exactly one place.
pub proof fn lemma_plan_holds_reached_targets_once(p: crate::model::ProjectView, root: IdView, plan: PlanView, t: IdView)
    requires
        staged(p, root, plan),
    ensures
        reaches(p, root, t) <==> exists|k: int, j: int| 0 <= k < plan.stages.len() && 0 <= j < plan.stages[k].targets.len()
            && (#[trigger] plan.stages[k].targets[j]).id == t,
        forall|k1: int, j1: int, k2: int, j2: int|
            0 <= k1 < plan.stages.len() && 0 <= j1 < plan.stages[k1].targets.len() && 0 <= k2 < plan.stages.len()
                && 0 <= j2 < plan.stages[k2].targets.len() && (#[trigger] plan.stages[k1].targets[j1]).id == t
                && (#[trigger] plan.stages[k2].targets[j2]).id == t ==> k1 == k2 && j1 == j2,
{
    let st = plan.stages;
    if reaches(p, root, t) {
        let k = choose|k: int| 0 <= k < st.len() && #[trigger] in_stage(st[k], t);
        let j = choose|j: int| 0 <= j < st[k].targets.len() && (#[trigger] st[k].targets[j]).id == t;
        assert(st[k].targets[j].id == t);
    }
    if exists|k: int, j: int| 0 <= k < st.len() && 0 <= j < st[k].targets.len() && (#[trigger] st[k].targets[j]).id == t {
        let (k, j) = choose|k: int, j: int| 0 <= k < st.len() && 0 <= j < st[k].targets.len() && (#[trigger] st[k].targets[j]).id == t;
        let x = st[k].targets[j];
        assert(reaches(p, root, x.id));
    }
}

/// Among finitely many targets, one has the least rank.
proof fn lemma_least_rank(c: Seq<IdView>, rank: spec_fn(IdView) -> nat) -> (m: int)
    requires
        c.len() > 0,
    ensures
        0 <= m < c.len(),
        forall|j: int| 0 <= j < c.len() ==> rank(c[m]) <= rank(#[trigger] c[j]),
    decreases c.len(),
{
    if c.len() == 1 {
        0
    } else {
        let m0 = lemma_least_rank(c.drop_last(), rank);
        assert forall|j: int| 0 <= j < c.len() - 1 implies rank(c[m0]) <= rank(#[trigger] c[j]) by {
            assert(c.drop_last()[j] == c[j]);
        }
        if rank(c.last()) < rank(c[m0]) {
            (c.len() - 1) as int
        } else {
            m0
        }
    }
}

/// Planning a project in which no dependency leads in a cycle never meets
/// a dependency cycle: no set of targets has each depending on another.
pub proof fn lemma_acyclic_plans_without_cycles(p: crate::model::ProjectView, root: IdView, c: Seq<IdView>)
    requires
        crate::project::acyclic(p),
    ensures
        !cyclic_core(p, root, c),
{
    if cyclic_core(p, root, c) {
        let rank = choose|rank: spec_fn(IdView) -> nat| crate::project::ranks_dependencies(p, rank);
        let m = lemma_least_rank(c, rank);
        assert(depends_into(p, c[m], c));
        let d = choose|d: IdView| #[trigger] edge(p, c[m], d) && c.contains(d);
        assert(project_target(p, c[m])->0.dependencies.contains(d));
        let j = choose|j: int| 0 <= j < c.len() && c[j] == d;
        assert(rank(c[m]) <= rank(c[j]));
    }
}


/// The stage of a staged plan that holds `t`.
pub open spec fn stage_of(plan: PlanView, t: IdView) -> int {
    choose|k: int| 0 <= k < plan.stages.len() && #[trigger] in_stage(plan.stages[k], t)
}

/// In a staged plan, the stage that lists `t` is the stage of `t`, and the
/// target recorded there is the project's target.
proof fn lemma_stage_of_entry(p: crate::model::ProjectView, root: IdView, plan: PlanView, k: int, j: int)
    requires
        staged(p, root, plan),
        0 <= k < plan.stages.len(),
        0 <= j < plan.stages[k].targets.len(),
    ensures
        stage_of(plan, plan.stages[k].targets[j].id) == k,
        reaches(p, root, plan.stages[k].targets[j].id),
        project_target(p, plan.stages[k].targets[j].id) is Some,
        plan.stages[k].targets[j] == snapshot(project_target(p, plan.stages[k].targets[j].id).unwrap()),
{
    let st = plan.stages;
    let t = st[k].targets[j].id;
    assert(in_stage(st[k], t));
    let k2 = stage_of(plan, t);
    let j2 = choose|j2: int| 0 <= j2 < st[k2].targets.len() && (#[trigger] st[k2].targets[j2]).id == t;
    assert(st[k2].targets[j2].id == st[k].targets[j].id);
}

/// A reached target is listed in the stage of it.
proof fn lemma_reached_in_stage(p: crate::model::ProjectView, root: IdView, plan: PlanView, t: IdView) -> (j: int)
    requires
        staged(p, root, plan),
        reaches(p, root, t),
    ensures
        0 <= stage_of(plan, t) < plan.stages.len(),
        0 <= j < plan.stages[stage_of(plan, t)].targets.len(),
        plan.stages[stage_of(plan, t)].targets[j].id == t,
{
    let st = plan.stages;
    let k0 = choose|k: int| 0 <= k < st.len() && #[trigger] in_stage(st[k], t);
    assert(in_stage(st[k0], t));
    let k = stage_of(plan, t);
    choose|j: int| 0 <= j < st[k].targets.len() && (#[trigger] st[k].targets[j]).id == t
}

/// A reached target cannot sit in an earlier stage of plan `a` than of plan
/// `b`.
#[verifier::spinoff_prover]
proof fn lemma_not_earlier(p: crate::model::ProjectView, root: IdView, a: PlanView, b: PlanView, t: IdView)
    requires
        staged(p, root, a),
        staged(p, root, b),
        reaches(p, root, t),
    ensures
        stage_of(a, t) >= stage_of(b, t),
    decreases stage_of(a, t) + stage_of(b, t), 0int,
{
    let ja = lemma_reached_in_stage(p, root, a, t);
    let jb = lemma_reached_in_stage(p, root, b, t);
    let ka = stage_of(a, t);
    let kb = stage_of(b, t);
    if ka < kb {
        lemma_stage_of_entry(p, root, a, ka, ja);
        lemma_stage_of_entry(p, root, b, kb, jb);
        let tb = b.stages[kb].targets[jb];
        assert(depends_on_stage(tb, b.stages[kb - 1]));
        let d = choose|d: IdView| tb.dependencies.contains(d) && #[trigger] in_stage(b.stages[kb - 1], d);
        let jd = choose|jd: int| 0 <= jd < b.stages[kb - 1].targets.len() && (#[trigger] b.stages[kb - 1].targets[jd]).id == d;
        lemma_stage_of_entry(p, root, b, kb - 1, jd);
        assert(a.stages[ka].targets[ja].dependencies.contains(d));
        let k2 = choose|k2: int| 0 <= k2 < ka && #[trigger] in_stage(a.stages[k2], d);
        let j2 = choose|j2: int| 0 <= j2 < a.stages[k2].targets.len() && (#[trigger] a.stages[k2].targets[j2]).id == d;
        lemma_stage_of_entry(p, root, a, k2, j2);
        lemma_same_stage(p, root, a, b, d);
    }
}

/// A reached target sits in the same stage of any two staged plans.
#[verifier::spinoff_prover]
proof fn lemma_same_stage(p: crate::model::ProjectView, root: IdView, a: PlanView, b: PlanView, t: IdView)
    requires
        staged(p, root, a),
        staged(p, root, b),
        reaches(p, root, t),
    ensures
        stage_of(a, t) == stage_of(b, t),
    decreases stage_of(a, t) + stage_of(b, t), 1int,
{
    lemma_not_earlier(p, root, a, b, t);
    lemma_not_earlier(p, root, b, a, t);
}

/// Two sorted lists of identities with the same members are equal.
proof fn lemma_sorted_ids_equal(a: Seq<IdView>, b: Seq<IdView>)
    requires
        ids_sorted(a),
        ids_sorted(b),
        forall|x: IdView| a.contains(x) <==> b.contains(x),
    ensures
        a == b,
    decreases a.len(),
{
    if a.len() == 0 {
        if b.len() > 0 {
            assert(b.contains(b[0]));
        }
        assert(a =~= b);
    } else {
        assert(a.contains(a[0]));
        let q = choose|q: int| 0 <= q < b.len() && b[q] == a[0];
        assert(b.contains(b[0]));
        let r = choose|r: int| 0 <= r < a.len() && a[r] == b[0];
        if q > 0 {
            assert(id_lt(b[0], b[q]));
            if r > 0 {
                assert(id_lt(a[0], a[r]));
            }
            crate::order::lemma_id_lt_order(a[0], b[0], a[0]);
        }
        assert(a[0] == b[0]);
        let a1 = a.drop_first();
        let b1 = b.drop_first();
        assert forall|x: IdView| a1.contains(x) <==> b1.contains(x) by {
            if a1.contains(x) {
                let i = choose|i: int| 0 <= i < a1.len() && a1[i] == x;
                assert(a.contains(x) && a[i + 1] == x);
                assert(id_lt(a[0], a[i + 1]));
                crate::order::lemma_id_lt_order(a[0], a[0], a[0]);
                let k = choose|k: int| 0 <= k < b.len() && b[k] == x;
                assert(k != 0);
                assert(b1[k - 1] == x);
            }
            if b1.contains(x) {
                let i = choose|i: int| 0 <= i < b1.len() && b1[i] == x;
                assert(b.contains(x) && b[i + 1] == x);
                assert(id_lt(b[0], b[i + 1]));
                crate::order::lemma_id_lt_order(b[0], b[0], b[0]);
                let k = choose|k: int| 0 <= k < a.len() && a[k] == x;
                assert(k != 0);
                assert(a1[k - 1] == x);
            }
        }
        lemma_sorted_ids_equal(a1, b1);
        assert(a =~= seq![a[0]] + a1);
        assert(b =~= seq![b[0]] + b1);
    }
}

/// A requested target has at most one staged plan: the stage of each target
/// is fixed by its dependencies, and each stage lists its targets in
/// identity order.
pub proof fn lemma_staged_plan_unique(p: crate::model::ProjectView, root: IdView, a: PlanView, b: PlanView)
    requires
        staged(p, root, a),
        staged(p, root, b),
    ensures
        a == b,
{
    let sa = a.stages;
    let sb = b.stages;
    if sb.len() < sa.len() {
        let k = sa.len() - 1;
        lemma_stage_of_entry(p, root, a, k, 0);
        let t = sa[k].targets[0].id;
        lemma_same_stage(p, root, a, b, t);
        lemma_reached_in_stage(p, root, b, t);
    }
    if sa.len() < sb.len() {
        let k = sb.len() - 1;
        lemma_stage_of_entry(p, root, b, k, 0);
        let t = sb[k].targets[0].id;
        lemma_same_stage(p, root, a, b, t);
        lemma_reached_in_stage(p, root, a, t);
    }
    assert forall|k: int| 0 <= k < sa.len() implies sa[k] == sb[k] by {
        let va = view_ids(sa[k].targets);
        let vb = view_ids(sb[k].targets);
        assert forall|x: IdView| va.contains(x) implies vb.contains(x) by {
            let j = choose|j: int| 0 <= j < va.len() && va[j] == x;
            lemma_stage_of_entry(p, root, a, k, j);
            lemma_same_stage(p, root, a, b, x);
            let jb = lemma_reached_in_stage(p, root, b, x);
            assert(vb[jb] == x);
        }
        assert forall|x: IdView| vb.contains(x) implies va.contains(x) by {
            let j = choose|j: int| 0 <= j < vb.len() && vb[j] == x;
            lemma_stage_of_entry(p, root, b, k, j);
            lemma_same_stage(p, root, a, b, x);
            let ja = lemma_reached_in_stage(p, root, a, x);
            assert(va[ja] == x);
        }
        assert(sa[k].index == k + 1 && sb[k].index == k + 1);
        lemma_sorted_ids_equal(va, vb);
        assert forall|j: int| 0 <= j < sa[k].targets.len() implies sa[k].targets[j] == sb[k].targets[j] by {
            assert(va[j] == vb[j]);
            lemma_stage_of_entry(p, root, a, k, j);
            lemma_stage_of_entry(p, root, b, k, j);
        }
        assert(sa[k].targets =~= sb[k].targets);
    }
    assert(sa =~= sb);
}

/// A requested target that can be staged has every target it reaches in the
/// project, and no set of its targets each depending on another.
pub proof fn lemma_staged_excludes_errors(p: crate::model::ProjectView, root: IdView, plan: PlanView, t: IdView, c: Seq<IdView>)
    requires
        staged(p, root, plan),
    ensures
        reaches(p, root, t) ==> project_target(p, t) is Some,
        !cyclic_core(p, root, c),
{
    if reaches(p, root, t) {
        let j = lemma_reached_in_stage(p, root, plan, t);
        lemma_stage_of_entry(p, root, plan, stage_of(plan, t), j);
    }
    if cyclic_core(p, root, c) {
        let rank = |x: IdView| stage_of(plan, x) as nat;
        let m = lemma_least_rank(c, rank);
        let t0 = c[m];
        let j0 = lemma_reached_in_stage(p, root, plan, t0);
        let k0 = stage_of(plan, t0);
        lemma_stage_of_entry(p, root, plan, k0, j0);
        assert(depends_into(p, t0, c));
        let d = choose|d: IdView| #[trigger] edge(p, t0, d) && c.contains(d);
        assert(plan.stages[k0].targets[j0].dependencies.contains(d));
        let k2 = choose|k2: int| 0 <= k2 < k0 && #[trigger] in_stage(plan.stages[k2], d);
        let j2 = choose|j2: int| 0 <= j2 < plan.stages[k2].targets.len() && (#[trigger] plan.stages[k2].targets[j2]).id == d;
        lemma_stage_of_entry(p, root, plan, k2, j2);
        let i = choose|i: int| 0 <= i < c.len() && c[i] == d;
        assert(rank(c[m]) <= rank(c[i]));
    }
}


/// Compiling is planning followed by the default renderer: when the planner
/// gives `plan` for a requested target, every document that the compiler's
/// contract allows for that target is `plan` rendered.
pub proof fn lemma_compile_renders_the_plan(p: crate::model::ProjectView, root: IdView, plan: PlanView, doc: Seq<char>)
    requires
        staged(p, root, plan),
        exists|q: PlanView| #[trigger] staged(p, root, q) && doc == rendered(q),
    ensures
        doc == rendered(plan),
{
    let q = choose|q: PlanView| #[trigger] staged(p, root, q) && doc == rendered(q);
    lemma_staged_plan_unique(p, root, plan, q);
}


/// What planning a target gives: a plan, the target reported missing, or
/// the targets caught in dependency cycles.
pub enum PlanOutcome {
    Planned(PlanView),
    Missing(IdView),
    Cycle(Seq<IdView>),
}

/// The outcome of planning `root`: the first target found missing by the
/// walk from `root`, if any; otherwise the targets below `root` that cannot
/// be staged, if any; otherwise the staged plan.
pub open spec fn plan_outcome(p: crate::model::ProjectView, root: IdView) -> PlanOutcome {
    if first_missing(p, root) is Some {
        PlanOutcome::Missing(first_missing(p, root)->0)
    } else if exists|c: Seq<IdView>| cyclic_core(p, root, c) {
        PlanOutcome::Cycle(choose|c: Seq<IdView>| cyclic_core(p, root, c))
    } else {
        PlanOutcome::Planned(choose|plan: PlanView| staged(p, root, plan))
    }
}

/// `r` is what the outcome `o` describes.
pub open spec fn outcome_matches(o: PlanOutcome, r: Result<CompilationPlan, CompileError>) -> bool {
    match o {
        PlanOutcome::Planned(plan) => r matches Ok(pl) && pl@ == plan,
        PlanOutcome::Missing(t) => r matches Err(CompileError::TargetNotFound(x)) && x@ == t,
        PlanOutcome::Cycle(c) => r matches Err(CompileError::DependencyCycle(v)) && ids(v@) == c,
    }
}

/// Among the targets below `root`, at most one list can be the targets that
/// cannot be staged.
pub proof fn lemma_cyclic_core_unique(p: crate::model::ProjectView, root: IdView, c1: Seq<IdView>, c2: Seq<IdView>)
    requires
        cyclic_core(p, root, c1),
        cyclic_core(p, root, c2),
    ensures
        c1 == c2,
{
    lemma_core_within(p, root, c1, c2);
    lemma_core_within(p, root, c2, c1);
    lemma_sorted_ids_equal(c1, c2);
}

/// Every target of one list of targets that cannot be staged is in any
/// other.
proof fn lemma_core_within(p: crate::model::ProjectView, root: IdView, c1: Seq<IdView>, c2: Seq<IdView>)
    requires
        cyclic_core(p, root, c1),
        cyclic_core(p, root, c2),
    ensures
        forall|x: IdView| c1.contains(x) ==> c2.contains(x),
{
    let pr = |y: IdView| !c2.contains(y);
    let outside = c1.filter(pr);
    if outside.len() > 0 {
        let rank = choose|rank: spec_fn(IdView) -> nat| #[trigger] ranked_outside(p, root, c2, rank);
        let m = lemma_least_rank(outside, rank);
        let x = outside[m];
        c1.lemma_filter_pred(pr, m);
        assert(outside.contains(x));
        c1.lemma_filter_contains_rev(pr, x);
        let i = choose|i: int| 0 <= i < c1.len() && c1[i] == x;
        assert(depends_into(p, c1[i], c1));
        assert(reaches(p, root, c1[i]));
        let d = choose|d: IdView| #[trigger] edge(p, x, d) && c1.contains(d);
        assert(!c2.contains(d) && rank(d) < rank(x));
        let k = choose|k: int| 0 <= k < c1.len() && c1[k] == d;
        c1.lemma_filter_contains(pr, k);
        let j = choose|j: int| 0 <= j < outside.len() && outside[j] == d;
        assert(rank(outside[m]) <= rank(outside[j]));
    }
    assert forall|x: IdView| c1.contains(x) implies c2.contains(x) by {
        if !c2.contains(x) {
            let k = choose|k: int| 0 <= k < c1.len() && c1[k] == x;
            c1.lemma_filter_contains(pr, k);
        }
    }
}

/// The outcome of planning is the plan that can be staged, or the targets
/// that cannot be, when nothing is missing.
pub proof fn lemma_plan_outcome(p: crate::model::ProjectView, root: IdView, plan: PlanView, c: Seq<IdView>)
    requires
        first_missing(p, root) is None,
    ensures
        staged(p, root, plan) ==> plan_outcome(p, root) == PlanOutcome::Planned(plan),
        cyclic_core(p, root, c) ==> plan_outcome(p, root) == PlanOutcome::Cycle(c),
{
    if staged(p, root, plan) {
        if exists|c2: Seq<IdView>| cyclic_core(p, root, c2) {
            let c2 = choose|c2: Seq<IdView>| cyclic_core(p, root, c2);
            lemma_staged_excludes_errors(p, root, plan, root, c2);
        }
        let q = choose|q: PlanView| staged(p, root, q);
        lemma_staged_plan_unique(p, root, plan, q);
    }
    if cyclic_core(p, root, c) {
        let c2 = choose|c2: Seq<IdView>| cyclic_core(p, root, c2);
        lemma_cyclic_core_unique(p, root, c, c2);
    }
}


/// Each planned target carries exactly what the project's target of its
/// identity holds: the same dependencies, description and specifications,
/// in the same order.
pub proof fn lemma_plan_records_project_targets(p: crate::model::ProjectView, root: IdView, plan: PlanView, k: int, j: int)
    requires
        staged(p, root, plan),
        0 <= k < plan.stages.len(),
        0 <= j < plan.stages[k].targets.len(),
    ensures
        ({
            let t = plan.stages[k].targets[j];
            &&& project_target(p, t.id) is Some
            &&& t.dependencies == project_target(p, t.id)->0.dependencies
            &&& t.description == project_target(p, t.id)->0.description
            &&& t.specifications == project_target(p, t.id)->0.specifications
        }),
{
    let t = plan.stages[k].targets[j];
    assert(t == snapshot(project_target(p, t.id).unwrap()));
}

/// The checkbox line of a specification.
pub open spec fn checkbox(s: Seq<char>) -> Seq<char> {
    "- [ ] "@ + s + "\n"@
}

/// Where the checkbox of specification `i` starts in the checkbox lines.
spec fn checkbox_offset(specs: Seq<Seq<char>>, i: int) -> int {
    specification_lines(specs.take(i)).len() as int
}

/// Each specification's checkbox line occurs in the checkbox lines at its
/// offset, after the lines of the specifications before it.
proof fn lemma_checkbox_at(specs: Seq<Seq<char>>, i: int)
    requires
        0 <= i < specs.len(),
    ensures
        crate::text::occurs_at(specification_lines(specs), checkbox(specs[i]), checkbox_offset(specs, i)),
        checkbox_offset(specs, i) + checkbox(specs[i]).len() == checkbox_offset(specs, i + 1),
    decreases specs.len(),
{
    let d = specs.drop_last();
    assert(specs.take(i + 1).drop_last() =~= specs.take(i));
    assert(specs.take(i + 1).last() == specs[i]);
    reveal_strlit("\n");
    assert(line("- [ ] "@ + specs[i]) =~= checkbox(specs[i]));
    if i == specs.len() - 1 {
        assert(specs.take(i) =~= d);
        crate::text::lemma_occurs_whole(checkbox(specs[i]));
        crate::text::lemma_occurs_in_concat(specification_lines(d), checkbox(specs[i]), checkbox(specs[i]), 0);
    } else {
        lemma_checkbox_at(d, i);
        assert(d.take(i) =~= specs.take(i));
        assert(d[i] == specs[i]);
        crate::text::lemma_occurs_in_concat(specification_lines(d), line("- [ ] "@ + specs.last()), checkbox(specs[i]), checkbox_offset(d, i));
    }
}

/// Checkbox offsets grow with the index.
proof fn lemma_checkbox_offsets_grow(specs: Seq<Seq<char>>, i: int, j: int)
    requires
        0 <= i <= j <= specs.len(),
    ensures
        checkbox_offset(specs, i) <= checkbox_offset(specs, j),
    decreases j - i,
{
    if i < j {
        lemma_checkbox_offsets_grow(specs, i, j - 1);
        assert(specs.take(j).drop_last() =~= specs.take(j - 1));
    }
}

/// The section of stage `k` occurs in the sections of the stages.
proof fn lemma_stage_in_stages(sts: Seq<StageView>, count: nat, k: int) -> (b: int)
    requires
        0 <= k < sts.len(),
    ensures
        crate::text::occurs_at(stages_text(sts, count), stage_text(sts[k], count), b),
    decreases sts.len(),
{
    let d = sts.drop_last();
    if k == sts.len() - 1 {
        crate::text::lemma_occurs_whole(stage_text(sts[k], count));
        crate::text::lemma_occurs_in_concat(stages_text(d, count), stage_text(sts[k], count), stage_text(sts[k], count), 0);
        stages_text(d, count).len() as int
    } else {
        let b = lemma_stage_in_stages(d, count, k);
        assert(d[k] == sts[k]);
        crate::text::lemma_occurs_in_concat(stages_text(d, count), stage_text(sts.last(), count), stage_text(sts[k], count), b);
        b
    }
}

/// The section of target `j` occurs in the sections of the targets.
proof fn lemma_target_in_targets(ts: Seq<PlannedView>, j: int) -> (b: int)
    requires
        0 <= j < ts.len(),
    ensures
        crate::text::occurs_at(targets_text(ts), target_text(ts[j]), b),
    decreases ts.len(),
{
    let d = ts.drop_last();
    if j == ts.len() - 1 {
        crate::text::lemma_occurs_whole(target_text(ts[j]));
        crate::text::lemma_occurs_in_concat(targets_text(d), target_text(ts[j]), target_text(ts[j]), 0);
        targets_text(d).len() as int
    } else {
        let b = lemma_target_in_targets(d, j);
        assert(d[j] == ts[j]);
        crate::text::lemma_occurs_in_concat(targets_text(d), target_text(ts.last()), target_text(ts[j]), b);
        b
    }
}

/// The section of each planned target occurs in the rendered plan.
pub proof fn lemma_target_in_rendered(plan: PlanView, k: int, j: int) -> (b: int)
    requires
        0 <= k < plan.stages.len(),
        0 <= j < plan.stages[k].targets.len(),
    ensures
        crate::text::occurs_at(rendered(plan), target_text(plan.stages[k].targets[j]), b),
{
    let count = plan.stages.len();
    let st = plan.stages[k];
    let t = st.targets[j];
    let b1 = lemma_target_in_targets(st.targets, j);
    let lead = line(""@) + line("## 阶段 "@ + decimal(st.index) + "："@ + stage_title(st.index, count));
    crate::text::lemma_occurs_in_concat(lead, targets_text(st.targets), target_text(t), b1);
    let b2 = lemma_stage_in_stages(plan.stages, count, k);
    crate::text::lemma_occurs_within(stages_text(plan.stages, count), stage_text(st, count), target_text(t), b2, lead.len() + b1);
    crate::text::lemma_occurs_in_concat(header_text(plan.root_target), stages_text(plan.stages, count), target_text(t), b2 + lead.len() + b1);
    header_text(plan.root_target).len() + b2 + lead.len() + b1
}

/// The default document lists every specification of every planned target
/// as a checkbox line of its own, in the target's order: for specifications
/// `i` before `j`, the line of `i` comes before the line of `j`.
pub proof fn lemma_rendered_lists_every_specification(plan: PlanView, k: int, j: int, i: int, i2: int)
    requires
        0 <= k < plan.stages.len(),
        0 <= j < plan.stages[k].targets.len(),
        0 <= i < plan.stages[k].targets[j].specifications.len(),
    ensures
        exists|pos: int| crate::text::occurs_at(rendered(plan), checkbox(plan.stages[k].targets[j].specifications[i]), pos),
        i < i2 < plan.stages[k].targets[j].specifications.len() ==> exists|p1: int, p2: int|
            crate::text::occurs_at(rendered(plan), checkbox(plan.stages[k].targets[j].specifications[i]), p1)
                && crate::text::occurs_at(rendered(plan), checkbox(plan.stages[k].targets[j].specifications[i2]), p2)
                && p1 + checkbox(plan.stages[k].targets[j].specifications[i]).len() <= p2,
{
    let t = plan.stages[k].targets[j];
    let specs = t.specifications;
    let b = lemma_target_in_rendered(plan, k, j);
    let lead = target_head(t) + target_deps(t) + target_description(t) + (line(""@) + line("#### 验收规格"@) + line(""@));
    assert(target_text(t) =~= lead + specification_lines(specs));
    lemma_checkbox_at(specs, i);
    let oi = checkbox_offset(specs, i);
    crate::text::lemma_occurs_in_concat(lead, specification_lines(specs), checkbox(specs[i]), oi);
    crate::text::lemma_occurs_within(rendered(plan), target_text(t), checkbox(specs[i]), b, lead.len() + oi);
    if i < i2 < specs.len() {
        lemma_checkbox_at(specs, i2);
        let o2 = checkbox_offset(specs, i2);
        lemma_checkbox_offsets_grow(specs, i + 1, i2);
        crate::text::lemma_occurs_in_concat(lead, specification_lines(specs), checkbox(specs[i2]), o2);
        crate::text::lemma_occurs_within(rendered(plan), target_text(t), checkbox(specs[i2]), b, lead.len() + o2);
    }
}


/// The bullet line of a dependency.
pub open spec fn dependency_bullet(d: IdView) -> Seq<char> {
    "- `"@ + id_text(d) + "`"@ + "\n"@
}

/// Each dependency's bullet line occurs in the bullet lines.
proof fn lemma_bullet_at(deps: Seq<IdView>, i: int) -> (k: int)
    requires
        0 <= i < deps.len(),
    ensures
        crate::text::occurs_at(dependency_lines(deps), dependency_bullet(deps[i]), k),
    decreases deps.len(),
{
    reveal_strlit("\n");
    let d = deps.drop_last();
    assert(line("- `"@ + id_text(deps[i]) + "`"@) =~= dependency_bullet(deps[i]));
    if i == deps.len() - 1 {
        crate::text::lemma_occurs_whole(dependency_bullet(deps[i]));
        crate::text::lemma_occurs_in_concat(dependency_lines(d), dependency_bullet(deps[i]), dependency_bullet(deps[i]), 0);
        dependency_lines(d).len() as int
    } else {
        let k = lemma_bullet_at(d, i);
        assert(d[i] == deps[i]);
        crate::text::lemma_occurs_in_concat(dependency_lines(d), line("- `"@ + id_text(deps.last()) + "`"@), dependency_bullet(deps[i]), k);
        k
    }
}

/// The default document lists every direct dependency of every planned
/// target as a bullet line of its own.
pub proof fn lemma_rendered_lists_every_dependency(plan: PlanView, k: int, j: int, i: int)
    requires
        0 <= k < plan.stages.len(),
        0 <= j < plan.stages[k].targets.len(),
        0 <= i < plan.stages[k].targets[j].dependencies.len(),
    ensures
        exists|pos: int| crate::text::occurs_at(rendered(plan), dependency_bullet(plan.stages[k].targets[j].dependencies[i]), pos),
{
    let t = plan.stages[k].targets[j];
    let b = lemma_target_in_rendered(plan, k, j);
    let lead = target_head(t) + (line(""@) + line("#### 前置目标"@) + line(""@)
        + line("开始本目标前，必须确保以下目标的全部规格均已验收通过："@) + line(""@));
    let rest = target_description(t) + target_specs(t);
    assert(target_text(t) =~= lead + dependency_lines(t.dependencies) + rest);
    let o = lemma_bullet_at(t.dependencies, i);
    crate::text::lemma_occurs_in_concat(lead, dependency_lines(t.dependencies), dependency_bullet(t.dependencies[i]), o);
    crate::text::lemma_occurs_in_concat(lead + dependency_lines(t.dependencies), rest, dependency_bullet(t.dependencies[i]), lead.len() + o);
    crate::text::lemma_occurs_within(rendered(plan), target_text(t), dependency_bullet(t.dependencies[i]), b, lead.len() + o);
}

} // verus!
