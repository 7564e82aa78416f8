use crate::index::{lemma_distinct_positions, version_of, PackageIndex};
use crate::package::{dependency_at, dependency_count, deps_of, LegacyAsset, PackageJson, PartialUnityVersion};
use crate::version::{
    lemma_precedence_laws, precedence, range_matches, text_eq, Version, VersionRange, VersionView,
};
use core::cmp::Ordering;
use vstd::prelude::*;

verus! {

/// A project as read from disk: host version, top-level dependencies, the
/// locked package snapshots and the legacy assets present with their tags.
pub struct ProjectState {
    pub unity: Option<PartialUnityVersion>,
    pub dependencies: Vec<String>,
    pub locked: Vec<PackageJson>,
    pub legacy_files: Vec<LegacyAsset>,
    pub legacy_folders: Vec<LegacyAsset>,
}

/// How a requested package relates to what the project already has.
#[derive(PartialEq, Eq, Structural, Clone, Copy, Debug)]
pub enum AddPackageOperation {
    InstallToDependencies,
    UpgradeLocked,
    Downgrade,
}

/// No version of `package` satisfies every range put on it; `required_by` is
/// the package whose dependency could not be met.
#[derive(Debug)]
pub struct VersionSolvingError {
    pub package: String,
    pub required_by: String,
}

impl ProjectState {
    /// Each package is locked at most once.
    pub open spec fn wf(&self) -> bool {
        forall|a: int, b: int|
            0 <= a < self.locked@.len() && 0 <= b < self.locked@.len() && a != b
                ==> #[trigger] self.locked@[a].name@ != #[trigger] self.locked@[b].name@
    }

    pub open spec fn has_locked(&self, name: Seq<char>) -> bool {
        exists|i: int| 0 <= i < self.locked@.len() && #[trigger] self.locked@[i].name@ == name
    }

    /// The position of the locked package named `name`.
    pub fn find_locked(&self, name: &str) -> (r: Option<usize>)
        ensures
            match r {
                Some(i) => i < self.locked@.len() && self.locked@[i as int].name@ == name@,
                None => !self.has_locked(name@),
            },
    {
        let mut i: usize = 0;
        while i < self.locked.len()
            invariant
                i <= self.locked@.len(),
                forall|j: int| 0 <= j < i ==> #[trigger] self.locked@[j].name@ != name@,
            decreases self.locked@.len() - i,
        {
            if text_eq(self.locked[i].name.as_str(), name) {
                return Some(i);
            }
            i = i + 1;
        }
        None
    }
}

/// The classification of installing `package` into `project`.
pub open spec fn operation_of(project: ProjectState, package: PackageJson) -> AddPackageOperation {
    if !project.has_locked(package.name@) {
        AddPackageOperation::InstallToDependencies
    } else if exists|i: int|
        0 <= i < project.locked@.len() && #[trigger] project.locked@[i].name@ == package.name@
            && precedence(package.version@, project.locked@[i].version@) == Ordering::Less {
        AddPackageOperation::Downgrade
    } else {
        AddPackageOperation::UpgradeLocked
    }
}

/// Installing a package the project does not lock adds it to its dependencies;
/// one below the locked version is a downgrade, any other an upgrade of the lock.
pub fn classify_operation(project: &ProjectState, package: &PackageJson) -> (r: AddPackageOperation)
    requires
        project.wf(),
    ensures
        r == operation_of(*project, *package),
        (r == AddPackageOperation::InstallToDependencies) == !project.has_locked(package.name@),
        (r == AddPackageOperation::Downgrade) == exists|i: int|
            0 <= i < project.locked@.len() && #[trigger] project.locked@[i].name@ == package.name@
                && precedence(package.version@, project.locked@[i].version@) == Ordering::Less,
        (r == AddPackageOperation::UpgradeLocked) == exists|i: int|
            0 <= i < project.locked@.len() && #[trigger] project.locked@[i].name@ == package.name@
                && precedence(package.version@, project.locked@[i].version@) != Ordering::Less,
{
    match project.find_locked(package.name.as_str()) {
        None => AddPackageOperation::InstallToDependencies,
        Some(i) => {
            proof {
                assert forall|j: int|
                    0 <= j < project.locked@.len() && #[trigger] project.locked@[j].name@
                        == package.name@ implies j == i by {
                    if j != i {
                        assert(project.locked@[j].name@ != project.locked@[i as int].name@);
                    }
                }
            }
            if package.version.precedes(&project.locked[i].version) {
                AddPackageOperation::Downgrade
            } else {
                AddPackageOperation::UpgradeLocked
            }
        },
    }
}

/// Every range that package `p` puts on `name` admits `v`.
pub open spec fn allows(p: PackageJson, name: Seq<char>, v: VersionView) -> bool {
    forall|d: int|
        0 <= d < deps_of(p).len() && #[trigger] deps_of(p)[d].0 == name ==> range_matches(
            deps_of(p)[d].1,
            v,
        )
}

pub fn package_allows(p: &PackageJson, name: &str, v: &Version) -> (r: bool)
    ensures
        r == allows(*p, name@, v@),
{
    let n = dependency_count(&p.vpm_dependencies);
    let mut d: usize = 0;
    while d < n
        invariant
            n == deps_of(*p).len(),
            d <= n,
            forall|e: int|
                0 <= e < d && #[trigger] deps_of(*p)[e].0 == name@ ==> range_matches(
                    deps_of(*p)[e].1,
                    v@,
                ),
        decreases n - d,
    {
        match dependency_at(&p.vpm_dependencies, d) {
            Some((k, range)) => {
                if text_eq(k.as_str(), name) && !range.matches(v) {
                    return false;
                }
            },
            None => {},
        }
        d = d + 1;
    }
    true
}

pub open spec fn pkg(index: PackageIndex, i: usize) -> PackageJson {
    index.packages@[i as int].package
}

/// Some chosen package carries the name of locked package `l`.
pub open spec fn replaced(index: PackageIndex, project: ProjectState, chosen: Seq<usize>, l: int) -> bool {
    exists|k: int| 0 <= k < chosen.len() && #[trigger] pkg(index, chosen[k]).name@ == project.locked@[l].name@
}

/// `v` meets the ranges that the chosen packages, and the locked packages that
/// stay, put on `name`.
pub open spec fn constraints_hold(
    index: PackageIndex,
    project: ProjectState,
    chosen: Seq<usize>,
    name: Seq<char>,
    v: VersionView,
) -> bool {
    &&& forall|k: int| 0 <= k < chosen.len() ==> allows(#[trigger] pkg(index, chosen[k]), name, v)
    &&& forall|l: int|
        0 <= l < project.locked@.len() && !replaced(index, project, chosen, l) ==> allows(
            #[trigger] project.locked@[l],
            name,
            v,
        )
}

pub(crate) fn is_replaced(index: &PackageIndex, project: &ProjectState, chosen: &Vec<usize>, l: usize) -> (r: bool)
    requires
        l < project.locked@.len(),
        forall|k: int| 0 <= k < chosen@.len() ==> #[trigger] chosen@[k] < index.packages@.len(),
    ensures
        r == replaced(*index, *project, chosen@, l as int),
{
    let mut k: usize = 0;
    while k < chosen.len()
        invariant
            l < project.locked@.len(),
            k <= chosen@.len(),
            forall|m: int| 0 <= m < chosen@.len() ==> #[trigger] chosen@[m] < index.packages@.len(),
            forall|m: int|
                0 <= m < k ==> #[trigger] pkg(*index, chosen@[m]).name@ != project.locked@[l as int].name@,
        decreases chosen@.len() - k,
    {
        if index.packages[chosen[k]].package.name == project.locked[l].name {
            assert(pkg(*index, chosen@[k as int]).name@ == project.locked@[l as int].name@);
            return true;
        }
        k = k + 1;
    }
    false
}

fn constraints_met(
    index: &PackageIndex,
    project: &ProjectState,
    chosen: &Vec<usize>,
    name: &str,
    v: &Version,
) -> (r: bool)
    requires
        forall|k: int| 0 <= k < chosen@.len() ==> #[trigger] chosen@[k] < index.packages@.len(),
    ensures
        r == constraints_hold(*index, *project, chosen@, name@, v@),
{
    let mut k: usize = 0;
    while k < chosen.len()
        invariant
            k <= chosen@.len(),
            forall|m: int| 0 <= m < chosen@.len() ==> #[trigger] chosen@[m] < index.packages@.len(),
            forall|m: int| 0 <= m < k ==> allows(#[trigger] pkg(*index, chosen@[m]), name@, v@),
        decreases chosen@.len() - k,
    {
        if !package_allows(&index.packages[chosen[k]].package, name, v) {
            assert(!allows(pkg(*index, chosen@[k as int]), name@, v@));
            return false;
        }
        k = k + 1;
    }
    let mut l: usize = 0;
    while l < project.locked.len()
        invariant
            l <= project.locked@.len(),
            forall|m: int| 0 <= m < chosen@.len() ==> #[trigger] chosen@[m] < index.packages@.len(),
            forall|m: int| 0 <= m < chosen@.len() ==> allows(#[trigger] pkg(*index, chosen@[m]), name@, v@),
            forall|m: int|
                0 <= m < l && !replaced(*index, *project, chosen@, m) ==> allows(
                    #[trigger] project.locked@[m],
                    name@,
                    v@,
                ),
        decreases project.locked@.len() - l,
    {
        if !is_replaced(index, project, chosen, l) && !package_allows(&project.locked[l], name, v) {
            return false;
        }
        l = l + 1;
    }
    true
}


/// Package `i` may be picked for `name`: not yanked, a release unless
/// pre-releases are allowed, and within every range put on the name.
pub open spec fn candidate(
    index: PackageIndex,
    project: ProjectState,
    chosen: Seq<usize>,
    name: Seq<char>,
    allow_prerelease: bool,
    i: int,
) -> bool {
    let p = index.packages@[i].package;
    &&& p.name@ == name
    &&& !p.yanked
    &&& allow_prerelease || p.version@.pre.len() == 0
    &&& constraints_hold(index, project, chosen, name, p.version@)
}

/// The highest version that may be picked for `name`.
pub fn best_candidate(
    index: &PackageIndex,
    project: &ProjectState,
    chosen: &Vec<usize>,
    name: &str,
    allow_prerelease: bool,
) -> (r: Option<usize>)
    requires
        forall|k: int| 0 <= k < chosen@.len() ==> #[trigger] chosen@[k] < index.packages@.len(),
    ensures
        match r {
            Some(c) => c < index.packages@.len() && candidate(
                *index,
                *project,
                chosen@,
                name@,
                allow_prerelease,
                c as int,
            ) && forall|j: int|
                0 <= j < index.packages@.len() && candidate(
                    *index,
                    *project,
                    chosen@,
                    name@,
                    allow_prerelease,
                    j,
                ) ==> precedence(
                    #[trigger] version_of(index.packages@[j]),
                    version_of(index.packages@[c as int]),
                ) != Ordering::Greater,
            None => forall|j: int|
                0 <= j < index.packages@.len() ==> !candidate(
                    *index,
                    *project,
                    chosen@,
                    name@,
                    allow_prerelease,
                    j,
                ),
        },
{
    let mut best: Option<usize> = None;
    let mut i: usize = 0;
    while i < index.packages.len()
        invariant
            i <= index.packages@.len(),
            forall|k: int| 0 <= k < chosen@.len() ==> #[trigger] chosen@[k] < index.packages@.len(),
            match best {
                Some(b) => b < i && candidate(*index, *project, chosen@, name@, allow_prerelease, b as int)
                    && forall|j: int|
                    0 <= j < i && candidate(*index, *project, chosen@, name@, allow_prerelease, j)
                        ==> precedence(
                        #[trigger] version_of(index.packages@[j]),
                        version_of(index.packages@[b as int]),
                    ) != Ordering::Greater,
                None => forall|j: int|
                    0 <= j < i ==> !candidate(*index, *project, chosen@, name@, allow_prerelease, j),
            },
        decreases index.packages@.len() - i,
    {
        let p = &index.packages[i].package;
        let ok = text_eq(p.name.as_str(), name) && !p.yanked && (allow_prerelease || p.version.pre.len()
            == 0) && constraints_met(index, project, chosen, name, &p.version);
        if ok {
            proof {
                lemma_precedence_laws(p.version@, p.version@, p.version@);
            }
            match best {
                None => {
                    best = Some(i);
                },
                Some(b) => {
                    let vb = &index.packages[b].package.version;
                    if vb.precedes(&p.version) {
                        proof {
                            assert forall|j: int|
                                0 <= j < i && candidate(*index, *project, chosen@, name@, allow_prerelease, j)
                                    implies precedence(
                                    #[trigger] version_of(index.packages@[j]),
                                    version_of(index.packages@[i as int]),
                                ) != Ordering::Greater by {
                                lemma_precedence_laws(version_of(index.packages@[j]), vb@, p.version@);
                            }
                        }
                        best = Some(i);
                    } else {
                        proof {
                            lemma_precedence_laws(vb@, p.version@, vb@);
                        }
                    }
                },
            }
        }
        i = i + 1;
    }
    best
}

/// The dependency `e` is met: by the chosen package of that name, or, where no
/// package of that name is chosen, by the locked one.
pub open spec fn dep_met(
    index: PackageIndex,
    project: ProjectState,
    chosen: Seq<usize>,
    e: (Seq<char>, VersionRange),
) -> bool {
    ||| exists|m: int|
        0 <= m < chosen.len() && #[trigger] pkg(index, chosen[m]).name@ == e.0 && range_matches(
            e.1,
            pkg(index, chosen[m]).version@,
        )
    ||| (forall|m: int| 0 <= m < chosen.len() ==> #[trigger] pkg(index, chosen[m]).name@ != e.0)
        && exists|l: int|
        0 <= l < project.locked@.len() && #[trigger] project.locked@[l].name@ == e.0 && range_matches(
            e.1,
            project.locked@[l].version@,
        )
}

/// The first `upto` dependencies of `p` are met.
pub open spec fn deps_met(
    index: PackageIndex,
    project: ProjectState,
    chosen: Seq<usize>,
    p: PackageJson,
    upto: int,
) -> bool {
    forall|d: int| 0 <= d < upto ==> dep_met(index, project, chosen, #[trigger] deps_of(p)[d])
}

/// No two chosen packages share a name.
pub open spec fn names_distinct(index: PackageIndex, chosen: Seq<usize>) -> bool {
    forall|a: int, b: int|
        0 <= a < chosen.len() && 0 <= b < chosen.len() && a != b ==> #[trigger] pkg(index, chosen[a]).name@
            != #[trigger] pkg(index, chosen[b]).name@
}

/// The package added at position `k` was the highest version that could be
/// picked for its name given the packages chosen before it.
pub open spec fn picked_best(
    index: PackageIndex,
    project: ProjectState,
    chosen: Seq<usize>,
    allow_prerelease: bool,
    k: int,
) -> bool {
    let c = chosen[k];
    let before = chosen.take(k);
    let name = pkg(index, c).name@;
    &&& candidate(index, project, before, name, allow_prerelease, c as int)
    &&& forall|j: int|
        0 <= j < index.packages@.len() && candidate(index, project, before, name, allow_prerelease, j)
            ==> precedence(
            #[trigger] version_of(index.packages@[j]),
            version_of(index.packages@[c as int]),
        ) != Ordering::Greater
}

/// What a successful resolution owes: the requested packages first, then the
/// packages added for dependencies, all names distinct, every dependency of
/// every chosen package met, and each added package the highest version that
/// could be picked when it was added.
pub open spec fn resolved(
    index: PackageIndex,
    project: ProjectState,
    requested: Seq<usize>,
    chosen: Seq<usize>,
    allow_prerelease: bool,
) -> bool {
    &&& chosen.len() >= requested.len()
    &&& chosen.subrange(0, requested.len() as int) == requested
    &&& forall|k: int| 0 <= k < chosen.len() ==> #[trigger] chosen[k] < index.packages@.len()
    &&& names_distinct(index, chosen)
    &&& forall|k: int|
        0 <= k < chosen.len() ==> deps_met(
            index,
            project,
            chosen,
            #[trigger] pkg(index, chosen[k]),
            deps_of(pkg(index, chosen[k])).len() as int,
        )
    &&& forall|k: int|
        requested.len() <= k < chosen.len() ==> #[trigger] picked_best(index, project, chosen, allow_prerelease, k)
}

proof fn lemma_push_keeps_met(
    index: PackageIndex,
    project: ProjectState,
    chosen: Seq<usize>,
    c: usize,
    p: PackageJson,
    upto: int,
)
    requires
        deps_met(index, project, chosen, p, upto),
        upto <= deps_of(p).len(),
        forall|m: int| 0 <= m < chosen.len() ==> #[trigger] pkg(index, chosen[m]).name@ != pkg(index, c).name@,
        allows(p, pkg(index, c).name@, pkg(index, c).version@),
    ensures
        deps_met(index, project, chosen.push(c), p, upto),
{
    let nc = chosen.push(c);
    assert forall|d: int| 0 <= d < upto implies dep_met(index, project, nc, #[trigger] deps_of(p)[d]) by {
        let e = deps_of(p)[d];
        assert(nc[chosen.len() as int] == c);
        if e.0 == pkg(index, c).name@ {
            assert(pkg(index, nc[chosen.len() as int]).name@ == e.0);
        } else {
            assert(dep_met(index, project, chosen, e));
            if exists|m: int|
                0 <= m < chosen.len() && #[trigger] pkg(index, chosen[m]).name@ == e.0 && range_matches(
                    e.1,
                    pkg(index, chosen[m]).version@,
                ) {
                let m = choose|m: int|
                    0 <= m < chosen.len() && #[trigger] pkg(index, chosen[m]).name@ == e.0 && range_matches(
                        e.1,
                        pkg(index, chosen[m]).version@,
                    );
                assert(nc[m] == chosen[m]);
                assert(pkg(index, nc[m]).name@ == e.0);
            } else {
                assert forall|m: int| 0 <= m < nc.len() implies #[trigger] pkg(index, nc[m]).name@ != e.0 by {
                    if m < chosen.len() {
                        assert(nc[m] == chosen[m]);
                    }
                }
            }
        }
    }
}

/// Packages with distinct names sit at distinct positions, so there are no
/// more of them than the index holds.
proof fn lemma_names_bound(index: PackageIndex, chosen: Seq<usize>)
    requires
        names_distinct(index, chosen),
        forall|k: int| 0 <= k < chosen.len() ==> #[trigger] chosen[k] < index.packages@.len(),
    ensures
        chosen.len() <= index.packages@.len(),
{
    assert forall|a: int, b: int|
        0 <= a < chosen.len() && 0 <= b < chosen.len() && a != b implies chosen[a] != chosen[b] by {
        assert(pkg(index, chosen[a]).name@ != pkg(index, chosen[b]).name@);
    }
    lemma_distinct_positions(chosen, index.packages@.len());
}

fn find_chosen(index: &PackageIndex, chosen: &Vec<usize>, name: &str) -> (r: Option<usize>)
    requires
        forall|k: int| 0 <= k < chosen@.len() ==> #[trigger] chosen@[k] < index.packages@.len(),
    ensures
        match r {
            Some(m) => m < chosen@.len() && pkg(*index, chosen@[m as int]).name@ == name@,
            None => forall|m: int| 0 <= m < chosen@.len() ==> #[trigger] pkg(*index, chosen@[m]).name@ != name@,
        },
{
    let mut m: usize = 0;
    while m < chosen.len()
        invariant
            m <= chosen@.len(),
            forall|k: int| 0 <= k < chosen@.len() ==> #[trigger] chosen@[k] < index.packages@.len(),
            forall|k: int| 0 <= k < m ==> #[trigger] pkg(*index, chosen@[k]).name@ != name@,
        decreases chosen@.len() - m,
    {
        if text_eq(index.packages[chosen[m]].package.name.as_str(), name) {
            return Some(m);
        }
        m = m + 1;
    }
    None
}

fn solving_error(package: &str, required_by: &String) -> (e: VersionSolvingError)
    ensures
        e.package@ == package@,
        e.required_by@ == required_by@,
{
    VersionSolvingError { package: String::from_str(package), required_by: required_by.clone() }
}

/// A resolution in progress: the requested packages first, distinct names,
/// and each added package the best pick when it was added.
pub open spec fn partial_resolution(
    index: PackageIndex,
    project: ProjectState,
    requested: Seq<usize>,
    chosen: Seq<usize>,
    allow_prerelease: bool,
) -> bool {
    &&& chosen.len() >= requested.len()
    &&& chosen.subrange(0, requested.len() as int) == requested
    &&& forall|k: int| 0 <= k < chosen.len() ==> #[trigger] chosen[k] < index.packages@.len()
    &&& names_distinct(index, chosen)
    &&& forall|k: int|
        requested.len() <= k < chosen.len() ==> #[trigger] picked_best(index, project, chosen, allow_prerelease, k)
}

/// Dependency `e` cannot be met: the chosen package of its name is outside
/// the range; or no package of its name is chosen, no locked one meets the
/// ranges put on the name, and no catalog entry may be picked.
pub open spec fn dep_unmet(
    index: PackageIndex,
    project: ProjectState,
    chosen: Seq<usize>,
    allow_prerelease: bool,
    e: (Seq<char>, VersionRange),
) -> bool {
    ||| exists|m: int|
        0 <= m < chosen.len() && #[trigger] pkg(index, chosen[m]).name@ == e.0 && !range_matches(
            e.1,
            pkg(index, chosen[m]).version@,
        )
    ||| {
        &&& forall|m: int| 0 <= m < chosen.len() ==> #[trigger] pkg(index, chosen[m]).name@ != e.0
        &&& forall|l: int|
            0 <= l < project.locked@.len() && #[trigger] project.locked@[l].name@ == e.0 ==> !constraints_hold(
                index,
                project,
                chosen,
                e.0,
                project.locked@[l].version@,
            )
        &&& forall|j: int| 0 <= j < index.packages@.len() ==> !candidate(index, project, chosen, e.0, allow_prerelease, j)
    }
}

/// Resolution stopped at dependency `d` of chosen package `k`, which `err` names.
pub open spec fn fails_at(
    index: PackageIndex,
    project: ProjectState,
    requested: Seq<usize>,
    allow_prerelease: bool,
    chosen: Seq<usize>,
    k: int,
    d: int,
    err: VersionSolvingError,
) -> bool {
    &&& partial_resolution(index, project, requested, chosen, allow_prerelease)
    &&& 0 <= k < chosen.len()
    &&& 0 <= d < deps_of(pkg(index, chosen[k])).len()
    &&& err.required_by@ == pkg(index, chosen[k]).name@
    &&& err.package@ == deps_of(pkg(index, chosen[k]))[d].0
    &&& dep_unmet(index, project, chosen, allow_prerelease, deps_of(pkg(index, chosen[k]))[d])
}

/// Resolution fails with `err`: some resolution reachable from the request
/// has a dependency that nothing can meet.
pub open spec fn solving_failed(
    index: PackageIndex,
    project: ProjectState,
    requested: Seq<usize>,
    allow_prerelease: bool,
    err: VersionSolvingError,
) -> bool {
    exists|chosen: Seq<usize>, k: int, d: int|
        #[trigger] fails_at(index, project, requested, allow_prerelease, chosen, k, d, err)
}

/// Resolves the dependency closure of the requested packages (positions in the
/// index) by intersecting the ranges put on each name, with no backtracking.
pub fn resolve_dependencies(
    index: &PackageIndex,
    project: &ProjectState,
    requested: &Vec<usize>,
    allow_prerelease: bool,
) -> (r: Result<Vec<usize>, VersionSolvingError>)
    requires
        forall|k: int| 0 <= k < requested@.len() ==> #[trigger] requested@[k] < index.packages@.len(),
        names_distinct(*index, requested@),
        project.wf(),
    ensures
        match r {
            Ok(chosen) => resolved(*index, *project, requested@, chosen@, allow_prerelease),
            Err(e) => solving_failed(*index, *project, requested@, allow_prerelease, e),
        },
{
    let mut chosen: Vec<usize> = Vec::new();
    let mut t: usize = 0;
    while t < requested.len()
        invariant
            t <= requested@.len(),
            chosen@ == requested@.subrange(0, t as int),
        decreases requested@.len() - t,
    {
        chosen.push(requested[t]);
        assert(chosen@ =~= requested@.subrange(0, t + 1));
        t = t + 1;
    }
    assert(chosen@ =~= requested@);
    let mut i: usize = 0;
    while i < chosen.len()
        invariant
            i <= chosen@.len(),
            chosen@.len() >= requested@.len(),
            chosen@.subrange(0, requested@.len() as int) == requested@,
            forall|k: int| 0 <= k < chosen@.len() ==> #[trigger] chosen@[k] < index.packages@.len(),
            names_distinct(*index, chosen@),
            project.wf(),
            forall|k: int|
                0 <= k < i ==> deps_met(
                    *index,
                    *project,
                    chosen@,
                    #[trigger] pkg(*index, chosen@[k]),
                    deps_of(pkg(*index, chosen@[k])).len() as int,
                ),
            forall|k: int|
                requested@.len() <= k < chosen@.len() ==> #[trigger] picked_best(
                    *index,
                    *project,
                    chosen@,
                    allow_prerelease,
                    k,
                ),
        decreases index.packages@.len() - i,
    {
        proof {
            lemma_names_bound(*index, chosen@);
        }
        let p_idx = chosen[i];
        let p = &index.packages[p_idx].package;
        let nd = dependency_count(&p.vpm_dependencies);
        let mut d: usize = 0;
        while d < nd
            invariant
                i < chosen@.len(),
                chosen@.len() <= index.packages@.len(),
                p_idx == chosen@[i as int],
                *p == pkg(*index, p_idx),
                nd == deps_of(*p).len(),
                d <= nd,
                chosen@.len() >= requested@.len(),
                chosen@.subrange(0, requested@.len() as int) == requested@,
                forall|k: int| 0 <= k < chosen@.len() ==> #[trigger] chosen@[k] < index.packages@.len(),
                names_distinct(*index, chosen@),
                project.wf(),
                forall|k: int|
                    0 <= k < i ==> deps_met(
                        *index,
                        *project,
                        chosen@,
                        #[trigger] pkg(*index, chosen@[k]),
                        deps_of(pkg(*index, chosen@[k])).len() as int,
                    ),
                deps_met(*index, *project, chosen@, *p, d as int),
                forall|k: int|
                    requested@.len() <= k < chosen@.len() ==> #[trigger] picked_best(
                        *index,
                        *project,
                        chosen@,
                        allow_prerelease,
                        k,
                    ),
            decreases nd - d,
        {
            let (n, range) = match dependency_at(&p.vpm_dependencies, d) {
                Some(e) => e,
                None => {
                    assert(false);
                    return Err(solving_error(p.name.as_str(), &p.name));
                },
            };
            let ghost e = deps_of(*p)[d as int];
            match find_chosen(index, &chosen, n.as_str()) {
                Some(m) => {
                    if !range.matches(&index.packages[chosen[m]].package.version) {
                        let err = solving_error(n.as_str(), &p.name);
                        assert(pkg(*index, chosen@[m as int]).name@ == e.0);
                        assert(fails_at(*index, *project, requested@, allow_prerelease, chosen@, i as int, d as int, err));
                        return Err(err);
                    }
                    assert(pkg(*index, chosen@[m as int]).name@ == e.0);
                },
                None => {
                    let keep = match project.find_locked(n.as_str()) {
                        Some(l) => {
                            assert forall|l2: int|
                                0 <= l2 < project.locked@.len() && #[trigger] project.locked@[l2].name@ == e.0
                                    implies l2 == l by {
                                if l2 != l {
                                    assert(project.locked@[l2].name@ != project.locked@[l as int].name@);
                                }
                            }
                            if constraints_met(index, project, &chosen, n.as_str(), &project.locked[l].version) {
                                assert(allows(pkg(*index, chosen@[i as int]), e.0, project.locked@[l as int].version@));
                                assert(deps_of(*p)[d as int].0 == e.0);
                                assert(project.locked@[l as int].name@ == e.0);
                                true
                            } else {
                                false
                            }
                        },
                        None => false,
                    };
                    if !keep {
                        match best_candidate(index, project, &chosen, n.as_str(), allow_prerelease) {
                            None => {
                                let err = solving_error(n.as_str(), &p.name);
                                assert(fails_at(*index, *project, requested@, allow_prerelease, chosen@, i as int, d as int, err));
                                return Err(err);
                            },
                            Some(c) => {
                                let ghost old_chosen = chosen@;
                                proof {
                                    assert forall|k: int|
                                        0 <= k < old_chosen.len() implies allows(
                                        #[trigger] pkg(*index, old_chosen[k]),
                                        pkg(*index, c).name@,
                                        pkg(*index, c).version@,
                                    ) by {}
                                    assert forall|k: int|
                                        0 <= k < i implies deps_met(
                                        *index,
                                        *project,
                                        old_chosen.push(c),
                                        #[trigger] pkg(*index, old_chosen[k]),
                                        deps_of(pkg(*index, old_chosen[k])).len() as int,
                                    ) by {
                                        lemma_push_keeps_met(
                                            *index,
                                            *project,
                                            old_chosen,
                                            c,
                                            pkg(*index, old_chosen[k]),
                                            deps_of(pkg(*index, old_chosen[k])).len() as int,
                                        );
                                    }
                                    lemma_push_keeps_met(*index, *project, old_chosen, c, *p, d as int);
                                }
                                chosen.push(c);
                                proof {
                                    let nc = chosen@;
                                    assert(nc[old_chosen.len() as int] == c);
                                    assert(pkg(*index, nc[old_chosen.len() as int]).name@ == e.0);
                                    assert(nc.subrange(0, requested@.len() as int) =~= old_chosen.subrange(
                                        0,
                                        requested@.len() as int,
                                    ));
                                    assert forall|k: int| 0 <= k < i implies #[trigger] nc[k] == old_chosen[k] by {}
                                    assert forall|a: int, b: int|
                                        0 <= a < nc.len() && 0 <= b < nc.len() && a != b implies #[trigger] pkg(
                                        *index,
                                        nc[a],
                                    ).name@ != #[trigger] pkg(*index, nc[b]).name@ by {
                                        if a < old_chosen.len() && b < old_chosen.len() {
                                            assert(nc[a] == old_chosen[a] && nc[b] == old_chosen[b]);
                                        } else if a < old_chosen.len() {
                                            assert(nc[a] == old_chosen[a]);
                                        } else {
                                            assert(nc[b] == old_chosen[b]);
                                        }
                                    }
                                    assert(dep_met(*index, *project, nc, e));
                                    lemma_names_bound(*index, nc);
                                    assert(nc.take(old_chosen.len() as int) =~= old_chosen);
                                    assert forall|k: int|
                                        requested@.len() <= k < nc.len() implies #[trigger] picked_best(
                                        *index,
                                        *project,
                                        nc,
                                        allow_prerelease,
                                        k,
                                    ) by {
                                        assert(nc.take(k) =~= old_chosen.take(k)) by {
                                            if k < old_chosen.len() {
                                                assert(nc[k] == old_chosen[k]);
                                            }
                                        }
                                        if k < old_chosen.len() {
                                            assert(picked_best(*index, *project, old_chosen, allow_prerelease, k));
                                            assert(nc[k] == old_chosen[k]);
                                        }
                                    }
                                }
                            },
                        }
                    }
                },
            }
            d = d + 1;
        }
        i = i + 1;
    }
    Ok(chosen)
}

} // verus!
