use crate::index::PackageIndex;
use crate::package::{dependency_at, dependency_count, deps_of, tag_view, unity_below, LegacyAsset, PackageJson};
use crate::planner::{
    is_replaced, pkg, replaced, resolve_dependencies, resolved, AddPackageOperation, ProjectState,
    VersionSolvingError, names_distinct, solving_failed,
};
use vstd::prelude::*;

verus! {

/// Why a package leaves the project.
#[derive(PartialEq, Eq, Structural, Clone, Copy, Debug)]
pub enum RemoveReason {
    Requested,
    Legacy,
    Unused,
}

/// What happens to one package: installed from the given index position, or removed.
#[derive(PartialEq, Eq, Structural, Clone, Copy, Debug)]
pub enum PackageChange {
    Install(usize),
    Remove(RemoveReason),
}

/// The packages a package conflicts with, and whether the host version is too old for it.
pub struct ConflictInfo {
    pub packages: Vec<String>,
    pub unity_conflict: bool,
}

/// A computed plan: package changes (installs first, in resolution order, then
/// removals), legacy files and folders to delete, the conflicts found, and the
/// names to record as new top-level dependencies.
pub struct PendingChanges {
    pub package_changes: Vec<(String, PackageChange)>,
    pub remove_legacy_files: Vec<String>,
    pub remove_legacy_folders: Vec<String>,
    pub conflicts: Vec<(String, ConflictInfo)>,
    pub new_dependencies: Vec<String>,
}

pub open spec fn declared_assets(p: PackageJson, folders: bool) -> Seq<LegacyAsset> {
    if folders {
        p.legacy_folders@
    } else {
        p.legacy_files@
    }
}

pub open spec fn present_assets(project: ProjectState, folders: bool) -> Seq<LegacyAsset> {
    if folders {
        project.legacy_folders@
    } else {
        project.legacy_files@
    }
}

/// A declaration owns a present asset when both carry the same tag, or when
/// the paths agree and at most one of them carries a tag.
pub open spec fn asset_matches(declared: LegacyAsset, present: LegacyAsset) -> bool {
    ||| declared.tag is Some && tag_view(declared.tag) == tag_view(present.tag)
    ||| declared.path@ == present.path@ && (declared.tag is None || present.tag is None)
}

pub open spec fn claims(p: PackageJson, folders: bool, a: LegacyAsset) -> bool {
    exists|d: int|
        0 <= d < declared_assets(p, folders).len() && asset_matches(
            #[trigger] declared_assets(p, folders)[d],
            a,
        )
}

/// Locked package `l` is named as a legacy package by a package being installed
/// and is not itself being installed.
pub open spec fn legacy_alias(index: PackageIndex, project: ProjectState, chosen: Seq<usize>, l: int) -> bool {
    &&& !replaced(index, project, chosen, l)
    &&& exists|k: int, a: int|
        0 <= k < chosen.len() && 0 <= a < pkg(index, chosen[k]).legacy_packages@.len()
            && #[trigger] pkg(index, chosen[k]).legacy_packages@[a]@ == project.locked@[l].name@
}

/// A present legacy asset is superseded when a package being installed, or a
/// legacy package it replaces, claims it.
pub open spec fn superseded(
    index: PackageIndex,
    project: ProjectState,
    chosen: Seq<usize>,
    folders: bool,
    a: LegacyAsset,
) -> bool {
    ||| exists|k: int| 0 <= k < chosen.len() && claims(#[trigger] pkg(index, chosen[k]), folders, a)
    ||| exists|l: int|
        0 <= l < project.locked@.len() && legacy_alias(index, project, chosen, l) && claims(
            #[trigger] project.locked@[l],
            folders,
            a,
        )
}

/// Some present asset at `path` is superseded.
pub open spec fn superseded_path(
    index: PackageIndex,
    project: ProjectState,
    chosen: Seq<usize>,
    folders: bool,
    path: Seq<char>,
) -> bool {
    exists|i: int|
        0 <= i < present_assets(project, folders).len() && (#[trigger] present_assets(project, folders)[i]).path@
            == path && superseded(index, project, chosen, folders, present_assets(project, folders)[i])
}

pub open spec fn path_listed(r: Seq<String>, path: Seq<char>) -> bool {
    exists|k: int| 0 <= k < r.len() && #[trigger] r[k]@ == path
}

/// `r` lists the paths of exactly the superseded present assets.
pub open spec fn asset_removals_exact(
    index: PackageIndex,
    project: ProjectState,
    chosen: Seq<usize>,
    folders: bool,
    r: Seq<String>,
) -> bool {
    &&& forall|k: int| 0 <= k < r.len() ==> superseded_path(index, project, chosen, folders, #[trigger] r[k]@)
    &&& forall|i: int|
        0 <= i < present_assets(project, folders).len() && superseded(
            index,
            project,
            chosen,
            folders,
            #[trigger] present_assets(project, folders)[i],
        ) ==> path_listed(r, present_assets(project, folders)[i].path@)
}

pub open spec fn depends_on(p: PackageJson, name: Seq<char>) -> bool {
    exists|d: int| 0 <= d < deps_of(p).len() && #[trigger] deps_of(p)[d].0 == name
}

pub open spec fn top_level(project: ProjectState, name: Seq<char>) -> bool {
    exists|i: int| 0 <= i < project.dependencies@.len() && #[trigger] project.dependencies@[i]@ == name
}

/// Locked package `l` stays but loses its last dependent: a package being
/// replaced depended on it, and nothing that remains does.
pub open spec fn unused(index: PackageIndex, project: ProjectState, chosen: Seq<usize>, l: int) -> bool {
    let name = project.locked@[l].name@;
    &&& !replaced(index, project, chosen, l)
    &&& !legacy_alias(index, project, chosen, l)
    &&& !top_level(project, name)
    &&& exists|r: int|
        0 <= r < project.locked@.len() && replaced(index, project, chosen, r) && depends_on(
            #[trigger] project.locked@[r],
            name,
        )
    &&& forall|k: int| 0 <= k < chosen.len() ==> !depends_on(#[trigger] pkg(index, chosen[k]), name)
    &&& forall|m: int|
        0 <= m < project.locked@.len() && !replaced(index, project, chosen, m) && !legacy_alias(
            index,
            project,
            chosen,
            m,
        ) ==> !depends_on(#[trigger] project.locked@[m], name)
}

fn text_of(s: &String) -> (r: String)
    ensures
        r@ == s@,
{
    s.clone()
}

fn is_legacy_alias(index: &PackageIndex, project: &ProjectState, chosen: &Vec<usize>, l: usize) -> (r: bool)
    requires
        l < project.locked@.len(),
        forall|k: int| 0 <= k < chosen@.len() ==> #[trigger] chosen@[k] < index.packages@.len(),
    ensures
        r == legacy_alias(*index, *project, chosen@, l as int),
{
    if is_replaced(index, project, chosen, l) {
        return false;
    }
    let mut k: usize = 0;
    while k < chosen.len()
        invariant
            l < project.locked@.len(),
            !replaced(*index, *project, chosen@, l as int),
            k <= chosen@.len(),
            forall|m: int| 0 <= m < chosen@.len() ==> #[trigger] chosen@[m] < index.packages@.len(),
            forall|m: int, a: int|
                0 <= m < k && 0 <= a < pkg(*index, chosen@[m]).legacy_packages@.len() ==> #[trigger] pkg(
                    *index,
                    chosen@[m],
                ).legacy_packages@[a]@ != project.locked@[l as int].name@,
        decreases chosen@.len() - k,
    {
        let p = &index.packages[chosen[k]].package;
        let mut a: usize = 0;
        while a < p.legacy_packages.len()
            invariant
                l < project.locked@.len(),
                !replaced(*index, *project, chosen@, l as int),
                k < chosen@.len(),
                *p == pkg(*index, chosen@[k as int]),
                a <= p.legacy_packages@.len(),
                forall|b: int|
                    0 <= b < a ==> #[trigger] p.legacy_packages@[b]@ != project.locked@[l as int].name@,
            decreases p.legacy_packages@.len() - a,
        {
            if p.legacy_packages[a] == project.locked[l].name {
                assert(pkg(*index, chosen@[k as int]).legacy_packages@[a as int]@
                    == project.locked@[l as int].name@);
                return true;
            }
            a = a + 1;
        }
        k = k + 1;
    }
    false
}

/// Locked packages that a package being installed names as legacy.
pub fn legacy_package_removals(index: &PackageIndex, project: &ProjectState, chosen: &Vec<usize>) -> (r: Vec<usize>)
    requires
        forall|k: int| 0 <= k < chosen@.len() ==> #[trigger] chosen@[k] < index.packages@.len(),
    ensures
        forall|k: int|
            0 <= k < r@.len() ==> #[trigger] r@[k] < project.locked@.len() && legacy_alias(
                *index,
                *project,
                chosen@,
                r@[k] as int,
            ),
        forall|l: int|
            0 <= l < project.locked@.len() && legacy_alias(*index, *project, chosen@, l) ==> exists|k: int| 0 <= k < r@.len() && #[trigger] r@[k] as int == l,
{
    let mut r: Vec<usize> = Vec::new();
    let mut l: usize = 0;
    while l < project.locked.len()
        invariant
            l <= project.locked@.len(),
            forall|k: int| 0 <= k < chosen@.len() ==> #[trigger] chosen@[k] < index.packages@.len(),
            forall|k: int|
                0 <= k < r@.len() ==> #[trigger] r@[k] < l && legacy_alias(
                    *index,
                    *project,
                    chosen@,
                    r@[k] as int,
                ),
            forall|m: int|
                0 <= m < l && legacy_alias(*index, *project, chosen@, m) ==> exists|k: int|
                    0 <= k < r@.len() && #[trigger] r@[k] as int == m,
        decreases project.locked@.len() - l,
    {
        if is_legacy_alias(index, project, chosen, l) {
            let ghost before = r@;
            r.push(l);
            assert(r@[before.len() as int] == l);
            assert forall|m: int|
                0 <= m < l + 1 && legacy_alias(*index, *project, chosen@, m) implies exists|k: int|
                0 <= k < r@.len() && #[trigger] r@[k] as int == m by {
                if m < l {
                    assert(position_listed(before, m));
                    let k = choose|k: int| 0 <= k < before.len() && #[trigger] before[k] as int == m;
                    assert(r@[k] == before[k]);
                } else {
                    assert(r@[before.len() as int] as int == m);
                }
            }
        }
        l = l + 1;
    }
    r
}

fn claims_exec(p: &PackageJson, folders: bool, a: &LegacyAsset) -> (r: bool)
    ensures
        r == claims(*p, folders, *a),
{
    let list = if folders {
        &p.legacy_folders
    } else {
        &p.legacy_files
    };
    let mut d: usize = 0;
    while d < list.len()
        invariant
            list@ == declared_assets(*p, folders),
            d <= list@.len(),
            forall|e: int| 0 <= e < d ==> !asset_matches(#[trigger] list@[e], *a),
        decreases list@.len() - d,
    {
        let decl = &list[d];
        let same_tag = match (&decl.tag, &a.tag) {
            (Some(x), Some(y)) => *x == *y,
            _ => false,
        };
        let untagged = decl.tag.is_none() || a.tag.is_none();
        if same_tag || (decl.path == a.path && untagged) {
            assert(asset_matches(list@[d as int], *a));
            return true;
        }
        d = d + 1;
    }
    false
}

fn is_superseded(
    index: &PackageIndex,
    project: &ProjectState,
    chosen: &Vec<usize>,
    legacy: &Vec<usize>,
    folders: bool,
    a: &LegacyAsset,
) -> (r: bool)
    requires
        forall|k: int| 0 <= k < chosen@.len() ==> #[trigger] chosen@[k] < index.packages@.len(),
        forall|k: int|
            0 <= k < legacy@.len() ==> #[trigger] legacy@[k] < project.locked@.len() && legacy_alias(
                *index,
                *project,
                chosen@,
                legacy@[k] as int,
            ),
        forall|l: int|
            0 <= l < project.locked@.len() && legacy_alias(*index, *project, chosen@, l) ==> exists|k: int| 0 <= k < legacy@.len() && #[trigger] legacy@[k] as int == l,
    ensures
        r == superseded(*index, *project, chosen@, folders, *a),
{
    let mut k: usize = 0;
    while k < chosen.len()
        invariant
            k <= chosen@.len(),
            forall|m: int| 0 <= m < chosen@.len() ==> #[trigger] chosen@[m] < index.packages@.len(),
            forall|m: int| 0 <= m < k ==> !claims(#[trigger] pkg(*index, chosen@[m]), folders, *a),
        decreases chosen@.len() - k,
    {
        if claims_exec(&index.packages[chosen[k]].package, folders, a) {
            assert(claims(pkg(*index, chosen@[k as int]), folders, *a));
            return true;
        }
        k = k + 1;
    }
    let mut j: usize = 0;
    while j < legacy.len()
        invariant
            j <= legacy@.len(),
            forall|m: int|
                0 <= m < legacy@.len() ==> #[trigger] legacy@[m] < project.locked@.len() && legacy_alias(
                    *index,
                    *project,
                    chosen@,
                    legacy@[m] as int,
                ),
            forall|m: int| 0 <= m < j ==> !claims(project.locked@[#[trigger] legacy@[m] as int], folders, *a),
        decreases legacy@.len() - j,
    {
        if claims_exec(&project.locked[legacy[j]], folders, a) {
            assert(legacy@[j as int] < project.locked@.len());
            return true;
        }
        j = j + 1;
    }
    assert forall|l: int|
        0 <= l < project.locked@.len() && legacy_alias(*index, *project, chosen@, l) implies !claims(
        #[trigger] project.locked@[l],
        folders,
        *a,
    ) by {
        let m = choose|m: int| 0 <= m < legacy@.len() && #[trigger] legacy@[m] as int == l;
        assert(!claims(project.locked@[legacy@[m] as int], folders, *a));
    }
    false
}

/// The present legacy assets (files, or folders) that the plan deletes: exactly
/// the superseded ones, in the order the project lists them.
pub fn legacy_asset_removals(
    index: &PackageIndex,
    project: &ProjectState,
    chosen: &Vec<usize>,
    legacy: &Vec<usize>,
    folders: bool,
) -> (r: Vec<String>)
    requires
        forall|k: int| 0 <= k < chosen@.len() ==> #[trigger] chosen@[k] < index.packages@.len(),
        forall|k: int|
            0 <= k < legacy@.len() ==> #[trigger] legacy@[k] < project.locked@.len() && legacy_alias(
                *index,
                *project,
                chosen@,
                legacy@[k] as int,
            ),
        forall|l: int|
            0 <= l < project.locked@.len() && legacy_alias(*index, *project, chosen@, l) ==> exists|k: int| 0 <= k < legacy@.len() && #[trigger] legacy@[k] as int == l,
    ensures
        asset_removals_exact(*index, *project, chosen@, folders, r@),
{
    let present = if folders {
        &project.legacy_folders
    } else {
        &project.legacy_files
    };
    let mut r: Vec<String> = Vec::new();
    let ghost mut src: Seq<int> = Seq::empty();
    let mut i: usize = 0;
    while i < present.len()
        invariant
            present@ == present_assets(*project, folders),
            i <= present@.len(),
            forall|k: int| 0 <= k < chosen@.len() ==> #[trigger] chosen@[k] < index.packages@.len(),
            forall|k: int|
                0 <= k < legacy@.len() ==> #[trigger] legacy@[k] < project.locked@.len() && legacy_alias(
                    *index,
                    *project,
                    chosen@,
                    legacy@[k] as int,
                ),
            forall|l: int|
                0 <= l < project.locked@.len() && legacy_alias(*index, *project, chosen@, l) ==> exists|k: int|
                    0 <= k < legacy@.len() && #[trigger] legacy@[k] as int == l,
            src.len() == r@.len(),
            forall|k: int|
                0 <= k < r@.len() ==> 0 <= #[trigger] src[k] < i && r@[k]@ == present@[src[k]].path@
                    && superseded(*index, *project, chosen@, folders, present@[src[k]]),
            forall|j: int|
                0 <= j < i && superseded(*index, *project, chosen@, folders, #[trigger] present@[j])
                    ==> exists|k: int| 0 <= k < r@.len() && src[k] == j,
        decreases present@.len() - i,
    {
        if is_superseded(index, project, chosen, legacy, folders, &present[i]) {
            let ghost before = r@;
            let ghost src0 = src;
            r.push(text_of(&present[i].path));
            proof {
                src = src.push(i as int);
                assert forall|j: int|
                    0 <= j < i + 1 && superseded(*index, *project, chosen@, folders, #[trigger] present@[j])
                        implies exists|k: int| 0 <= k < r@.len() && src[k] == j by {
                    if j < i {
                        let k = choose|k: int| 0 <= k < before.len() && src0[k] == j;
                        assert(src[k] == j);
                    } else {
                        assert(src[before.len() as int] == j);
                    }
                }
            }
        }
        i = i + 1;
    }
    assert forall|k: int| 0 <= k < r@.len() implies superseded_path(
        *index,
        *project,
        chosen@,
        folders,
        #[trigger] r@[k]@,
    ) by {
        let j = src[k];
        assert(r@[k]@ == present_assets(*project, folders)[j].path@);
        assert(superseded(*index, *project, chosen@, folders, present_assets(*project, folders)[j]));
    }
    assert forall|j: int|
        0 <= j < present_assets(*project, folders).len() && superseded(
            *index,
            *project,
            chosen@,
            folders,
            #[trigger] present_assets(*project, folders)[j],
        ) implies exists|k: int| 0 <= k < r@.len() && #[trigger] r@[k]@ == present_assets(*project, folders)[j].path@ by {
        assert(superseded(*index, *project, chosen@, folders, present@[j]));
        let k = choose|k: int| 0 <= k < r@.len() && src[k] == j;
        assert(r@[k]@ == present@[j].path@);
        assert(path_listed(r@, present@[j].path@));
    }
    r
}

fn package_depends_on(p: &PackageJson, name: &String) -> (r: bool)
    ensures
        r == depends_on(*p, name@),
{
    let n = dependency_count(&p.vpm_dependencies);
    let mut d: usize = 0;
    while d < n
        invariant
            n == deps_of(*p).len(),
            d <= n,
            forall|e: int| 0 <= e < d ==> #[trigger] deps_of(*p)[e].0 != name@,
        decreases n - d,
    {
        match dependency_at(&p.vpm_dependencies, d) {
            Some((k, _)) => {
                if *k == *name {
                    return true;
                }
            },
            None => {},
        }
        d = d + 1;
    }
    false
}

fn is_top_level(project: &ProjectState, name: &String) -> (r: bool)
    ensures
        r == top_level(*project, name@),
{
    let mut i: usize = 0;
    while i < project.dependencies.len()
        invariant
            i <= project.dependencies@.len(),
            forall|j: int| 0 <= j < i ==> #[trigger] project.dependencies@[j]@ != name@,
        decreases project.dependencies@.len() - i,
    {
        if project.dependencies[i] == *name {
            return true;
        }
        i = i + 1;
    }
    false
}

fn is_unused(index: &PackageIndex, project: &ProjectState, chosen: &Vec<usize>, l: usize) -> (r: bool)
    requires
        l < project.locked@.len(),
        forall|k: int| 0 <= k < chosen@.len() ==> #[trigger] chosen@[k] < index.packages@.len(),
    ensures
        r == unused(*index, *project, chosen@, l as int),
{
    let name = &project.locked[l].name;
    if is_replaced(index, project, chosen, l) || is_legacy_alias(index, project, chosen, l) || is_top_level(
        project,
        name,
    ) {
        return false;
    }
    let mut was_needed = false;
    let mut m: usize = 0;
    while m < project.locked.len()
        invariant
            m <= project.locked@.len(),
            l < project.locked@.len(),
            forall|k: int| 0 <= k < chosen@.len() ==> #[trigger] chosen@[k] < index.packages@.len(),
            *name == project.locked@[l as int].name,
            was_needed == exists|x: int|
                0 <= x < m && replaced(*index, *project, chosen@, x) && depends_on(
                    #[trigger] project.locked@[x],
                    name@,
                ),
            forall|x: int|
                0 <= x < m && !replaced(*index, *project, chosen@, x) && !legacy_alias(
                    *index,
                    *project,
                    chosen@,
                    x,
                ) ==> !depends_on(#[trigger] project.locked@[x], name@),
        decreases project.locked@.len() - m,
    {
        let dep = package_depends_on(&project.locked[m], name);
        if dep {
            if is_replaced(index, project, chosen, m) {
                was_needed = true;
            } else if !is_legacy_alias(index, project, chosen, m) {
                return false;
            }
        }
        m = m + 1;
    }
    if !was_needed {
        return false;
    }
    let mut k: usize = 0;
    while k < chosen.len()
        invariant
            k <= chosen@.len(),
            l < project.locked@.len(),
            *name == project.locked@[l as int].name,
            forall|x: int| 0 <= x < chosen@.len() ==> #[trigger] chosen@[x] < index.packages@.len(),
            forall|x: int| 0 <= x < k ==> !depends_on(#[trigger] pkg(*index, chosen@[x]), name@),
        decreases chosen@.len() - k,
    {
        if package_depends_on(&index.packages[chosen[k]].package, name) {
            assert(depends_on(pkg(*index, chosen@[k as int]), name@));
            return false;
        }
        k = k + 1;
    }
    true
}

pub open spec fn position_listed(r: Seq<usize>, l: int) -> bool {
    exists|k: int| 0 <= k < r.len() && #[trigger] r[k] as int == l
}

/// Locked packages that the plan leaves without a dependent.
pub fn unused_removals(index: &PackageIndex, project: &ProjectState, chosen: &Vec<usize>) -> (r: Vec<usize>)
    requires
        forall|k: int| 0 <= k < chosen@.len() ==> #[trigger] chosen@[k] < index.packages@.len(),
    ensures
        forall|k: int|
            0 <= k < r@.len() ==> #[trigger] r@[k] < project.locked@.len() && unused(
                *index,
                *project,
                chosen@,
                r@[k] as int,
            ),
        forall|l: int|
            0 <= l < project.locked@.len() && unused(*index, *project, chosen@, l) ==> position_listed(r@, l),
{
    let mut r: Vec<usize> = Vec::new();
    let mut l: usize = 0;
    while l < project.locked.len()
        invariant
            l <= project.locked@.len(),
            forall|k: int| 0 <= k < chosen@.len() ==> #[trigger] chosen@[k] < index.packages@.len(),
            forall|k: int|
                0 <= k < r@.len() ==> #[trigger] r@[k] < l && unused(*index, *project, chosen@, r@[k] as int),
            forall|m: int| 0 <= m < l && unused(*index, *project, chosen@, m) ==> position_listed(r@, m),
        decreases project.locked@.len() - l,
    {
        if is_unused(index, project, chosen, l) {
            let ghost before = r@;
            r.push(l);
            assert forall|m: int| 0 <= m < l + 1 && unused(*index, *project, chosen@, m) implies position_listed(
                r@,
                m,
            ) by {
                if m < l {
                    assert(position_listed(before, m));
                    let k = choose|k: int| 0 <= k < before.len() && #[trigger] before[k] as int == m;
                    assert(r@[k] == before[k]);
                } else {
                    assert(r@[before.len() as int] as int == m);
                }
            }
        }
        l = l + 1;
    }
    r
}

/// `p` and `q` declare the same legacy path (files with files, folders with
/// folders) under different tags.
pub open spec fn overlap(p: PackageJson, q: PackageJson, folders: bool) -> bool {
    exists|i: int, j: int|
        0 <= i < declared_assets(p, folders).len() && 0 <= j < declared_assets(q, folders).len()
            && #[trigger] declared_assets(p, folders)[i].path@ == #[trigger] declared_assets(
            q,
            folders,
        )[j].path@ && tag_view(declared_assets(p, folders)[i].tag) != tag_view(
            declared_assets(q, folders)[j].tag,
        )
}

pub open spec fn conflicting(p: PackageJson, q: PackageJson) -> bool {
    overlap(p, q, false) || overlap(p, q, true)
}

/// The project's host version is below what `p` needs.
pub open spec fn unity_conflict(project: ProjectState, p: PackageJson) -> bool {
    match (project.unity, p.unity) {
        (Some(h), Some(m)) => unity_below(h, m),
        _ => false,
    }
}

/// Another chosen package named `name` conflicts with chosen package `k`.
pub open spec fn conflict_partner(index: PackageIndex, chosen: Seq<usize>, k: int, name: Seq<char>) -> bool {
    exists|m: int|
        0 <= m < chosen.len() && m != k && conflicting(pkg(index, chosen[k]), #[trigger] pkg(index, chosen[m]))
            && pkg(index, chosen[m]).name@ == name
}

pub open spec fn has_conflict(index: PackageIndex, project: ProjectState, chosen: Seq<usize>, k: int) -> bool {
    ||| unity_conflict(project, pkg(index, chosen[k]))
    ||| exists|m: int|
        0 <= m < chosen.len() && m != k && conflicting(pkg(index, chosen[k]), #[trigger] pkg(index, chosen[m]))
}

/// `info` describes the conflicts of chosen package `k` exactly.
pub open spec fn conflict_info_exact(
    index: PackageIndex,
    project: ProjectState,
    chosen: Seq<usize>,
    k: int,
    info: ConflictInfo,
) -> bool {
    &&& info.unity_conflict == unity_conflict(project, pkg(index, chosen[k]))
    &&& forall|a: int|
        0 <= a < info.packages@.len() ==> conflict_partner(index, chosen, k, #[trigger] info.packages@[a]@)
    &&& forall|m: int|
        0 <= m < chosen.len() && m != k && conflicting(pkg(index, chosen[k]), #[trigger] pkg(index, chosen[m]))
            ==> path_listed(info.packages@, pkg(index, chosen[m]).name@)
}

/// The entry names a chosen package and describes its conflicts exactly.
pub open spec fn entry_describes(
    index: PackageIndex,
    project: ProjectState,
    chosen: Seq<usize>,
    entry: (String, ConflictInfo),
) -> bool {
    exists|k: int|
        0 <= k < chosen.len() && #[trigger] pkg(index, chosen[k]).name@ == entry.0@ && has_conflict(
            index,
            project,
            chosen,
            k,
        ) && conflict_info_exact(index, project, chosen, k, entry.1)
}

pub open spec fn conflicts_sound(
    index: PackageIndex,
    project: ProjectState,
    chosen: Seq<usize>,
    r: Seq<(String, ConflictInfo)>,
) -> bool {
    &&& forall|e: int| 0 <= e < r.len() ==> entry_describes(index, project, chosen, #[trigger] r[e])
    &&& forall|a: int, b: int| 0 <= a < b < r.len() ==> #[trigger] r[a].0@ != #[trigger] r[b].0@
}

/// Every chosen package that has a conflict has an entry.
pub open spec fn conflicts_complete(
    index: PackageIndex,
    project: ProjectState,
    chosen: Seq<usize>,
    r: Seq<(String, ConflictInfo)>,
) -> bool {
    forall|k: int|
        0 <= k < chosen.len() && #[trigger] has_conflict(index, project, chosen, k) ==> exists|e: int|
            0 <= e < r.len() && #[trigger] r[e].0@ == pkg(index, chosen[k]).name@
}

/// Exactly one entry per chosen package that has a conflict.
pub open spec fn conflicts_exact(
    index: PackageIndex,
    project: ProjectState,
    chosen: Seq<usize>,
    r: Seq<(String, ConflictInfo)>,
) -> bool {
    conflicts_sound(index, project, chosen, r) && conflicts_complete(index, project, chosen, r)
}

proof fn lemma_conflicts_sound(
    index: PackageIndex,
    project: ProjectState,
    chosen: Seq<usize>,
    r: Seq<(String, ConflictInfo)>,
    src: Seq<int>,
)
    requires
        src.len() == r.len(),
        names_distinct(index, chosen),
        forall|a: int, b: int| 0 <= a < b < src.len() ==> #[trigger] src[a] < #[trigger] src[b],
        forall|e: int|
            0 <= e < r.len() ==> 0 <= #[trigger] src[e] < chosen.len() && pkg(index, chosen[src[e]]).name@
                == r[e].0@ && has_conflict(index, project, chosen, src[e]) && conflict_info_exact(
                index,
                project,
                chosen,
                src[e],
                r[e].1,
            ),
    ensures
        conflicts_sound(index, project, chosen, r),
{
    assert forall|a: int, b: int| 0 <= a < b < r.len() implies #[trigger] r[a].0@ != #[trigger] r[b].0@ by {
        assert(src[a] < src[b]);
        assert(pkg(index, chosen[src[a]]).name@ != pkg(index, chosen[src[b]]).name@);
    }
    assert forall|e: int| 0 <= e < r.len() implies entry_describes(index, project, chosen, #[trigger] r[e]) by {
        let k = src[e];
        assert(pkg(index, chosen[k]).name@ == r[e].0@);
    }
}

fn overlap_exec(p: &PackageJson, q: &PackageJson, folders: bool) -> (r: bool)
    ensures
        r == overlap(*p, *q, folders),
{
    let lp = if folders {
        &p.legacy_folders
    } else {
        &p.legacy_files
    };
    let lq = if folders {
        &q.legacy_folders
    } else {
        &q.legacy_files
    };
    let mut i: usize = 0;
    while i < lp.len()
        invariant
            lp@ == declared_assets(*p, folders),
            lq@ == declared_assets(*q, folders),
            i <= lp@.len(),
            forall|x: int, y: int|
                0 <= x < i && 0 <= y < lq@.len() && #[trigger] lp@[x].path@ == #[trigger] lq@[y].path@
                    ==> tag_view(lp@[x].tag) == tag_view(lq@[y].tag),
        decreases lp@.len() - i,
    {
        let mut j: usize = 0;
        while j < lq.len()
            invariant
                lp@ == declared_assets(*p, folders),
                lq@ == declared_assets(*q, folders),
                i < lp@.len(),
                j <= lq@.len(),
                forall|x: int, y: int|
                    0 <= x < i && 0 <= y < lq@.len() && #[trigger] lp@[x].path@ == #[trigger] lq@[y].path@
                        ==> tag_view(lp@[x].tag) == tag_view(lq@[y].tag),
                forall|y: int|
                    0 <= y < j && lp@[i as int].path@ == #[trigger] lq@[y].path@ ==> tag_view(lp@[i as int].tag)
                        == tag_view(lq@[y].tag),
            decreases lq@.len() - j,
        {
            if lp[i].path == lq[j].path {
                let same = match (&lp[i].tag, &lq[j].tag) {
                    (Some(x), Some(y)) => *x == *y,
                    (None, None) => true,
                    _ => false,
                };
                if !same {
                    assert(declared_assets(*p, folders)[i as int].path@ == declared_assets(*q, folders)[j as int].path@);
                    return true;
                }
            }
            j = j + 1;
        }
        i = i + 1;
    }
    false
}

fn unity_conflict_exec(project: &ProjectState, p: &PackageJson) -> (r: bool)
    ensures
        r == unity_conflict(*project, *p),
{
    match (&project.unity, &p.unity) {
        (Some(h), Some(m)) => h.0 < m.0 || (h.0 == m.0 && h.1 < m.1),
        _ => false,
    }
}

/// The conflicts among the packages being installed: ambiguous ownership of a
/// legacy path, and host versions below a package's minimum.
pub fn detect_conflicts(index: &PackageIndex, project: &ProjectState, chosen: &Vec<usize>) -> (r: Vec<(String, ConflictInfo)>)
    requires
        forall|k: int| 0 <= k < chosen@.len() ==> #[trigger] chosen@[k] < index.packages@.len(),
        names_distinct(*index, chosen@),
    ensures
        conflicts_exact(*index, *project, chosen@, r@),
{
    let mut r: Vec<(String, ConflictInfo)> = Vec::new();
    let ghost mut src: Seq<int> = Seq::empty();
    let mut k: usize = 0;
    while k < chosen.len()
        invariant
            k <= chosen@.len(),
            forall|x: int| 0 <= x < chosen@.len() ==> #[trigger] chosen@[x] < index.packages@.len(),
            src.len() == r@.len(),
            names_distinct(*index, chosen@),
            forall|a: int, b: int| 0 <= a < b < src.len() ==> #[trigger] src[a] < #[trigger] src[b],
            forall|e: int|
                0 <= e < r@.len() ==> 0 <= #[trigger] src[e] < k && pkg(*index, chosen@[src[e]]).name@
                    == r@[e].0@ && has_conflict(*index, *project, chosen@, src[e]) && conflict_info_exact(
                    *index,
                    *project,
                    chosen@,
                    src[e],
                    r@[e].1,
                ),
            forall|x: int|
                0 <= x < k && has_conflict(*index, *project, chosen@, x) ==> exists|e: int|
                    0 <= e < r@.len() && src[e] == x,
        decreases chosen@.len() - k,
    {
        let p = &index.packages[chosen[k]].package;
        let mut others: Vec<String> = Vec::new();
        let mut m: usize = 0;
        while m < chosen.len()
            invariant
                k < chosen@.len(),
                m <= chosen@.len(),
                forall|x: int| 0 <= x < chosen@.len() ==> #[trigger] chosen@[x] < index.packages@.len(),
                *p == pkg(*index, chosen@[k as int]),
                forall|a: int|
                    0 <= a < others@.len() ==> conflict_partner(*index, chosen@, k as int, #[trigger] others@[a]@),
                forall|x: int|
                    0 <= x < m && x != k && conflicting(*p, #[trigger] pkg(*index, chosen@[x])) ==> path_listed(
                        others@,
                        pkg(*index, chosen@[x]).name@,
                    ),
            decreases chosen@.len() - m,
        {
            if m != k {
                let q = &index.packages[chosen[m]].package;
                if overlap_exec(p, q, false) || overlap_exec(p, q, true) {
                    let ghost before = others@;
                    others.push(text_of(&q.name));
                    proof {
                        assert(*q == pkg(*index, chosen@[m as int]));
                        assert(conflicting(*p, *q));
                        assert(conflict_partner(*index, chosen@, k as int, q.name@));
                        assert(others@[before.len() as int]@ == q.name@);
                        assert forall|a: int| 0 <= a < others@.len() implies conflict_partner(
                            *index,
                            chosen@,
                            k as int,
                            #[trigger] others@[a]@,
                        ) by {
                            if a < before.len() {
                                assert(others@[a] == before[a]);
                            }
                        }
                        assert forall|x: int|
                            0 <= x < m + 1 && x != k && conflicting(*p, #[trigger] pkg(*index, chosen@[x]))
                                implies path_listed(others@, pkg(*index, chosen@[x]).name@) by {
                            if x < m {
                                assert(path_listed(before, pkg(*index, chosen@[x]).name@));
                                let a = choose|a: int| 0 <= a < before.len() && #[trigger] before[a]@ == pkg(*index, chosen@[x]).name@;
                                assert(others@[a] == before[a]);
                            } else {
                                assert(others@[before.len() as int]@ == pkg(*index, chosen@[x]).name@);
                            }
                        }
                    }
                }
            }
            m = m + 1;
        }
        let unity = unity_conflict_exec(project, p);
        if unity || others.len() > 0 {
            let ghost before = r@;
            let ghost src0 = src;
            let info = ConflictInfo { packages: others, unity_conflict: unity };
            assert(conflict_info_exact(*index, *project, chosen@, k as int, info));
            assert(has_conflict(*index, *project, chosen@, k as int)) by {
                if !unity {
                    assert(conflict_partner(*index, chosen@, k as int, info.packages@[0]@));
                }
            }
            r.push((text_of(&p.name), info));
            proof {
                src = src.push(k as int);
                assert forall|e: int| 0 <= e < r@.len() implies 0 <= #[trigger] src[e] < k + 1 && pkg(
                    *index,
                    chosen@[src[e]],
                ).name@ == r@[e].0@ && has_conflict(*index, *project, chosen@, src[e]) && conflict_info_exact(
                    *index,
                    *project,
                    chosen@,
                    src[e],
                    r@[e].1,
                ) by {
                    if e < before.len() {
                        assert(r@[e] == before[e]);
                    }
                }
                assert forall|a: int, b: int| 0 <= a < b < src.len() implies #[trigger] src[a] < #[trigger] src[b] by {
                    if b == src.len() - 1 {
                        assert(src0[a] < k);
                    } else {
                        assert(src0[a] < src0[b]);
                    }
                }
                assert forall|x: int|
                    0 <= x < k + 1 && has_conflict(*index, *project, chosen@, x) implies exists|e: int|
                    0 <= e < r@.len() && src[e] == x by {
                    if x < k {
                        let e = choose|e: int| 0 <= e < before.len() && src0[e] == x;
                        assert(src[e] == x);
                    } else {
                        assert(src[before.len() as int] == x);
                    }
                }
            }
        } else {
            proof {
                if has_conflict(*index, *project, chosen@, k as int) {
                    let m = choose|m: int|
                        0 <= m < chosen@.len() && m != k && conflicting(
                            pkg(*index, chosen@[k as int]),
                            #[trigger] pkg(*index, chosen@[m]),
                        );
                    assert(path_listed(others@, pkg(*index, chosen@[m]).name@));
                }
            }
        }
        k = k + 1;
    }
    proof {
        lemma_conflicts_sound(*index, *project, chosen@, r@, src);
        assert forall|x: int|
            0 <= x < chosen@.len() && #[trigger] has_conflict(*index, *project, chosen@, x) implies exists|e: int|
            0 <= e < r@.len() && #[trigger] r@[e].0@ == pkg(*index, chosen@[x]).name@ by {
            let e = choose|e: int| 0 <= e < r@.len() && src[e] == x;
            assert(r@[e].0@ == pkg(*index, chosen@[x]).name@);
        }
        assert(conflicts_sound(*index, *project, chosen@, r@));
        assert(conflicts_complete(*index, *project, chosen@, r@));
    }
    r
}

/// An entry from position `from` on removes `name` for `reason`.
pub open spec fn removal_listed(
    changes: Seq<(String, PackageChange)>,
    from: int,
    name: Seq<char>,
    reason: RemoveReason,
) -> bool {
    exists|k: int|
        from <= k < changes.len() && #[trigger] changes[k].0@ == name && changes[k].1 == PackageChange::Remove(
            reason,
        )
}

/// The entry removes a locked package, as a legacy package or as unused.
pub open spec fn removal_justified(
    index: PackageIndex,
    project: ProjectState,
    chosen: Seq<usize>,
    entry: (String, PackageChange),
) -> bool {
    exists|l: int|
        0 <= l < project.locked@.len() && #[trigger] project.locked@[l].name@ == entry.0@ && ((entry.1
            == PackageChange::Remove(RemoveReason::Legacy) && legacy_alias(index, project, chosen, l)) || (
        entry.1 == PackageChange::Remove(RemoveReason::Unused) && unused(index, project, chosen, l)))
}

/// What a plan computed from the resolution `chosen` holds.
pub open spec fn plan_describes(
    index: PackageIndex,
    project: ProjectState,
    requested: Seq<usize>,
    operation: AddPackageOperation,
    chosen: Seq<usize>,
    plan: PendingChanges,
) -> bool {
    let changes = plan.package_changes@;
    &&& changes.len() >= chosen.len()
    &&& forall|k: int|
        0 <= k < chosen.len() ==> (#[trigger] changes[k]).0@ == pkg(index, chosen[k]).name@ && changes[k].1
            == PackageChange::Install(chosen[k])
    &&& forall|k: int|
        chosen.len() <= k < changes.len() ==> removal_justified(index, project, chosen, #[trigger] changes[k])
    &&& forall|l: int|
        0 <= l < project.locked@.len() && #[trigger] legacy_alias(index, project, chosen, l) ==> removal_listed(
            changes,
            chosen.len() as int,
            project.locked@[l].name@,
            RemoveReason::Legacy,
        )
    &&& forall|l: int|
        0 <= l < project.locked@.len() && #[trigger] unused(index, project, chosen, l) ==> removal_listed(
            changes,
            chosen.len() as int,
            project.locked@[l].name@,
            RemoveReason::Unused,
        )
    &&& asset_removals_exact(index, project, chosen, false, plan.remove_legacy_files@)
    &&& asset_removals_exact(index, project, chosen, true, plan.remove_legacy_folders@)
    &&& conflicts_exact(index, project, chosen, plan.conflicts@)
    &&& if operation == AddPackageOperation::InstallToDependencies {
        &&& plan.new_dependencies@.len() == requested.len()
        &&& forall|k: int|
            0 <= k < requested.len() ==> (#[trigger] plan.new_dependencies@[k])@ == pkg(index, requested[k]).name@
    } else {
        plan.new_dependencies@.len() == 0
    }
}

fn push_removals(
    changes: &mut Vec<(String, PackageChange)>,
    project: &ProjectState,
    ls: &Vec<usize>,
    reason: RemoveReason,
)
    requires
        forall|j: int| 0 <= j < ls@.len() ==> #[trigger] ls@[j] < project.locked@.len(),
    ensures
        final(changes)@.len() == old(changes)@.len() + ls@.len(),
        forall|k: int| 0 <= k < old(changes)@.len() ==> #[trigger] final(changes)@[k] == old(changes)@[k],
        forall|j: int|
            0 <= j < ls@.len() ==> (#[trigger] final(changes)@[old(changes)@.len() + j]).0@
                == project.locked@[ls@[j] as int].name@ && final(changes)@[old(changes)@.len() + j].1
                == PackageChange::Remove(reason),
{
    let ghost start = changes@;
    let mut j: usize = 0;
    while j < ls.len()
        invariant
            j <= ls@.len(),
            forall|x: int| 0 <= x < ls@.len() ==> #[trigger] ls@[x] < project.locked@.len(),
            changes@.len() == start.len() + j,
            forall|k: int| 0 <= k < start.len() ==> #[trigger] changes@[k] == start[k],
            forall|x: int|
                0 <= x < j ==> (#[trigger] changes@[start.len() + x]).0@ == project.locked@[ls@[x] as int].name@
                    && changes@[start.len() + x].1 == PackageChange::Remove(reason),
        decreases ls@.len() - j,
    {
        changes.push((text_of(&project.locked[ls[j]].name), PackageChange::Remove(reason)));
        assert(changes@[start.len() + j].1 == PackageChange::Remove(reason));
        j = j + 1;
    }
}

/// Plans installing the requested packages (positions in the index): resolves
/// their dependencies, removes the legacy and the newly unused packages,
/// schedules superseded legacy assets for deletion and reports conflicts.
pub fn plan_install(
    index: &PackageIndex,
    project: &ProjectState,
    requested: &Vec<usize>,
    operation: AddPackageOperation,
    allow_prerelease: bool,
) -> (r: Result<PendingChanges, VersionSolvingError>)
    requires
        forall|k: int| 0 <= k < requested@.len() ==> #[trigger] requested@[k] < index.packages@.len(),
        names_distinct(*index, requested@),
        project.wf(),
    ensures
        match r {
            Ok(plan) => exists|chosen: Seq<usize>|
                resolved(*index, *project, requested@, chosen, allow_prerelease) && plan_describes(
                    *index,
                    *project,
                    requested@,
                    operation,
                    chosen,
                    plan,
                ),
            Err(e) => solving_failed(*index, *project, requested@, allow_prerelease, e),
        },
{
    let chosen = match resolve_dependencies(index, project, requested, allow_prerelease) {
        Ok(c) => c,
        Err(e) => return Err(e),
    };
    let mut changes: Vec<(String, PackageChange)> = Vec::new();
    let mut k: usize = 0;
    while k < chosen.len()
        invariant
            k <= chosen@.len(),
            forall|x: int| 0 <= x < chosen@.len() ==> #[trigger] chosen@[x] < index.packages@.len(),
            changes@.len() == k,
            forall|x: int|
                0 <= x < k ==> (#[trigger] changes@[x]).0@ == pkg(*index, chosen@[x]).name@ && changes@[x].1
                    == PackageChange::Install(chosen@[x]),
        decreases chosen@.len() - k,
    {
        changes.push((text_of(&index.packages[chosen[k]].package.name), PackageChange::Install(chosen[k])));
        k = k + 1;
    }
    let legacy = legacy_package_removals(index, project, &chosen);
    let unused_list = unused_removals(index, project, &chosen);
    let ghost c0 = changes@;
    push_removals(&mut changes, project, &legacy, RemoveReason::Legacy);
    let ghost c1 = changes@;
    push_removals(&mut changes, project, &unused_list, RemoveReason::Unused);
    let files = legacy_asset_removals(index, project, &chosen, &legacy, false);
    let folders = legacy_asset_removals(index, project, &chosen, &legacy, true);
    let conflicts = detect_conflicts(index, project, &chosen);
    let mut new_dependencies: Vec<String> = Vec::new();
    if operation == AddPackageOperation::InstallToDependencies {
        let mut t: usize = 0;
        while t < requested.len()
            invariant
                t <= requested@.len(),
                forall|x: int| 0 <= x < requested@.len() ==> #[trigger] requested@[x] < index.packages@.len(),
                new_dependencies@.len() == t,
                forall|x: int|
                    0 <= x < t ==> (#[trigger] new_dependencies@[x])@ == pkg(*index, requested@[x]).name@,
            decreases requested@.len() - t,
        {
            new_dependencies.push(text_of(&index.packages[requested[t]].package.name));
            t = t + 1;
        }
    }
    let plan = PendingChanges {
        package_changes: changes,
        remove_legacy_files: files,
        remove_legacy_folders: folders,
        conflicts,
        new_dependencies,
    };
    proof {
        let ch = plan.package_changes@;
        let n = chosen@.len();
        assert forall|x: int| 0 <= x < n implies (#[trigger] ch[x]).0@ == pkg(*index, chosen@[x]).name@
            && ch[x].1 == PackageChange::Install(chosen@[x]) by {
            assert(ch[x] == c1[x]);
            assert(c1[x] == c0[x]);
        }
        assert forall|x: int| n <= x < ch.len() implies removal_justified(
            *index,
            *project,
            chosen@,
            #[trigger] ch[x],
        ) by {
            if x < c1.len() {
                assert(ch[x] == c1[x]);
                let j = x - n;
                assert(c1[c0.len() + j] == c1[x]);
                let l = legacy@[j] as int;
                assert(project.locked@[l].name@ == ch[x].0@);
            } else {
                let j = x - c1.len();
                assert(ch[c1.len() + j] == ch[x]);
                let l = unused_list@[j] as int;
                assert(project.locked@[l].name@ == ch[x].0@);
            }
        }
        assert forall|l: int|
            0 <= l < project.locked@.len() && #[trigger] legacy_alias(*index, *project, chosen@, l) implies removal_listed(
            ch,
            n as int,
            project.locked@[l].name@,
            RemoveReason::Legacy,
        ) by {
            let j = choose|j: int| 0 <= j < legacy@.len() && #[trigger] legacy@[j] as int == l;
            assert(ch[c0.len() + j] == c1[c0.len() + j]);
            assert(ch[n + j].0@ == project.locked@[l].name@);
        }
        assert forall|l: int|
            0 <= l < project.locked@.len() && #[trigger] unused(*index, *project, chosen@, l) implies removal_listed(
            ch,
            n as int,
            project.locked@[l].name@,
            RemoveReason::Unused,
        ) by {
            assert(position_listed(unused_list@, l));
            let j = choose|j: int| 0 <= j < unused_list@.len() && #[trigger] unused_list@[j] as int == l;
            assert(ch[c1.len() + j].0@ == project.locked@[l].name@);
        }
        assert(plan_describes(*index, *project, requested@, operation, chosen@, plan));
    }
    Ok(plan)
}

/// A plan deletes only legacy paths that the project state showed to be present.
pub proof fn lemma_removals_observed(
    index: PackageIndex,
    project: ProjectState,
    requested: Seq<usize>,
    operation: AddPackageOperation,
    chosen: Seq<usize>,
    plan: PendingChanges,
    folders: bool,
    k: int,
)
    requires
        plan_describes(index, project, requested, operation, chosen, plan),
        0 <= k < (if folders {
            plan.remove_legacy_folders@
        } else {
            plan.remove_legacy_files@
        }).len(),
    ensures
        exists|i: int|
            0 <= i < present_assets(project, folders).len() && (#[trigger] present_assets(project, folders)[i]).path@
                == (if folders {
                plan.remove_legacy_folders@
            } else {
                plan.remove_legacy_files@
            })[k]@,
{
    let r = if folders {
        plan.remove_legacy_folders@
    } else {
        plan.remove_legacy_files@
    };
    assert(superseded_path(index, project, chosen, folders, r[k]@));
}

} // verus!
