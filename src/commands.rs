use crate::index::{PackageIndex, PackageInfo, Repository};
use crate::package::PackageJson;
use crate::planner::ProjectState;
use crate::plan::{ConflictInfo, PackageChange, PendingChanges, RemoveReason};
use crate::version::{PreId, Version};
use vstd::prelude::*;

verus! {

/// The kind of a project, as detected from its packages.
#[derive(PartialEq, Eq, Structural, Clone, Copy, Debug)]
pub enum ProjectType {
    Unknown,
    LegacySdk2,
    LegacyWorlds,
    LegacyAvatars,
    UpmWorlds,
    UpmAvatars,
    UpmStarter,
    Worlds,
    Avatars,
    VpmStarter,
}

/// A project known to the environment.
pub struct UserProject {
    pub name: String,
    pub path: String,
    pub project_type: ProjectType,
    pub unity_version: Option<String>,
    pub last_modified: u64,
    pub created_at: u64,
}

/// A project as shown to a client, with the list version and position that identify it.
pub struct TauriProject {
    pub list_version: u64,
    pub index: usize,
    pub name: String,
    pub path: String,
    pub project_type: ProjectType,
    pub unity: String,
    pub last_modified: u64,
    pub created_at: u64,
}

fn copy_text(s: &String) -> (r: String)
    ensures
        r@ == s@,
{
    s.clone()
}

impl TauriProject {
    pub fn new(list_version: u64, index: usize, project: &UserProject) -> (r: TauriProject)
        ensures
            r.list_version == list_version,
            r.index == index,
            r.name@ == project.name@,
            r.path@ == project.path@,
            r.project_type == project.project_type,
            match project.unity_version {
                Some(u) => r.unity@ == u@,
                None => r.unity@ == "unknown"@,
            },
            r.last_modified == project.last_modified,
            r.created_at == project.created_at,
    {
        let unity = match &project.unity_version {
            Some(u) => copy_text(u),
            None => String::from_str("unknown"),
        };
        TauriProject {
            list_version,
            index,
            name: copy_text(&project.name),
            path: copy_text(&project.path),
            project_type: project.project_type,
            unity,
            last_modified: project.last_modified,
            created_at: project.created_at,
        }
    }
}

/// A version as shown to a client.
pub struct TauriVersion {
    pub major: u64,
    pub minor: u64,
    pub patch: u64,
    pub pre: Vec<PreId>,
    pub build: String,
}

impl TauriVersion {
    pub fn new(value: &Version) -> (r: TauriVersion)
        ensures
            r.major == value.major,
            r.minor == value.minor,
            r.patch == value.patch,
            r.pre@ == value.pre@,
            r.build@ == value.build@,
    {
        let v = value.clone();
        TauriVersion { major: v.major, minor: v.minor, patch: v.patch, pre: v.pre, build: v.build }
    }
}

/// The descriptor fields a client sees.
pub struct TauriBasePackageInfo {
    pub name: String,
    pub display_name: Option<String>,
    pub version: TauriVersion,
    pub unity: Option<(u16, u8)>,
    pub is_yanked: bool,
}

/// `b` shows descriptor `p`: its name, display name, version, host version
/// and yanked flag.
pub open spec fn base_info_of(b: TauriBasePackageInfo, p: PackageJson) -> bool {
    &&& b.name@ == p.name@
    &&& b.display_name is Some == p.display_name is Some
    &&& p.display_name is Some ==> b.display_name.unwrap()@ == p.display_name.unwrap()@
    &&& b.version.major == p.version.major
    &&& b.version.minor == p.version.minor
    &&& b.version.patch == p.version.patch
    &&& b.version.pre@ == p.version.pre@
    &&& b.version.build@ == p.version.build@
    &&& b.unity == match p.unity {
        Some(u) => Some((u.0, u.1)),
        None => None,
    }
    &&& b.is_yanked == p.yanked
}

impl TauriBasePackageInfo {
    pub fn new(package: &PackageJson) -> (r: TauriBasePackageInfo)
        ensures
            base_info_of(r, *package),
    {
        let display_name = match &package.display_name {
            Some(d) => Some(copy_text(d)),
            None => None,
        };
        let unity = match &package.unity {
            Some(u) => Some((u.major(), u.minor())),
            None => None,
        };
        TauriBasePackageInfo {
            name: copy_text(&package.name),
            display_name,
            version: TauriVersion::new(&package.version),
            unity,
            is_yanked: package.is_yanked(),
        }
    }
}

/// Where a listed package comes from.
pub enum TauriPackageSource {
    LocalUser,
    Remote { id: String, display_name: String },
}

/// A catalog entry as shown to a client, with the catalog version and position that identify it.
pub struct TauriPackage {
    pub env_version: u64,
    pub index: usize,
    pub base: TauriBasePackageInfo,
    pub source: TauriPackageSource,
}

/// A repository is shown by its id, or its address where it has no id.
pub open spec fn repo_id(repo: Repository) -> Seq<char> {
    match repo.id {
        Some(i) => i@,
        None => repo.url.unwrap()@,
    }
}

/// `r` shows catalog entry `index` under catalog version `env_version`.
pub open spec fn package_shown(r: TauriPackage, env_version: u64, index: usize, catalog: PackageIndex) -> bool {
    &&& r.env_version == env_version
    &&& r.index == index
    &&& base_info_of(r.base, catalog.packages@[index as int].package)
    &&& match catalog.packages@[index as int].repo {
        None => r.source is LocalUser,
        Some(p) => {
            let repo = catalog.repositories@[p as int];
            r.source matches TauriPackageSource::Remote { id, display_name } && id@ == repo_id(repo)
                && display_name@ == match repo.name {
                Some(n) => n@,
                None => repo_id(repo),
            }
        },
    }
}

impl TauriPackage {
    pub fn new(env_version: u64, index: usize, catalog: &PackageIndex) -> (r: TauriPackage)
        requires
            catalog.wf(),
            index < catalog.packages@.len(),
            catalog.packages@[index as int].repo matches Some(p) ==> (catalog.repositories@[p as int].id is Some
                || catalog.repositories@[p as int].url is Some),
        ensures
            package_shown(r, env_version, index, *catalog),
    {
        let package: &PackageInfo = &catalog.packages[index];
        let source = match package.repo {
            None => TauriPackageSource::LocalUser,
            Some(p) => {
                let repo = &catalog.repositories[p];
                let id = match &repo.id {
                    Some(i) => copy_text(i),
                    None => match &repo.url {
                        Some(u) => copy_text(u),
                        None => {
                            assert(false);
                            String::new()
                        },
                    },
                };
                let display_name = match &repo.name {
                    Some(n) => copy_text(n),
                    None => copy_text(&id),
                };
                TauriPackageSource::Remote { id, display_name }
            },
        };
        TauriPackage { env_version, index, base: TauriBasePackageInfo::new(&package.package), source }
    }
}

/// A package change as shown to a client.
pub enum TauriPackageChange {
    InstallNew(TauriBasePackageInfo),
    Remove(RemoveReason),
}

/// The plan entry is shown as `shown`: under its name, an install by the
/// descriptor of its catalog entry, a removal with its reason.
pub open spec fn entry_shown(catalog: PackageIndex, entry: (String, PackageChange), shown: (String, TauriPackageChange)) -> bool {
    &&& shown.0@ == entry.0@
    &&& match entry.1 {
        PackageChange::Install(i) => match shown.1 {
            TauriPackageChange::InstallNew(b) => base_info_of(b, catalog.packages@[i as int].package),
            TauriPackageChange::Remove(_) => false,
        },
        PackageChange::Remove(reason) => shown.1 == TauriPackageChange::Remove(reason),
    }
}

/// An install whose position lies outside the catalog is not shown.
pub open spec fn entry_kept(catalog: PackageIndex, entry: (String, PackageChange)) -> bool {
    match entry.1 {
        PackageChange::Install(i) => i < catalog.packages@.len(),
        PackageChange::Remove(_) => true,
    }
}

/// `shown` is the plan's changes in order, each shown, leaving out only
/// installs outside the catalog.
pub open spec fn shows_changes(
    catalog: PackageIndex,
    changes: Seq<(String, PackageChange)>,
    shown: Seq<(String, TauriPackageChange)>,
) -> bool
    decreases changes.len(),
{
    if changes.len() == 0 {
        shown.len() == 0
    } else if entry_kept(catalog, changes.last()) {
        shown.len() > 0 && entry_shown(catalog, changes.last(), shown.last()) && shows_changes(
            catalog,
            changes.drop_last(),
            shown.drop_last(),
        )
    } else {
        shows_changes(catalog, changes.drop_last(), shown)
    }
}

/// The conflicts of one package as shown to a client.
pub struct TauriConflictInfo {
    pub packages: Vec<String>,
    pub unity_conflict: bool,
}

/// A plan as shown to a client, with the version to echo back when applying it.
pub struct TauriPendingProjectChanges {
    pub changes_version: u64,
    pub package_changes: Vec<(String, TauriPackageChange)>,
    pub remove_legacy_files: Vec<String>,
    pub remove_legacy_folders: Vec<String>,
    pub conflicts: Vec<(String, TauriConflictInfo)>,
}

fn copy_texts(v: &Vec<String>) -> (r: Vec<String>)
    ensures
        r@.len() == v@.len(),
        forall|i: int| 0 <= i < v@.len() ==> (#[trigger] r@[i])@ == v@[i]@,
{
    let mut r: Vec<String> = Vec::new();
    let mut i: usize = 0;
    while i < v.len()
        invariant
            i <= v@.len(),
            r@.len() == i,
            forall|j: int| 0 <= j < i ==> (#[trigger] r@[j])@ == v@[j]@,
        decreases v@.len() - i,
    {
        r.push(copy_text(&v[i]));
        i = i + 1;
    }
    r
}

/// `r` shows plan `changes` under plan version `version`, as
/// `TauriPendingProjectChanges::new` builds it.
pub open spec fn pending_shown(
    r: TauriPendingProjectChanges,
    version: u64,
    changes: PendingChanges,
    catalog: PackageIndex,
) -> bool {
    &&& r.changes_version == version
    &&& shows_changes(catalog, changes.package_changes@, r.package_changes@)
    &&& r.remove_legacy_files@.len() == changes.remove_legacy_files@.len()
    &&& forall|i: int|
                0 <= i < changes.remove_legacy_files@.len() ==> (#[trigger] r.remove_legacy_files@[i])@
                    == changes.remove_legacy_files@[i]@
    &&& r.remove_legacy_folders@.len() == changes.remove_legacy_folders@.len()
    &&& forall|i: int|
                0 <= i < changes.remove_legacy_folders@.len() ==> (#[trigger] r.remove_legacy_folders@[i])@
                    == changes.remove_legacy_folders@[i]@
    &&& r.conflicts@.len() == changes.conflicts@.len()
    &&& forall|i: int|
                0 <= i < changes.conflicts@.len() ==> (#[trigger] r.conflicts@[i]).0@ == changes.conflicts@[i].0@
                    && r.conflicts@[i].1.unity_conflict == changes.conflicts@[i].1.unity_conflict
                    && r.conflicts@[i].1.packages@.len() == changes.conflicts@[i].1.packages@.len()
                    && forall|a: int|
                    0 <= a < changes.conflicts@[i].1.packages@.len() ==> (#[trigger] r.conflicts@[i].1.packages@[a])@
                        == changes.conflicts@[i].1.packages@[a]@
}

impl TauriPendingProjectChanges {
    /// Shows a plan: installs by their descriptor (those whose position is not
    /// in the catalog are left out), removals by their reason, and the legacy
    /// removals and conflicts as they stand.
    pub fn new(version: u64, changes: &PendingChanges, catalog: &PackageIndex) -> (r: TauriPendingProjectChanges)
        ensures
            pending_shown(r, version, *changes, *catalog),
    {
        let mut package_changes: Vec<(String, TauriPackageChange)> = Vec::new();
        let mut k: usize = 0;
        while k < changes.package_changes.len()
            invariant
                k <= changes.package_changes@.len(),
                shows_changes(*catalog, changes.package_changes@.take(k as int), package_changes@),
            decreases changes.package_changes@.len() - k,
        {
            let entry = &changes.package_changes[k];
            let ghost before = package_changes@;
            match entry.1 {
                PackageChange::Install(i) => {
                    if i < catalog.packages.len() {
                        let info = TauriBasePackageInfo::new(&catalog.packages[i].package);
                        package_changes.push((copy_text(&entry.0), TauriPackageChange::InstallNew(info)));
                    }
                },
                PackageChange::Remove(reason) => {
                    package_changes.push((copy_text(&entry.0), TauriPackageChange::Remove(reason)));
                },
            }
            proof {
                assert(changes.package_changes@.take(k + 1).drop_last() =~= changes.package_changes@.take(k as int));
                if package_changes@.len() > before.len() {
                    assert(package_changes@.drop_last() =~= before);
                }
            }
            k = k + 1;
        }
        assert(changes.package_changes@.take(k as int) =~= changes.package_changes@);
        let mut conflicts: Vec<(String, TauriConflictInfo)> = Vec::new();
        let mut c: usize = 0;
        while c < changes.conflicts.len()
            invariant
                c <= changes.conflicts@.len(),
                conflicts@.len() == c,
                forall|i: int|
                    0 <= i < c ==> (#[trigger] conflicts@[i]).0@ == changes.conflicts@[i].0@
                        && conflicts@[i].1.unity_conflict == changes.conflicts@[i].1.unity_conflict
                        && conflicts@[i].1.packages@.len() == changes.conflicts@[i].1.packages@.len()
                        && forall|a: int|
                        0 <= a < changes.conflicts@[i].1.packages@.len() ==> (#[trigger] conflicts@[i].1.packages@[a])@
                            == changes.conflicts@[i].1.packages@[a]@,
            decreases changes.conflicts@.len() - c,
        {
            let info: &ConflictInfo = &changes.conflicts[c].1;
            let shown = TauriConflictInfo { packages: copy_texts(&info.packages), unity_conflict: info.unity_conflict };
            conflicts.push((copy_text(&changes.conflicts[c].0), shown));
            c = c + 1;
        }
        TauriPendingProjectChanges {
            changes_version: version,
            package_changes,
            remove_legacy_files: copy_texts(&changes.remove_legacy_files),
            remove_legacy_folders: copy_texts(&changes.remove_legacy_folders),
            conflicts,
        }
    }
}

/// A project's host version and installed packages as shown to a client.
pub struct TauriProjectDetails {
    pub unity: Option<(u16, u8)>,
    pub unity_str: String,
    pub installed_packages: Vec<(String, TauriBasePackageInfo)>,
}

impl TauriProjectDetails {
    /// Shows `project`; `unity_text` is the full host version, when known.
    pub fn new(project: &ProjectState, unity_text: Option<&str>) -> (r: TauriProjectDetails)
        ensures
            match project.unity {
                Some(u) => r.unity == Some((u.0, u.1)),
                None => r.unity is None,
            },
            match unity_text {
                Some(t) => r.unity_str@ == t@,
                None => r.unity_str@ == "unknown"@,
            },
            r.installed_packages@.len() == project.locked@.len(),
            forall|i: int|
                0 <= i < project.locked@.len() ==> (#[trigger] r.installed_packages@[i]).0@
                    == project.locked@[i].name@ && r.installed_packages@[i].1.name@ == project.locked@[i].name@
                    && r.installed_packages@[i].1.version.major == project.locked@[i].version.major
                    && r.installed_packages@[i].1.version.minor == project.locked@[i].version.minor
                    && r.installed_packages@[i].1.version.patch == project.locked@[i].version.patch,
    {
        let unity = match &project.unity {
            Some(u) => Some((u.major(), u.minor())),
            None => None,
        };
        let unity_str = match unity_text {
            Some(t) => String::from_str(t),
            None => String::from_str("unknown"),
        };
        let mut installed: Vec<(String, TauriBasePackageInfo)> = Vec::new();
        let mut i: usize = 0;
        while i < project.locked.len()
            invariant
                i <= project.locked@.len(),
                installed@.len() == i,
                forall|j: int|
                    0 <= j < i ==> (#[trigger] installed@[j]).0@ == project.locked@[j].name@
                        && installed@[j].1.name@ == project.locked@[j].name@ && installed@[j].1.version.major
                        == project.locked@[j].version.major && installed@[j].1.version.minor
                        == project.locked@[j].version.minor && installed@[j].1.version.patch
                        == project.locked@[j].version.patch,
            decreases project.locked@.len() - i,
        {
            let p = &project.locked[i];
            installed.push((copy_text(&p.name), TauriBasePackageInfo::new(p)));
            i = i + 1;
        }
        TauriProjectDetails { unity, unity_str, installed_packages: installed }
    }
}

} // verus!
