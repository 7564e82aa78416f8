use vrc_get_vpm::apply::{LockedEntry, Manifest};
use vrc_get_vpm::commands::{
    ProjectType, TauriPackage, TauriPackageChange, TauriPackageSource, TauriPendingProjectChanges, TauriProject,
    UserProject,
};
use vrc_get_vpm::index::{PackageIndex, Repository};
use vrc_get_vpm::package::{LegacyAsset, PackageJson};
use vrc_get_vpm::plan::{plan_install, PackageChange, RemoveReason};
use vrc_get_vpm::planner::{AddPackageOperation, ProjectState};
use vrc_get_vpm::session::{EnvironmentState, SessionError};
use vrc_get_vpm::version::{parse_range, parse_version};

fn pkg(name: &str, version: &str) -> PackageJson {
    PackageJson::new(name, parse_version(version).unwrap())
}

fn empty_project() -> ProjectState {
    ProjectState {
        unity: None,
        dependencies: Vec::new(),
        locked: Vec::new(),
        legacy_files: Vec::new(),
        legacy_folders: Vec::new(),
    }
}

fn catalog() -> PackageIndex {
    let mut index = PackageIndex::new();
    let repo = index.add_repository(Repository { id: None, url: Some("https://example.com/index.json".to_string()), name: None });
    index.add_package(pkg("A", "1.0.0").add_vpm_dependency("B", parse_range(">=1.0.0").unwrap()), Some(repo));
    index.add_package(pkg("B", "1.0.0"), None);
    index
}

#[test]
fn reloading_the_catalog_makes_the_plan_stale() {
    let mut state = EnvironmentState::new();
    state.replace_packages(catalog());
    let env_version = state.environment_version;
    let shown = state.install_package(&empty_project(), env_version, 0).unwrap();
    state.replace_packages(catalog());
    assert!(matches!(state.take_pending_changes(shown.changes_version), Err(SessionError::StaleState)));
    assert!(state.changes_info.is_none());
}

#[test]
fn current_plan_is_handed_out_once() {
    let mut state = EnvironmentState::new();
    state.replace_packages(catalog());
    let shown = state.install_package(&empty_project(), state.environment_version, 0).unwrap();
    assert_eq!(shown.changes_version, 1);
    assert_eq!(shown.package_changes.len(), 2);
    let changes = state.take_pending_changes(shown.changes_version).unwrap();
    assert_eq!(changes.package_changes[0], ("A".to_string(), PackageChange::Install(0)));
    assert!(matches!(state.take_pending_changes(shown.changes_version), Err(SessionError::NoPendingChanges)));
}

#[test]
fn a_new_plan_replaces_the_previous_one() {
    let mut state = EnvironmentState::new();
    state.replace_packages(catalog());
    let first = state.install_package(&empty_project(), 1, 0).unwrap();
    let second = state.install_package(&empty_project(), 1, 1).unwrap();
    assert_eq!(second.changes_version, first.changes_version + 1);
    assert!(matches!(state.take_pending_changes(first.changes_version), Err(SessionError::StaleState)));
}

#[test]
fn requests_with_old_stamps_or_bad_positions_fail() {
    let mut state = EnvironmentState::new();
    assert!(matches!(state.install_package(&empty_project(), 0, 0), Err(SessionError::NoCatalog)));
    state.replace_packages(catalog());
    assert!(matches!(state.install_package(&empty_project(), 0, 0), Err(SessionError::StaleState)));
    assert!(matches!(state.install_package(&empty_project(), 1, 9), Err(SessionError::NoSuchPackage)));
    assert_eq!(state.changes_counter, 0);
}

#[test]
fn unsatisfiable_request_reports_version_solving() {
    let mut state = EnvironmentState::new();
    let mut index = PackageIndex::new();
    index.add_package(pkg("A", "1.0.0").add_vpm_dependency("Z", parse_range(">=1.0.0").unwrap()), None);
    state.replace_packages(index);
    match state.install_package(&empty_project(), 1, 0) {
        Err(SessionError::VersionSolving(e)) => assert_eq!(e.package, "Z"),
        _ => panic!("expected a version solving failure"),
    }
}

#[test]
fn project_list_counter_moves_on_refresh() {
    let mut state = EnvironmentState::new();
    state.replace_projects(Vec::new());
    state.replace_projects(Vec::new());
    assert_eq!(state.projects_version, 2);
    assert_eq!(state.environment_version, 0);
}

fn manifest_view(m: &Manifest) -> Vec<(String, u64, u64, u64)> {
    let mut v: Vec<_> = m.locked.iter().map(|e| (e.name.clone(), e.version.major, e.version.minor, e.version.patch)).collect();
    v.sort();
    v
}

#[test]
fn applying_a_plan_twice_changes_nothing_more() {
    let mut project = empty_project();
    project.locked.push(pkg("Old", "1.0.0"));
    let mut index = PackageIndex::new();
    index.add_package(pkg("New", "2.0.0").add_legacy_package("Old"), None);
    let plan = plan_install(&index, &project, &vec![0], AddPackageOperation::InstallToDependencies, false).unwrap();
    assert_eq!(plan.package_changes[1], ("Old".to_string(), PackageChange::Remove(RemoveReason::Legacy)));
    let mut manifest = Manifest {
        dependencies: vec!["Old".to_string()],
        locked: vec![LockedEntry { name: "Old".to_string(), version: parse_version("1.0.0").unwrap() }],
    };
    manifest.apply_changes(&index, &plan);
    let once = manifest_view(&manifest);
    assert_eq!(once, vec![("New".to_string(), 2, 0, 0)]);
    assert_eq!(manifest.dependencies, vec!["Old".to_string(), "New".to_string()]);
    manifest.apply_changes(&index, &plan);
    assert_eq!(manifest_view(&manifest), once);
    assert_eq!(manifest.dependencies, vec!["Old".to_string(), "New".to_string()]);
}

#[test]
fn shown_plan_mirrors_the_plan() {
    let mut project = empty_project();
    project.legacy_folders.push(LegacyAsset { path: "Assets/L".to_string(), tag: None });
    let mut index = PackageIndex::new();
    index.add_package(pkg("New", "2.0.0").add_legacy_folder("Assets/L", "G"), None);
    let plan = plan_install(&index, &project, &vec![0], AddPackageOperation::InstallToDependencies, false).unwrap();
    let shown = TauriPendingProjectChanges::new(7, &plan, &index);
    assert_eq!(shown.changes_version, 7);
    assert_eq!(shown.remove_legacy_folders, vec!["Assets/L".to_string()]);
    assert_eq!(shown.package_changes.len(), 1);
    assert_eq!(shown.package_changes[0].0, "New");
    match &shown.package_changes[0].1 {
        TauriPackageChange::InstallNew(info) => {
            assert_eq!(info.name, "New");
            assert_eq!(info.version.major, 2);
            assert!(!info.is_yanked);
        }
        TauriPackageChange::Remove(_) => panic!("expected an install"),
    }
}

#[test]
fn shown_package_uses_url_when_repository_has_no_id() {
    let index = catalog();
    let remote = TauriPackage::new(3, 0, &index);
    assert_eq!(remote.env_version, 3);
    assert_eq!(remote.base.name, "A");
    match remote.source {
        TauriPackageSource::Remote { id, display_name } => {
            assert_eq!(id, "https://example.com/index.json");
            assert_eq!(display_name, "https://example.com/index.json");
        }
        TauriPackageSource::LocalUser => panic!("expected a remote source"),
    }
    assert!(matches!(TauriPackage::new(3, 1, &index).source, TauriPackageSource::LocalUser));
}

#[test]
fn shown_project_defaults_unity_to_unknown() {
    let project = UserProject {
        name: "World".to_string(),
        path: "/p/World".to_string(),
        project_type: ProjectType::Worlds,
        unity_version: None,
        last_modified: 5,
        created_at: 4,
    };
    let shown = TauriProject::new(2, 0, &project);
    assert_eq!(shown.unity, "unknown");
    assert_eq!(shown.name, "World");
    assert_eq!(shown.project_type, ProjectType::Worlds);
    assert_eq!((shown.last_modified, shown.created_at, shown.list_version), (5, 4, 2));
}

#[test]
fn listing_projects_bumps_the_list_version() {
    let mut state = EnvironmentState::new();
    let project = |name: &str| UserProject {
        name: name.to_string(),
        path: format!("/p/{name}"),
        project_type: ProjectType::Avatars,
        unity_version: Some("2022.3.6f1".to_string()),
        last_modified: 1,
        created_at: 0,
    };
    let shown = state.environment_projects(vec![project("One"), project("Two")]);
    assert_eq!(shown.len(), 2);
    assert_eq!(shown[1].name, "Two");
    assert_eq!(shown[1].index, 1);
    assert_eq!(shown[1].unity, "2022.3.6f1");
    assert_eq!(shown[0].list_version, 1);
    let again = state.environment_projects(vec![project("One")]);
    assert_eq!(again[0].list_version, 2);
    state.replace_packages(PackageIndex::new());
    let third = state.environment_projects(vec![project("One")]);
    assert_eq!(third[0].list_version, 4);
}

#[test]
fn listing_packages_publishes_the_catalog() {
    let mut state = EnvironmentState::new();
    let shown = state.environment_packages(catalog());
    assert_eq!(shown.len(), 2);
    assert_eq!(shown[0].env_version, 1);
    assert_eq!(shown[1].base.name, "B");
    assert!(matches!(shown[1].source, TauriPackageSource::LocalUser));
    assert_eq!(state.environment_version, 1);
    let plan = state.install_package(&empty_project(), 1, 1).unwrap();
    assert_eq!(plan.package_changes.len(), 1);
}

#[test]
fn shown_removal_keeps_its_reason() {
    let mut project = empty_project();
    project.locked.push(pkg("Old", "1.0.0"));
    let mut index = PackageIndex::new();
    index.add_package(pkg("New", "2.0.0").add_legacy_package("Old"), None);
    let plan = plan_install(&index, &project, &vec![0], AddPackageOperation::UpgradeLocked, false).unwrap();
    let shown = TauriPendingProjectChanges::new(1, &plan, &index);
    assert_eq!(shown.package_changes.len(), 2);
    assert_eq!(shown.package_changes[1].0, "Old");
    assert!(matches!(shown.package_changes[1].1, TauriPackageChange::Remove(RemoveReason::Legacy)));
}

#[test]
fn project_details_list_installed_packages() {
    let mut project = empty_project();
    project.unity = Some(vrc_get_vpm::package::PartialUnityVersion(2022, 3));
    project.locked.push(pkg("A", "1.2.3"));
    let details = vrc_get_vpm::commands::TauriProjectDetails::new(&project, Some("2022.3.6f1"));
    assert_eq!(details.unity, Some((2022, 3)));
    assert_eq!(details.unity_str, "2022.3.6f1");
    assert_eq!(details.installed_packages.len(), 1);
    assert_eq!(details.installed_packages[0].0, "A");
    assert_eq!(details.installed_packages[0].1.version.patch, 3);
    let unknown = vrc_get_vpm::commands::TauriProjectDetails::new(&empty_project(), None);
    assert_eq!(unknown.unity_str, "unknown");
    assert!(unknown.unity.is_none());
}
