use vrc_get_vpm::index::{PackageIndex, Repository};
use vrc_get_vpm::package::{LegacyAsset, PackageJson, PartialUnityVersion};
use vrc_get_vpm::plan::{detect_conflicts, plan_install, PackageChange, PendingChanges, RemoveReason};
use vrc_get_vpm::planner::{classify_operation, resolve_dependencies, AddPackageOperation, ProjectState};
use vrc_get_vpm::version::{parse_range, parse_version};

fn pkg(name: &str, version: &str) -> PackageJson {
    PackageJson::new(name, parse_version(version).unwrap())
}

fn asset(path: &str, tag: &str) -> LegacyAsset {
    LegacyAsset { path: path.to_string(), tag: Some(tag.to_string()) }
}

fn project(locked: Vec<PackageJson>) -> ProjectState {
    ProjectState {
        unity: None,
        dependencies: Vec::new(),
        locked,
        legacy_files: Vec::new(),
        legacy_folders: Vec::new(),
    }
}

fn remote_index(packages: Vec<PackageJson>) -> PackageIndex {
    let mut index = PackageIndex::new();
    let repo = index.add_repository(Repository {
        id: Some("com.example.repo".to_string()),
        url: None,
        name: Some("Example".to_string()),
    });
    for p in packages {
        index.add_package(p, Some(repo));
    }
    index
}

fn names(plan: &PendingChanges) -> Vec<String> {
    plan.package_changes.iter().map(|(n, _)| n.clone()).collect()
}

#[test]
fn classification_follows_the_lock() {
    let state = project(vec![pkg("A", "1.0.0")]);
    assert_eq!(classify_operation(&state, &pkg("B", "1.0.0")), AddPackageOperation::InstallToDependencies);
    assert_eq!(classify_operation(&state, &pkg("A", "0.9.0")), AddPackageOperation::Downgrade);
    assert_eq!(classify_operation(&state, &pkg("A", "1.0.0")), AddPackageOperation::UpgradeLocked);
    assert_eq!(classify_operation(&state, &pkg("A", "1.0.1")), AddPackageOperation::UpgradeLocked);
    assert_eq!(classify_operation(&state, &pkg("A", "1.0.0-rc.1")), AddPackageOperation::Downgrade);
}

#[test]
fn end_to_end_tagged_legacy_folder_is_superseded() {
    let mut state = project(vec![pkg("A", "1.0.0").add_legacy_folder("Assets/Legacy/A", "GUID-A")]);
    state.legacy_folders.push(asset("Assets/Legacy/A", "GUID-A"));
    let index = remote_index(vec![pkg("A", "1.1.0").add_legacy_folder("Assets/Legacy/A", "GUID-A")]);
    let op = classify_operation(&state, &index.packages[0].package);
    assert_eq!(op, AddPackageOperation::UpgradeLocked);
    let plan = plan_install(&index, &state, &vec![0], op, false).unwrap();
    assert_eq!(plan.package_changes.len(), 1);
    assert_eq!(plan.package_changes[0], ("A".to_string(), PackageChange::Install(0)));
    assert!(plan.conflicts.is_empty());
    assert_eq!(plan.remove_legacy_folders, vec!["Assets/Legacy/A".to_string()]);
    assert!(plan.remove_legacy_files.is_empty());
    assert!(plan.new_dependencies.is_empty());
}

#[test]
fn conflicting_legacy_file_owners_are_reported_not_blocking() {
    let state = project(vec![]);
    let index = remote_index(vec![
        pkg("B", "1.0.0").add_legacy_file("Assets/Old/thing.cs", "GUID-B"),
        pkg("C", "1.0.0").add_legacy_file("Assets/Old/thing.cs", "GUID-C"),
    ]);
    let plan = plan_install(&index, &state, &vec![0, 1], AddPackageOperation::InstallToDependencies, false).unwrap();
    assert_eq!(plan.package_changes[0], ("B".to_string(), PackageChange::Install(0)));
    assert_eq!(plan.package_changes[1], ("C".to_string(), PackageChange::Install(1)));
    assert_eq!(plan.conflicts.len(), 2);
    assert_eq!(plan.conflicts[0].0, "B");
    assert_eq!(plan.conflicts[0].1.packages, vec!["C".to_string()]);
    assert!(!plan.conflicts[0].1.unity_conflict);
    assert_eq!(plan.conflicts[1].0, "C");
    assert_eq!(plan.conflicts[1].1.packages, vec!["B".to_string()]);
    assert_eq!(plan.new_dependencies, vec!["B".to_string(), "C".to_string()]);
}

#[test]
fn same_tag_on_same_path_is_no_conflict() {
    let state = project(vec![]);
    let index = remote_index(vec![
        pkg("B", "1.0.0").add_legacy_file("Assets/Old/thing.cs", "GUID-X"),
        pkg("C", "1.0.0").add_legacy_file("Assets/Old/thing.cs", "GUID-X"),
    ]);
    assert!(detect_conflicts(&index, &state, &vec![0, 1]).is_empty());
}

#[test]
fn host_version_below_minimum_is_a_conflict() {
    let mut state = project(vec![]);
    state.unity = Some(PartialUnityVersion(2019, 4));
    let mut p = pkg("D", "1.0.0");
    p.unity = Some(PartialUnityVersion(2022, 3));
    let mut q = pkg("E", "1.0.0");
    q.unity = Some(PartialUnityVersion(2019, 4));
    let index = remote_index(vec![p, q]);
    let conflicts = detect_conflicts(&index, &state, &vec![0, 1]);
    assert_eq!(conflicts.len(), 1);
    assert_eq!(conflicts[0].0, "D");
    assert!(conflicts[0].1.unity_conflict);
    assert!(conflicts[0].1.packages.is_empty());
}

#[test]
fn legacy_assets_not_present_are_not_scheduled() {
    let mut state = project(vec![]);
    state.legacy_files.push(asset("Assets/Other.cs", "GUID-O"));
    let index = remote_index(vec![pkg("A", "1.0.0")
        .add_legacy_folder("Assets/Legacy/A", "GUID-A")
        .add_legacy_file("Assets/A.cs", "GUID-AF")]);
    let plan = plan_install(&index, &state, &vec![0], AddPackageOperation::InstallToDependencies, false).unwrap();
    assert!(plan.remove_legacy_folders.is_empty());
    assert!(plan.remove_legacy_files.is_empty());
}

#[test]
fn legacy_file_found_by_tag_under_another_path() {
    let mut state = project(vec![]);
    state.legacy_files.push(asset("Assets/Moved/A.cs", "GUID-AF"));
    let index = remote_index(vec![pkg("A", "1.0.0").add_legacy_file("Assets/A.cs", "GUID-AF")]);
    let plan = plan_install(&index, &state, &vec![0], AddPackageOperation::InstallToDependencies, false).unwrap();
    assert_eq!(plan.remove_legacy_files, vec!["Assets/Moved/A.cs".to_string()]);
}

#[test]
fn dependencies_take_the_highest_matching_version() {
    let state = project(vec![]);
    let mut yanked = pkg("Lib", "1.4.0");
    yanked.yanked = true;
    let index = remote_index(vec![
        pkg("App", "1.0.0").add_vpm_dependency("Lib", parse_range(">=1.0.0 <2.0.0").unwrap()),
        pkg("Lib", "1.2.0"),
        pkg("Lib", "1.3.0"),
        yanked,
        pkg("Lib", "2.0.0"),
        pkg("Lib", "1.5.0-beta"),
    ]);
    let chosen = match resolve_dependencies(&index, &state, &vec![0], false) {
        Ok(c) => c,
        Err(e) => panic!("unexpected failure for {}", e.package),
    };
    assert_eq!(chosen, vec![0, 2]);
    let chosen = match resolve_dependencies(&index, &state, &vec![0], true) {
        Ok(c) => c,
        Err(e) => panic!("unexpected failure for {}", e.package),
    };
    assert_eq!(chosen, vec![0, 5]);
}

#[test]
fn transitive_dependencies_are_resolved() {
    let state = project(vec![]);
    let index = remote_index(vec![
        pkg("App", "1.0.0").add_vpm_dependency("Mid", parse_range(">=1.0.0").unwrap()),
        pkg("Mid", "1.0.0").add_vpm_dependency("Base", parse_range("<1.0.0").unwrap()),
        pkg("Base", "0.9.0"),
        pkg("Base", "1.0.0"),
    ]);
    let plan = plan_install(&index, &state, &vec![0], AddPackageOperation::InstallToDependencies, false).unwrap();
    assert_eq!(names(&plan), vec!["App", "Mid", "Base"]);
    assert_eq!(plan.package_changes[2].1, PackageChange::Install(2));
}

#[test]
fn locked_dependency_that_fits_is_kept() {
    let state = project(vec![pkg("Base", "1.1.0")]);
    let index = remote_index(vec![
        pkg("App", "1.0.0").add_vpm_dependency("Base", parse_range(">=1.0.0").unwrap()),
        pkg("Base", "1.2.0"),
    ]);
    let plan = plan_install(&index, &state, &vec![0], AddPackageOperation::InstallToDependencies, false).unwrap();
    assert_eq!(names(&plan), vec!["App"]);
}

#[test]
fn locked_dependency_out_of_range_is_upgraded() {
    let state = project(vec![pkg("Base", "0.5.0")]);
    let index = remote_index(vec![
        pkg("App", "1.0.0").add_vpm_dependency("Base", parse_range(">=1.0.0").unwrap()),
        pkg("Base", "1.2.0"),
    ]);
    let plan = plan_install(&index, &state, &vec![0], AddPackageOperation::InstallToDependencies, false).unwrap();
    assert_eq!(plan.package_changes[1], ("Base".to_string(), PackageChange::Install(1)));
}

#[test]
fn unsatisfiable_dependency_fails_planning() {
    let state = project(vec![]);
    let index = remote_index(vec![
        pkg("App", "1.0.0").add_vpm_dependency("Lib", parse_range(">=3.0.0").unwrap()),
        pkg("Lib", "2.0.0"),
    ]);
    match plan_install(&index, &state, &vec![0], AddPackageOperation::InstallToDependencies, false) {
        Ok(_) => panic!("planning should fail"),
        Err(e) => {
            assert_eq!(e.package, "Lib");
            assert_eq!(e.required_by, "App");
        }
    }
}

#[test]
fn constraints_of_locked_packages_are_intersected() {
    let state = project(vec![pkg("Other", "1.0.0").add_vpm_dependency("Lib", parse_range("<1.5.0").unwrap())]);
    let index = remote_index(vec![
        pkg("App", "1.0.0").add_vpm_dependency("Lib", parse_range(">=1.0.0").unwrap()),
        pkg("Lib", "1.4.0"),
        pkg("Lib", "1.6.0"),
    ]);
    let plan = plan_install(&index, &state, &vec![0], AddPackageOperation::InstallToDependencies, false).unwrap();
    assert_eq!(plan.package_changes[1], ("Lib".to_string(), PackageChange::Install(1)));
}

#[test]
fn legacy_package_alias_is_removed() {
    let mut state = project(vec![pkg("Old", "1.0.0").add_legacy_file("Assets/Old.cs", "GUID-OLD")]);
    state.legacy_files.push(asset("Assets/Old.cs", "GUID-OLD"));
    let index = remote_index(vec![pkg("New", "1.0.0").add_legacy_package("Old")]);
    let plan = plan_install(&index, &state, &vec![0], AddPackageOperation::InstallToDependencies, false).unwrap();
    assert_eq!(plan.package_changes[0], ("New".to_string(), PackageChange::Install(0)));
    assert_eq!(plan.package_changes[1], ("Old".to_string(), PackageChange::Remove(RemoveReason::Legacy)));
    assert_eq!(plan.remove_legacy_files, vec!["Assets/Old.cs".to_string()]);
}

#[test]
fn dependency_dropped_by_an_upgrade_becomes_unused() {
    let mut state = project(vec![
        pkg("App", "1.0.0").add_vpm_dependency("Helper", parse_range(">=1.0.0").unwrap()),
        pkg("Helper", "1.0.0"),
    ]);
    state.dependencies.push("App".to_string());
    let index = remote_index(vec![pkg("App", "2.0.0")]);
    let plan = plan_install(&index, &state, &vec![0], AddPackageOperation::UpgradeLocked, false).unwrap();
    assert_eq!(plan.package_changes.len(), 2);
    assert_eq!(plan.package_changes[1], ("Helper".to_string(), PackageChange::Remove(RemoveReason::Unused)));
    assert!(plan.new_dependencies.is_empty());
}

#[test]
fn planning_is_deterministic() {
    let mut state = project(vec![pkg("Old", "1.0.0")]);
    state.legacy_folders.push(asset("Assets/X", "GUID-X"));
    let index = remote_index(vec![
        pkg("New", "1.0.0")
            .add_legacy_package("Old")
            .add_legacy_folder("Assets/X", "GUID-X")
            .add_vpm_dependency("Lib", parse_range(">=1.0.0").unwrap()),
        pkg("Lib", "1.0.0").add_legacy_folder("Assets/X", "GUID-Y"),
    ]);
    let a = plan_install(&index, &state, &vec![0], AddPackageOperation::InstallToDependencies, false).unwrap();
    let b = plan_install(&index, &state, &vec![0], AddPackageOperation::InstallToDependencies, false).unwrap();
    assert_eq!(a.package_changes, b.package_changes);
    assert_eq!(a.remove_legacy_files, b.remove_legacy_files);
    assert_eq!(a.remove_legacy_folders, b.remove_legacy_folders);
    assert_eq!(a.conflicts.len(), b.conflicts.len());
    for (x, y) in a.conflicts.iter().zip(b.conflicts.iter()) {
        assert_eq!(x.0, y.0);
        assert_eq!(x.1.packages, y.1.packages);
        assert_eq!(x.1.unity_conflict, y.1.unity_conflict);
    }
    assert_eq!(a.new_dependencies, b.new_dependencies);
    assert_eq!(a.conflicts.len(), 2);
}

#[test]
fn same_path_with_another_tag_is_not_superseded() {
    let mut state = project(vec![]);
    state.legacy_files.push(asset("Assets/A.cs", "GUID-OTHER"));
    state.legacy_files.push(LegacyAsset { path: "Assets/B.cs".to_string(), tag: None });
    let index = remote_index(vec![pkg("A", "1.0.0")
        .add_legacy_file("Assets/A.cs", "GUID-A")
        .add_legacy_file("Assets/B.cs", "GUID-B")]);
    let plan = plan_install(&index, &state, &vec![0], AddPackageOperation::InstallToDependencies, false).unwrap();
    assert_eq!(plan.remove_legacy_files, vec!["Assets/B.cs".to_string()]);
}
