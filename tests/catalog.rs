use vrc_get_vpm::index::{PackageIndex, Repository};
use vrc_get_vpm::package::PackageJson;
use vrc_get_vpm::version::{parse_range, parse_version};

fn pkg(name: &str, version: &str) -> PackageJson {
    PackageJson::new(name, parse_version(version).unwrap())
}

fn sample() -> PackageIndex {
    let mut index = PackageIndex::new();
    let repo = index.add_repository(Repository { id: Some("r".to_string()), url: None, name: None });
    index.add_package(pkg("A", "1.0.0"), None);
    index.add_package(pkg("A", "1.0.0"), Some(repo));
    let mut y = pkg("A", "2.0.0");
    y.yanked = true;
    index.add_package(y, Some(repo));
    index.add_package(pkg("A", "2.0.0"), None);
    index.add_package(pkg("A", "3.0.0-beta"), Some(repo));
    index.add_package(pkg("B", "9.0.0"), Some(repo));
    index
}

#[test]
fn find_orders_by_version_then_yank_then_source() {
    assert_eq!(sample().find("A"), vec![4, 3, 2, 1, 0]);
    assert_eq!(sample().find("B"), vec![5]);
    assert!(sample().find("C").is_empty());
}

#[test]
fn latest_applies_filters_first() {
    let index = sample();
    assert_eq!(index.get_latest("A", false, false), Some(3));
    assert_eq!(index.get_latest("A", true, false), Some(4));
    assert_eq!(index.get_latest("C", true, true), None);
    let mut only_yanked = PackageIndex::new();
    let mut y = pkg("Y", "1.0.0");
    y.yanked = true;
    only_yanked.add_package(y, None);
    assert_eq!(only_yanked.get_latest("Y", false, false), None);
    assert_eq!(only_yanked.get_latest("Y", false, true), Some(0));
}

#[test]
fn builders_fill_the_descriptor() {
    let p = pkg("P", "1.0.0")
        .add_vpm_dependency("Q", parse_range(">=1.0.0").unwrap())
        .add_vpm_dependency("R", parse_range("<2.0.0").unwrap())
        .add_vpm_dependency("Q", parse_range(">=1.5.0").unwrap())
        .add_legacy_package("OldP")
        .add_legacy_folder("Assets/P", "G1")
        .add_legacy_folder("Assets/P", "G2")
        .add_legacy_file("Assets/P.cs", "G3");
    let deps = p.vpm_dependencies();
    assert_eq!(deps.len(), 2);
    let (k0, r0) = deps.get_index(0).unwrap();
    assert_eq!(k0, "Q");
    assert!(r0.matches(&parse_version("1.6.0").unwrap()));
    assert!(!r0.matches(&parse_version("1.2.0").unwrap()));
    assert_eq!(deps.get_index(1).unwrap().0, "R");
    assert_eq!(p.legacy_packages(), &["OldP".to_string()]);
    assert_eq!(p.legacy_folders().len(), 1);
    assert_eq!(p.legacy_folders()[0].tag.as_deref(), Some("G2"));
    assert_eq!(p.legacy_files()[0].path, "Assets/P.cs");
    assert_eq!(p.name(), "P");
    assert_eq!(p.version().major, 1);
    assert!(p.display_name().is_none());
    assert!(p.description().is_none());
    assert!(p.url().is_none());
    assert!(p.unity().is_none());
    assert!(!p.is_yanked());
}
