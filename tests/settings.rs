use vrc_get_vpm::settings::{Settings, TauriRepositoriesInfo, UserRepoSetting};

fn repo(url: &str, id: Option<&str>) -> UserRepoSetting {
    UserRepoSetting { id: id.map(|s| s.to_string()), url: url.to_string(), name: None }
}

#[test]
fn fresh_settings_are_unchanged() {
    let s = Settings::empty();
    assert!(!s.is_changed());
    assert!(s.user_repos().is_empty());
    assert!(s.default_project_path().is_none());
    assert_eq!(s.unity_hub(), "");
}

#[test]
fn every_setter_marks_changed_and_saving_clears_it() {
    let mut s = Settings::empty();
    s.set_unity_hub("/opt/hub");
    assert!(s.is_changed());
    assert_eq!(s.unity_hub(), "/opt/hub");
    s.mark_saved();
    assert!(!s.is_changed());
    s.set_default_project_path("/projects");
    assert_eq!(s.default_project_path(), Some("/projects"));
    s.mark_saved();
    s.set_project_backup_path("/backups");
    assert_eq!(s.project_backup_path(), Some("/backups"));
    s.mark_saved();
    s.set_show_prerelease_packages(true);
    assert!(s.show_prerelease_packages());
    assert!(s.is_changed());
}

#[test]
fn retaining_everything_leaves_settings_unchanged() {
    let mut s = Settings::empty();
    s.add_user_repo(repo("https://a", None));
    s.add_user_repo(repo("https://b", None));
    s.mark_saved();
    let removed = s.retain_user_repos(|_| true);
    assert!(removed.is_empty());
    assert!(!s.is_changed());
    assert_eq!(s.user_repos().len(), 2);
}

#[test]
fn retaining_removes_rejected_repositories_in_order() {
    let mut s = Settings::empty();
    s.add_user_repo(repo("https://a", None));
    s.add_user_repo(repo("https://b", None));
    s.add_user_repo(repo("https://c", None));
    s.mark_saved();
    let removed = s.retain_user_repos(|r| r.url != "https://b");
    assert_eq!(removed.len(), 1);
    assert_eq!(removed[0].url, "https://b");
    let urls: Vec<&str> = s.user_repos().iter().map(|r| r.url.as_str()).collect();
    assert_eq!(urls, vec!["https://a", "https://c"]);
    assert!(s.is_changed());
}

#[test]
fn repository_ids_are_updated_where_they_differ() {
    let mut s = Settings::empty();
    s.add_user_repo(repo("https://a", Some("a")));
    s.add_user_repo(repo("https://b", None));
    s.mark_saved();
    s.update_user_repo_id(|r| if r.url == "https://a" { Ok(Some("a".to_string())) } else { Err(()) });
    assert!(!s.is_changed());
    s.update_user_repo_id(|r| if r.url == "https://b" { Ok(Some("b".to_string())) } else { Err(()) });
    assert!(s.is_changed());
    assert_eq!(s.user_repos()[1].id.as_deref(), Some("b"));
    assert_eq!(s.user_repos()[0].id.as_deref(), Some("a"));
}

#[test]
fn package_folders_and_projects() {
    let mut s = Settings::empty();
    s.add_user_package_folder("/x".to_string());
    s.add_user_package_folder("/y".to_string());
    s.add_user_package_folder("/x".to_string());
    s.remove_user_package_folder("/x");
    assert_eq!(s.user_package_folders(), &["/y".to_string()]);
    s.add_user_project("/first");
    s.add_user_project("/second");
    assert_eq!(s.user_projects(), &["/second".to_string(), "/first".to_string()]);
    s.remove_user_project("/second");
    assert_eq!(s.user_projects(), &["/first".to_string()]);
    s.mark_saved();
    let removed = s.retain_user_projects(|p| p != "/first");
    assert_eq!(removed, vec!["/first".to_string()]);
    assert!(s.user_projects().is_empty());
    assert!(s.is_changed());
}

#[test]
fn hidden_repositories_are_recorded_once_and_shown() {
    let mut s = Settings::empty();
    s.add_user_repo(UserRepoSetting { id: None, url: "https://a".to_string(), name: None });
    s.add_user_repo(UserRepoSetting { id: Some("b-id".to_string()), url: "https://b".to_string(), name: Some("Bee".to_string()) });
    s.add_gui_hidden_repositories("b-id".to_string());
    s.add_gui_hidden_repositories("b-id".to_string());
    s.set_hide_local_user_packages(true);
    let info = TauriRepositoriesInfo::new(&s);
    assert_eq!(info.user_repositories.len(), 2);
    assert_eq!(info.user_repositories[0].id, "https://a");
    assert_eq!(info.user_repositories[0].display_name, "https://a");
    assert_eq!(info.user_repositories[1].id, "b-id");
    assert_eq!(info.user_repositories[1].display_name, "Bee");
    assert_eq!(info.hidden_user_repositories, vec!["b-id".to_string()]);
    assert!(info.hide_local_user_packages);
    s.remove_gui_hidden_repositories("b-id");
    assert!(TauriRepositoriesInfo::new(&s).hidden_user_repositories.is_empty());
}

#[test]
fn an_ok_answer_replaces_the_id_and_an_error_keeps_it() {
    let mut s = Settings::empty();
    s.add_user_repo(repo("https://a", Some("a")));
    s.add_user_repo(repo("https://b", Some("b")));
    s.mark_saved();
    s.update_user_repo_id(|r| if r.url == "https://a" { Ok(None) } else { Err(()) });
    assert!(s.is_changed());
    assert!(s.user_repos()[0].id.is_none());
    assert_eq!(s.user_repos()[1].id.as_deref(), Some("b"));
}
