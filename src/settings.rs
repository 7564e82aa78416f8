use crate::package::tag_view;
use crate::plan::path_listed;
use vstd::prelude::*;

verus! {

/// A repository the user added: its address, and optional id and display name.
pub struct UserRepoSetting {
    pub id: Option<String>,
    pub url: String,
    pub name: Option<String>,
}

/// The user's settings, with a flag that records whether anything was changed
/// since they were loaded or last saved.
pub struct Settings {
    pub user_repos: Vec<UserRepoSetting>,
    pub user_package_folders: Vec<String>,
    pub user_projects: Vec<String>,
    pub show_prerelease_packages: bool,
    pub default_project_path: Option<String>,
    pub project_backup_path: Option<String>,
    pub unity_hub: String,
    pub gui_hidden_repositories: Vec<String>,
    pub hide_local_user_packages: bool,
    pub changed: bool,
}

/// `s` without the entries equal to `p`, in order.
pub open spec fn without(s: Seq<String>, p: Seq<char>) -> Seq<String>
    decreases s.len(),
{
    if s.len() == 0 {
        Seq::empty()
    } else if s.last()@ == p {
        without(s.drop_last(), p)
    } else {
        without(s.drop_last(), p).push(s.last())
    }
}

/// `f` may answer `b` for a string holding `s`.
pub open spec fn answers<F: Fn(&str) -> bool>(f: F, s: Seq<char>, b: bool) -> bool {
    exists|x: &str| x@ == s && #[trigger] f.ensures((x,), b)
}

/// The entries of `s` whose answer in `keep` is `want`, in order.
pub open spec fn select<T>(s: Seq<T>, keep: Seq<bool>, want: bool) -> Seq<T>
    decreases s.len(),
{
    if s.len() == 0 || keep.len() == 0 {
        Seq::empty()
    } else if keep.last() == want {
        select(s.drop_last(), keep.drop_last(), want).push(s.last())
    } else {
        select(s.drop_last(), keep.drop_last(), want)
    }
}

fn remove_all(v: &mut Vec<String>, p: &str)
    ensures
        final(v)@ == without(old(v)@, p@),
{
    let mut old_list: Vec<String> = Vec::new();
    core::mem::swap(v, &mut old_list);
    let ghost initial = old_list@;
    let mut i: usize = 0;
    while i < old_list.len()
        invariant
            old_list@ == initial,
            i <= initial.len(),
            v@ == without(initial.subrange(0, i as int), p@),
        decreases initial.len() - i,
    {
        assert(initial.subrange(0, i + 1).drop_last() =~= initial.subrange(0, i as int));
        if !crate::version::text_eq(old_list[i].as_str(), p) {
            v.push(old_list[i].clone());
        }
        i = i + 1;
    }
    assert(initial.subrange(0, i as int) =~= initial);
}

impl Settings {
    /// The scalar settings and the hidden repositories agree.
    pub open spec fn same_scalars(&self, other: &Settings) -> bool {
        &&& self.show_prerelease_packages == other.show_prerelease_packages
        &&& self.default_project_path == other.default_project_path
        &&& self.project_backup_path == other.project_backup_path
        &&& self.unity_hub == other.unity_hub
        &&& self.gui_hidden_repositories == other.gui_hidden_repositories
        &&& self.hide_local_user_packages == other.hide_local_user_packages
    }

    /// Settings with nothing recorded, and unchanged.
    pub fn empty() -> (r: Settings)
        ensures
            r.user_repos@.len() == 0,
            r.user_package_folders@.len() == 0,
            r.user_projects@.len() == 0,
            !r.show_prerelease_packages,
            r.default_project_path is None,
            r.project_backup_path is None,
            r.unity_hub@.len() == 0,
            r.gui_hidden_repositories@.len() == 0,
            !r.hide_local_user_packages,
            !r.changed,
    {
        Settings {
            user_repos: Vec::new(),
            user_package_folders: Vec::new(),
            user_projects: Vec::new(),
            show_prerelease_packages: false,
            default_project_path: None,
            project_backup_path: None,
            unity_hub: String::new(),
            gui_hidden_repositories: Vec::new(),
            hide_local_user_packages: false,
            changed: false,
        }
    }

    /// Whether the settings need saving.
    pub fn is_changed(&self) -> (r: bool)
        ensures
            r == self.changed,
    {
        self.changed
    }

    /// Records that the settings were saved.
    pub fn mark_saved(&mut self)
        ensures
            !final(self).changed,
            final(self).user_repos == old(self).user_repos,
            final(self).user_package_folders == old(self).user_package_folders,
            final(self).user_projects == old(self).user_projects,
    {
        self.changed = false;
    }

    pub fn user_repos(&self) -> (r: &[UserRepoSetting])
        ensures
            r@ == self.user_repos@,
    {
        self.user_repos.as_slice()
    }

    pub fn user_package_folders(&self) -> (r: &[String])
        ensures
            r@ == self.user_package_folders@,
    {
        self.user_package_folders.as_slice()
    }

    pub fn remove_user_package_folder(&mut self, path: &str)
        ensures
            final(self).user_package_folders@ == without(old(self).user_package_folders@, path@),
            final(self).user_repos == old(self).user_repos,
            final(self).user_projects == old(self).user_projects,
            final(self).same_scalars(&*old(self)),
            final(self).changed,
    {
        remove_all(&mut self.user_package_folders, path);
        self.changed = true;
    }

    pub fn add_user_package_folder(&mut self, path: String)
        ensures
            final(self).user_package_folders@ == old(self).user_package_folders@.push(path),
            final(self).user_repos == old(self).user_repos,
            final(self).changed,
    {
        self.user_package_folders.push(path);
        self.changed = true;
    }

    pub fn add_user_repo(&mut self, repo: UserRepoSetting)
        ensures
            final(self).user_repos@ == old(self).user_repos@.push(repo),
            final(self).user_package_folders == old(self).user_package_folders,
            final(self).changed,
    {
        self.user_repos.push(repo);
        self.changed = true;
    }

    /// Keeps the repositories that `f` accepts and returns the others, both in
    /// their old order. The settings count as changed only if something was removed.
    pub fn retain_user_repos(&mut self, f: impl Fn(&UserRepoSetting) -> bool) -> (removed: Vec<UserRepoSetting>)
        requires
            forall|x: &UserRepoSetting| #[trigger] f.requires((x,)),
        ensures
            exists|keep: Seq<bool>|
                {
                    &&& keep.len() == old(self).user_repos@.len()
                    &&& forall|i: int|
                        0 <= i < keep.len() ==> f.ensures((&old(self).user_repos@[i],), #[trigger] keep[i])
                    &&& final(self).user_repos@ == select(old(self).user_repos@, keep, true)
                    &&& removed@ == select(old(self).user_repos@, keep, false)
                },
            final(self).changed == (old(self).changed || removed@.len() > 0),
            final(self).user_package_folders == old(self).user_package_folders,
            final(self).user_projects == old(self).user_projects,
            final(self).same_scalars(&*old(self)),
    {
        let mut rest: Vec<UserRepoSetting> = Vec::new();
        core::mem::swap(&mut self.user_repos, &mut rest);
        let ghost initial = rest@;
        let ghost mut keep: Seq<bool> = Seq::empty();
        let mut removed: Vec<UserRepoSetting> = Vec::new();
        while rest.len() > 0
            invariant
                forall|x: &UserRepoSetting| #[trigger] f.requires((x,)),
                rest@ == initial.subrange(initial.len() - rest@.len(), initial.len() as int),
                keep.len() == initial.len() - rest@.len(),
                forall|i: int| 0 <= i < keep.len() ==> f.ensures((&initial[i],), #[trigger] keep[i]),
                self.user_repos@ == select(initial.take(keep.len() as int), keep, true),
                removed@ == select(initial.take(keep.len() as int), keep, false),
                initial == old(self).user_repos@,
                self.user_package_folders == old(self).user_package_folders,
                self.user_projects == old(self).user_projects,
                self.same_scalars(&*old(self)),
                self.changed == old(self).changed,
            decreases rest@.len(),
        {
            let ghost at = initial.len() - rest@.len();
            let e = rest.remove(0);
            assert(e == initial[at]);
            assert(rest@ =~= initial.subrange(initial.len() - rest@.len(), initial.len() as int));
            let b = f(&e);
            let ghost k0 = keep;
            proof {
                keep = keep.push(b);
                assert(keep.drop_last() =~= k0);
                assert(initial.take(at + 1).drop_last() =~= initial.take(at));
            }
            if b {
                self.user_repos.push(e);
            } else {
                removed.push(e);
            }
        }
        assert(initial.take(keep.len() as int) =~= initial);
        if removed.len() > 0 {
            self.changed = true;
        }
        removed
    }

    /// Asks `new_id` for each repository's id: an `Ok` answer becomes the id,
    /// an `Err` leaves it. The settings count as changed when some id changed.
    pub fn update_user_repo_id(&mut self, new_id: impl Fn(&UserRepoSetting) -> Result<Option<String>, ()>)
        requires
            forall|x: &UserRepoSetting| #[trigger] new_id.requires((x,)),
        ensures
            final(self).user_repos@.len() == old(self).user_repos@.len(),
            forall|i: int|
                0 <= i < final(self).user_repos@.len() ==> {
                    &&& (#[trigger] final(self).user_repos@[i]).url == old(self).user_repos@[i].url
                    &&& final(self).user_repos@[i].name == old(self).user_repos@[i].name
                    &&& exists|a: Result<Option<String>, ()>|
                        #[trigger] new_id.ensures((&old(self).user_repos@[i],), a) && tag_view(
                            final(self).user_repos@[i].id,
                        ) == tag_view(
                            match a {
                                Ok(x) => x,
                                Err(_) => old(self).user_repos@[i].id,
                            },
                        )
                },
            final(self).changed == (old(self).changed || exists|i: int|
                0 <= i < final(self).user_repos@.len() && tag_view(
                    (#[trigger] final(self).user_repos@[i]).id,
                ) != tag_view(old(self).user_repos@[i].id)),
            final(self).user_package_folders == old(self).user_package_folders,
            final(self).user_projects == old(self).user_projects,
            final(self).same_scalars(&*old(self)),
    {
        let ghost initial = self.user_repos@;
        let ghost mut answers: Seq<Result<Option<String>, ()>> = Seq::empty();
        let mut i: usize = 0;
        while i < self.user_repos.len()
            invariant
                forall|x: &UserRepoSetting| #[trigger] new_id.requires((x,)),
                self.user_repos@.len() == initial.len(),
                i <= initial.len(),
                answers.len() == i,
                forall|j: int| i <= j < initial.len() ==> #[trigger] self.user_repos@[j] == initial[j],
                forall|j: int|
                    0 <= j < i ==> {
                        &&& (#[trigger] self.user_repos@[j]).url == initial[j].url
                        &&& self.user_repos@[j].name == initial[j].name
                        &&& new_id.ensures((&initial[j],), answers[j])
                        &&& tag_view(self.user_repos@[j].id) == tag_view(
                            match answers[j] {
                                Ok(x) => x,
                                Err(_) => initial[j].id,
                            },
                        )
                    },
                self.changed == (old(self).changed || exists|j: int|
                    0 <= j < i && tag_view((#[trigger] self.user_repos@[j]).id) != tag_view(initial[j].id)),
                initial == old(self).user_repos@,
                self.user_package_folders == old(self).user_package_folders,
                self.user_projects == old(self).user_projects,
                self.same_scalars(&*old(self)),
            decreases initial.len() - i,
        {
            let answer = new_id(&self.user_repos[i]);
            proof {
                answers = answers.push(answer);
            }
            let ghost before = self.user_repos@;
            let ghost changed0 = self.changed;
            match answer {
                Ok(id) => {
                    let same = match (&id, &self.user_repos[i].id) {
                        (Some(a), Some(b)) => *a == *b,
                        (None, None) => true,
                        _ => false,
                    };
                    if !same {
                        let mut repo = self.user_repos.remove(i);
                        repo.id = id;
                        self.user_repos.insert(i, repo);
                        self.changed = true;
                        assert(self.user_repos@[i as int].id == answers[i as int].unwrap());
                    }
                },
                Err(_) => {},
            }
            proof {
                assert forall|j: int| i < j < initial.len() implies #[trigger] self.user_repos@[j] == initial[j] by {
                    assert(self.user_repos@[j] == before[j]);
                }
                assert forall|j: int| 0 <= j < i implies #[trigger] self.user_repos@[j] == before[j] by {}
                if self.changed && !changed0 {
                    assert(tag_view(self.user_repos@[i as int].id) != tag_view(initial[i as int].id));
                }
                if exists|j: int| 0 <= j < i + 1 && tag_view((#[trigger] self.user_repos@[j]).id) != tag_view(initial[j].id) {
                    let j = choose|j: int| 0 <= j < i + 1 && tag_view((#[trigger] self.user_repos@[j]).id) != tag_view(initial[j].id);
                    if j < i {
                        assert(tag_view(before[j].id) != tag_view(initial[j].id));
                    }
                }
            }
            i = i + 1;
        }
        proof {
            assert forall|j: int| #![trigger self.user_repos@[j]] 0 <= j < self.user_repos@.len() implies exists|a: Result<Option<String>, ()>|
                #[trigger] new_id.ensures((&initial[j],), a) && tag_view(self.user_repos@[j].id) == tag_view(
                    match a {
                        Ok(x) => x,
                        Err(_) => initial[j].id,
                    },
                ) by {
                assert(self.user_repos@[j].url == initial[j].url);
                assert(new_id.ensures((&initial[j],), answers[j]));
            }
        }
    }

    pub fn show_prerelease_packages(&self) -> (r: bool)
        ensures
            r == self.show_prerelease_packages,
    {
        self.show_prerelease_packages
    }

    pub fn set_show_prerelease_packages(&mut self, value: bool)
        ensures
            final(self).show_prerelease_packages == value,
            final(self).changed,
            final(self).user_repos == old(self).user_repos,
    {
        self.show_prerelease_packages = value;
        self.changed = true;
    }

    pub fn default_project_path(&self) -> (r: Option<&str>)
        ensures
            match self.default_project_path {
                Some(p) => r matches Some(x) && x@ == p@,
                None => r is None,
            },
    {
        match &self.default_project_path {
            Some(p) => Some(p.as_str()),
            None => None,
        }
    }

    pub fn set_default_project_path(&mut self, value: &str)
        ensures
            final(self).default_project_path matches Some(p) && p@ == value@,
            final(self).changed,
            final(self).user_repos == old(self).user_repos,
    {
        self.default_project_path = Some(String::from_str(value));
        self.changed = true;
    }

    pub fn project_backup_path(&self) -> (r: Option<&str>)
        ensures
            match self.project_backup_path {
                Some(p) => r matches Some(x) && x@ == p@,
                None => r is None,
            },
    {
        match &self.project_backup_path {
            Some(p) => Some(p.as_str()),
            None => None,
        }
    }

    pub fn set_project_backup_path(&mut self, value: &str)
        ensures
            final(self).project_backup_path matches Some(p) && p@ == value@,
            final(self).changed,
            final(self).user_repos == old(self).user_repos,
    {
        self.project_backup_path = Some(String::from_str(value));
        self.changed = true;
    }

    pub fn unity_hub(&self) -> (r: &str)
        ensures
            r@ == self.unity_hub@,
    {
        self.unity_hub.as_str()
    }

    pub fn set_unity_hub(&mut self, path: &str)
        ensures
            final(self).unity_hub@ == path@,
            final(self).changed,
            final(self).user_repos == old(self).user_repos,
    {
        self.unity_hub = String::from_str(path);
        self.changed = true;
    }

    pub fn user_projects(&self) -> (r: &[String])
        ensures
            r@ == self.user_projects@,
    {
        self.user_projects.as_slice()
    }

    /// Keeps the projects that `f` accepts and returns the others, both in
    /// their old order. The settings count as changed only if something was removed.
    pub fn retain_user_projects(&mut self, f: impl Fn(&str) -> bool) -> (removed: Vec<String>)
        requires
            forall|x: &str| #[trigger] f.requires((x,)),
        ensures
            exists|keep: Seq<bool>|
                {
                    &&& keep.len() == old(self).user_projects@.len()
                    &&& forall|i: int|
                        0 <= i < keep.len() ==> answers(f, old(self).user_projects@[i]@, #[trigger] keep[i])
                    &&& final(self).user_projects@ == select(old(self).user_projects@, keep, true)
                    &&& removed@ == select(old(self).user_projects@, keep, false)
                },
            final(self).changed == (old(self).changed || removed@.len() > 0),
            final(self).user_repos == old(self).user_repos,
            final(self).user_package_folders == old(self).user_package_folders,
            final(self).same_scalars(&*old(self)),
    {
        let mut rest: Vec<String> = Vec::new();
        core::mem::swap(&mut self.user_projects, &mut rest);
        let ghost initial = rest@;
        let ghost mut keep: Seq<bool> = Seq::empty();
        let mut removed: Vec<String> = Vec::new();
        while rest.len() > 0
            invariant
                forall|x: &str| #[trigger] f.requires((x,)),
                rest@ == initial.subrange(initial.len() - rest@.len(), initial.len() as int),
                keep.len() == initial.len() - rest@.len(),
                forall|i: int| 0 <= i < keep.len() ==> answers(f, initial[i]@, #[trigger] keep[i]),
                self.user_projects@ == select(initial.take(keep.len() as int), keep, true),
                removed@ == select(initial.take(keep.len() as int), keep, false),
                initial == old(self).user_projects@,
                self.user_repos == old(self).user_repos,
                self.user_package_folders == old(self).user_package_folders,
                self.same_scalars(&*old(self)),
                self.changed == old(self).changed,
            decreases rest@.len(),
        {
            let ghost at = initial.len() - rest@.len();
            let e = rest.remove(0);
            assert(e == initial[at]);
            assert(rest@ =~= initial.subrange(initial.len() - rest@.len(), initial.len() as int));
            let text = e.as_str();
            let b = f(text);
            let ghost k0 = keep;
            proof {
                keep = keep.push(b);
                assert(keep.drop_last() =~= k0);
                assert(initial.take(at + 1).drop_last() =~= initial.take(at));
                assert(f.ensures((text,), keep[at]));
                assert(answers(f, initial[at]@, keep[at]));
                assert forall|i: int| 0 <= i < keep.len() implies answers(f, initial[i]@, #[trigger] keep[i]) by {
                    if i < at {
                        assert(keep[i] == k0[i]);
                    }
                }
            }
            if b {
                self.user_projects.push(e);
            } else {
                removed.push(e);
            }
        }
        assert(initial.take(keep.len() as int) =~= initial);
        if removed.len() > 0 {
            self.changed = true;
        }
        removed
    }

    pub fn remove_user_project(&mut self, path: &str)
        ensures
            final(self).user_projects@ == without(old(self).user_projects@, path@),
            final(self).user_repos == old(self).user_repos,
            final(self).changed,
    {
        remove_all(&mut self.user_projects, path);
        self.changed = true;
    }

    /// Records a project first in the list.
    pub fn add_user_project(&mut self, path: &str)
        ensures
            final(self).user_projects@.len() == old(self).user_projects@.len() + 1,
            final(self).user_projects@[0]@ == path@,
            final(self).user_projects@.subrange(1, final(self).user_projects@.len() as int) == old(
                self,
            ).user_projects@,
            final(self).user_repos == old(self).user_repos,
            final(self).changed,
    {
        self.user_projects.insert(0, String::from_str(path));
        assert(self.user_projects@.subrange(1, self.user_projects@.len() as int) =~= old(self).user_projects@);
        self.changed = true;
    }
    /// Hides a repository from the package list; it is recorded once.
    pub fn add_gui_hidden_repositories(&mut self, repository: String)
        ensures
            path_listed(final(self).gui_hidden_repositories@, repository@),
            forall|i: int|
                0 <= i < old(self).gui_hidden_repositories@.len() ==> path_listed(
                    final(self).gui_hidden_repositories@,
                    (#[trigger] old(self).gui_hidden_repositories@[i])@,
                ),
            final(self).user_repos == old(self).user_repos,
            final(self).changed,
    {
        let mut i: usize = 0;
        while i < self.gui_hidden_repositories.len()
            invariant
                self.gui_hidden_repositories == old(self).gui_hidden_repositories,
                self.user_repos == old(self).user_repos,
                i <= self.gui_hidden_repositories@.len(),
                forall|j: int| 0 <= j < i ==> (#[trigger] self.gui_hidden_repositories@[j])@ != repository@,
            decreases self.gui_hidden_repositories@.len() - i,
        {
            if self.gui_hidden_repositories[i] == repository {
                self.changed = true;
                assert(self.gui_hidden_repositories@[i as int]@ == repository@);
                assert forall|k: int| 0 <= k < old(self).gui_hidden_repositories@.len() implies path_listed(
                    self.gui_hidden_repositories@,
                    (#[trigger] old(self).gui_hidden_repositories@[k])@,
                ) by {
                    assert(self.gui_hidden_repositories@[k] == old(self).gui_hidden_repositories@[k]);
                }
                return;
            }
            i = i + 1;
        }
        let ghost before = self.gui_hidden_repositories@;
        self.gui_hidden_repositories.push(repository);
        assert(self.gui_hidden_repositories@[before.len() as int] == repository);
        assert forall|k: int| 0 <= k < before.len() implies path_listed(
            self.gui_hidden_repositories@,
            (#[trigger] before[k])@,
        ) by {
            assert(self.gui_hidden_repositories@[k] == before[k]);
        }
        self.changed = true;
    }

    /// Shows a hidden repository again.
    pub fn remove_gui_hidden_repositories(&mut self, repository: &str)
        ensures
            final(self).gui_hidden_repositories@ == without(old(self).gui_hidden_repositories@, repository@),
            final(self).user_repos == old(self).user_repos,
            final(self).changed,
    {
        remove_all(&mut self.gui_hidden_repositories, repository);
        self.changed = true;
    }

    pub fn set_hide_local_user_packages(&mut self, value: bool)
        ensures
            final(self).hide_local_user_packages == value,
            final(self).gui_hidden_repositories == old(self).gui_hidden_repositories,
            final(self).user_repos == old(self).user_repos,
            final(self).changed,
    {
        self.hide_local_user_packages = value;
        self.changed = true;
    }
}

/// A user repository as shown to a client.
pub struct TauriUserRepository {
    pub id: String,
    pub display_name: String,
}

/// The repositories view: user repositories, hidden ones, and whether local
/// packages are hidden.
pub struct TauriRepositoriesInfo {
    pub user_repositories: Vec<TauriUserRepository>,
    pub hidden_user_repositories: Vec<String>,
    pub hide_local_user_packages: bool,
}

fn copy_text(s: &String) -> (r: String)
    ensures
        r@ == s@,
{
    s.clone()
}

impl TauriRepositoriesInfo {
    /// Shows each user repository by its id, or its address where it has none,
    /// and by its name, or that id where it has none.
    pub fn new(settings: &Settings) -> (r: TauriRepositoriesInfo)
        ensures
            r.user_repositories@.len() == settings.user_repos@.len(),
            forall|i: int|
                0 <= i < settings.user_repos@.len() ==> {
                    let repo = settings.user_repos@[i];
                    let id = match repo.id {
                        Some(x) => x@,
                        None => repo.url@,
                    };
                    &&& (#[trigger] r.user_repositories@[i]).id@ == id
                    &&& r.user_repositories@[i].display_name@ == match repo.name {
                        Some(n) => n@,
                        None => id,
                    }
                },
            r.hidden_user_repositories@.len() == settings.gui_hidden_repositories@.len(),
            forall|i: int|
                0 <= i < settings.gui_hidden_repositories@.len() ==> (#[trigger] r.hidden_user_repositories@[i])@
                    == settings.gui_hidden_repositories@[i]@,
            r.hide_local_user_packages == settings.hide_local_user_packages,
    {
        let mut repos: Vec<TauriUserRepository> = Vec::new();
        let mut i: usize = 0;
        while i < settings.user_repos.len()
            invariant
                i <= settings.user_repos@.len(),
                repos@.len() == i,
                forall|j: int|
                    0 <= j < i ==> {
                        let repo = settings.user_repos@[j];
                        let id = match repo.id {
                            Some(x) => x@,
                            None => repo.url@,
                        };
                        &&& (#[trigger] repos@[j]).id@ == id
                        &&& repos@[j].display_name@ == match repo.name {
                            Some(n) => n@,
                            None => id,
                        }
                    },
            decreases settings.user_repos@.len() - i,
        {
            let repo = &settings.user_repos[i];
            let id = match &repo.id {
                Some(x) => copy_text(x),
                None => copy_text(&repo.url),
            };
            let display_name = match &repo.name {
                Some(n) => copy_text(n),
                None => copy_text(&id),
            };
            repos.push(TauriUserRepository { id, display_name });
            i = i + 1;
        }
        let mut hidden: Vec<String> = Vec::new();
        let mut h: usize = 0;
        while h < settings.gui_hidden_repositories.len()
            invariant
                h <= settings.gui_hidden_repositories@.len(),
                hidden@.len() == h,
                forall|j: int| 0 <= j < h ==> (#[trigger] hidden@[j])@ == settings.gui_hidden_repositories@[j]@,
            decreases settings.gui_hidden_repositories@.len() - h,
        {
            hidden.push(copy_text(&settings.gui_hidden_repositories[h]));
            h = h + 1;
        }
        TauriRepositoriesInfo {
            user_repositories: repos,
            hidden_user_repositories: hidden,
            hide_local_user_packages: settings.hide_local_user_packages,
        }
    }
}

} // verus!
