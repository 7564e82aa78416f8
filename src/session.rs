use crate::commands::{pending_shown, package_shown, TauriPackage, TauriPendingProjectChanges, TauriProject, UserProject};
use crate::index::PackageIndex;
use crate::plan::{plan_describes, plan_install, PendingChanges};
use crate::planner::{
    classify_operation, names_distinct, operation_of, resolved, solving_failed, ProjectState, VersionSolvingError,
};
use vstd::prelude::*;

verus! {

/// Why a session request was turned down.
#[derive(Debug)]
pub enum SessionError {
    /// A version stamp no longer matches the session: plan again.
    StaleState,
    /// No catalog has been loaded yet.
    NoCatalog,
    /// The package position lies outside the catalog.
    NoSuchPackage,
    /// No plan is waiting to be applied.
    NoPendingChanges,
    /// The dependencies of the request cannot be satisfied.
    VersionSolving(VersionSolvingError),
}

/// A plan together with the catalog version it was computed against and its own version.
pub struct PendingProjectChangesInfo {
    pub environment_version: u64,
    pub changes_version: u64,
    pub changes: PendingChanges,
}

/// The state shared by all requests of one session: the cached catalog, the
/// project list and the last plan, each with its counter.
pub struct EnvironmentState {
    pub packages: Option<PackageIndex>,
    pub environment_version: u64,
    pub projects: Vec<UserProject>,
    pub projects_version: u64,
    pub changes_info: Option<PendingProjectChangesInfo>,
    pub changes_counter: u64,
}

/// A plan may be applied under `changes_version` exactly when it is the live
/// plan and the catalog it was computed against is still the current one.
pub open spec fn apply_allowed(s: EnvironmentState, changes_version: u64) -> bool {
    match s.changes_info {
        Some(info) => info.changes_version == changes_version && info.environment_version
            == s.environment_version,
        None => false,
    }
}

impl EnvironmentState {
    pub fn new() -> (r: EnvironmentState)
        ensures
            r.packages is None,
            r.environment_version == 0,
            r.projects@.len() == 0,
            r.projects_version == 0,
            r.changes_info is None,
            r.changes_counter == 0,
    {
        EnvironmentState {
            packages: None,
            environment_version: 0,
            projects: Vec::new(),
            projects_version: 0,
            changes_info: None,
            changes_counter: 0,
        }
    }

    /// Publishes a freshly loaded catalog and bumps the catalog counter in the same step.
    pub fn replace_packages(&mut self, packages: PackageIndex)
        requires
            old(self).environment_version < u64::MAX,
        ensures
            final(self).packages == Some(packages),
            final(self).environment_version == old(self).environment_version + 1,
            final(self).projects == old(self).projects,
            final(self).projects_version == old(self).projects_version,
            final(self).changes_info == old(self).changes_info,
            final(self).changes_counter == old(self).changes_counter,
    {
        self.packages = Some(packages);
        self.environment_version = self.environment_version + 1;
    }

    /// Publishes a freshly enumerated project list and bumps its counter in the same step.
    pub fn replace_projects(&mut self, projects: Vec<UserProject>)
        requires
            old(self).projects_version < u64::MAX,
        ensures
            final(self).projects == projects,
            final(self).projects_version == old(self).projects_version + 1,
            final(self).packages == old(self).packages,
            final(self).environment_version == old(self).environment_version,
            final(self).changes_info == old(self).changes_info,
            final(self).changes_counter == old(self).changes_counter,
    {
        self.projects = projects;
        self.projects_version = self.projects_version + 1;
    }

    /// Plans installing catalog entry `package_index` into `project`, when
    /// `env_version` is still the catalog version. The plan becomes the live
    /// one, replacing any earlier plan, under a fresh plan version.
    pub fn install_package(&mut self, project: &ProjectState, env_version: u64, package_index: usize) -> (r:
        Result<TauriPendingProjectChanges, SessionError>)
        requires
            project.wf(),
            old(self).changes_counter < u64::MAX,
        ensures
            final(self).packages == old(self).packages,
            final(self).environment_version == old(self).environment_version,
            final(self).projects == old(self).projects,
            final(self).projects_version == old(self).projects_version,
            (r matches Err(SessionError::StaleState)) <==> env_version != old(self).environment_version,
            (r matches Err(SessionError::NoCatalog)) <==> (env_version == old(self).environment_version
                && old(self).packages is None),
            (r matches Err(SessionError::NoSuchPackage)) <==> (env_version == old(self).environment_version
                && old(self).packages is Some && package_index >= old(self).packages.unwrap().packages@.len()),
            r is Err ==> final(self).changes_info == old(self).changes_info && final(self).changes_counter
                == old(self).changes_counter,
            r is Ok ==> final(self).changes_counter == old(self).changes_counter + 1,
            r is Ok ==> r.unwrap().changes_version == final(self).changes_counter,
            r is Ok ==> final(self).changes_info is Some,
            r is Ok ==> final(self).changes_info.unwrap().changes_version == final(self).changes_counter,
            r is Ok ==> final(self).changes_info.unwrap().environment_version == env_version,
            match r {
                Ok(shown) => {
                    let cat = old(self).packages.unwrap();
                    let plan = final(self).changes_info.unwrap().changes;
                    &&& pending_shown(shown, final(self).changes_counter, plan, cat)
                    &&& exists|chosen: Seq<usize>|
                        resolved(cat, *project, seq![package_index], chosen, false) && #[trigger] plan_describes(
                            cat,
                            *project,
                            seq![package_index],
                            operation_of(*project, cat.packages@[package_index as int].package),
                            chosen,
                            plan,
                        )
                },
                Err(SessionError::VersionSolving(e)) => solving_failed(
                    old(self).packages.unwrap(),
                    *project,
                    seq![package_index],
                    false,
                    e,
                ),
                Err(_) => true,
            },
    {
        if env_version != self.environment_version {
            return Err(SessionError::StaleState);
        }
        let catalog = match &self.packages {
            Some(p) => p,
            None => return Err(SessionError::NoCatalog),
        };
        if package_index >= catalog.packages.len() {
            return Err(SessionError::NoSuchPackage);
        }
        let operation = classify_operation(project, &catalog.packages[package_index].package);
        let mut requested: Vec<usize> = Vec::new();
        requested.push(package_index);
        assert(requested@ =~= seq![package_index]);
        assert(names_distinct(*catalog, requested@));
        let changes = match plan_install(catalog, project, &requested, operation, false) {
            Ok(c) => c,
            Err(e) => return Err(SessionError::VersionSolving(e)),
        };
        let ghost cat = *catalog;
        let ghost ch = changes;
        let ghost chosen = choose|c: Seq<usize>|
            resolved(cat, *project, requested@, c, false) && plan_describes(cat, *project, requested@, operation, c, ch);
        assert(plan_describes(
            cat,
            *project,
            seq![package_index],
            operation_of(*project, cat.packages@[package_index as int].package),
            chosen,
            ch,
        ));
        let new_version = self.changes_counter + 1;
        let shown = TauriPendingProjectChanges::new(new_version, &changes, catalog);
        self.changes_counter = new_version;
        self.changes_info = Some(
            PendingProjectChangesInfo { environment_version: env_version, changes_version: new_version, changes },
        );
        assert(cat == old(self).packages.unwrap());
        assert(self.changes_info.unwrap().changes == ch);
        assert(pending_shown(shown, self.changes_counter, ch, cat));
        assert(resolved(cat, *project, seq![package_index], chosen, false));
        Ok(shown)
    }

    /// Hands out the live plan for applying. It leaves the session either way;
    /// it is handed out only when `changes_version` names it and the catalog
    /// has not been reloaded since it was computed.
    pub fn take_pending_changes(&mut self, changes_version: u64) -> (r: Result<PendingChanges, SessionError>)
        ensures
            final(self).changes_info is None,
            final(self).packages == old(self).packages,
            final(self).environment_version == old(self).environment_version,
            final(self).projects == old(self).projects,
            final(self).projects_version == old(self).projects_version,
            final(self).changes_counter == old(self).changes_counter,
            r is Ok <==> apply_allowed(*old(self), changes_version),
            r is Ok ==> old(self).changes_info is Some && r.unwrap() == old(self).changes_info.unwrap().changes,
            old(self).changes_info is None ==> r matches Err(SessionError::NoPendingChanges),
            old(self).changes_info is Some && !apply_allowed(*old(self), changes_version) ==> r matches Err(
                SessionError::StaleState,
            ),
    {
        let info = match self.changes_info.take() {
            Some(i) => i,
            None => return Err(SessionError::NoPendingChanges),
        };
        if info.changes_version != changes_version {
            return Err(SessionError::StaleState);
        }
        if info.environment_version != self.environment_version {
            return Err(SessionError::StaleState);
        }
        Ok(info.changes)
    }
}

/// Reloading the catalog after a plan was stamped makes that plan stale: no
/// version stamp lets it be applied any more.
pub proof fn lemma_reload_makes_plan_stale(before: EnvironmentState, after: EnvironmentState, changes_version: u64)
    requires
        before.changes_info is Some,
        before.changes_info.unwrap().environment_version == before.environment_version,
        after.environment_version == before.environment_version + 1,
        after.changes_info == before.changes_info,
    ensures
        !apply_allowed(after, changes_version),
{
}

/// Every repository of the catalog can be shown: it has an id or an address.
pub open spec fn repositories_shown(catalog: PackageIndex) -> bool {
    forall|p: int|
        0 <= p < catalog.repositories@.len() ==> (#[trigger] catalog.repositories@[p]).id is Some
            || catalog.repositories@[p].url is Some
}

impl EnvironmentState {
    /// Publishes a freshly enumerated project list and shows it, each project
    /// with its position and a list version that changes whenever the catalog
    /// or the project list is replaced: the sum of the two counters.
    pub fn environment_projects(&mut self, projects: Vec<UserProject>) -> (r: Vec<TauriProject>)
        requires
            old(self).environment_version + old(self).projects_version < u64::MAX,
        ensures
            final(self).projects == projects,
            final(self).projects_version == old(self).projects_version + 1,
            final(self).packages == old(self).packages,
            final(self).environment_version == old(self).environment_version,
            final(self).changes_info == old(self).changes_info,
            r@.len() == projects@.len(),
            forall|i: int|
                0 <= i < r@.len() ==> (#[trigger] r@[i]).list_version == final(self).environment_version
                    + final(self).projects_version && r@[i].index == i && r@[i].name@ == projects@[i].name@ && r@[i].path@
                    == projects@[i].path@,
    {
        self.replace_projects(projects);
        let list_version = self.environment_version + self.projects_version;
        let mut r: Vec<TauriProject> = Vec::new();
        let mut i: usize = 0;
        while i < self.projects.len()
            invariant
                i <= self.projects@.len(),
                r@.len() == i,
                forall|j: int|
                    0 <= j < i ==> (#[trigger] r@[j]).list_version == list_version && r@[j].index
                        == j && r@[j].name@ == self.projects@[j].name@ && r@[j].path@ == self.projects@[j].path@,
            decreases self.projects@.len() - i,
        {
            r.push(TauriProject::new(list_version, i, &self.projects[i]));
            i = i + 1;
        }
        r
    }

    /// Publishes a freshly loaded catalog and shows every package in it, each
    /// with the new catalog version and its position.
    pub fn environment_packages(&mut self, packages: PackageIndex) -> (r: Vec<TauriPackage>)
        requires
            old(self).environment_version < u64::MAX,
            packages.wf(),
            repositories_shown(packages),
        ensures
            final(self).packages == Some(packages),
            final(self).environment_version == old(self).environment_version + 1,
            final(self).projects == old(self).projects,
            final(self).changes_info == old(self).changes_info,
            r@.len() == packages.packages@.len(),
            forall|i: int|
                0 <= i < r@.len() ==> package_shown(#[trigger] r@[i], final(self).environment_version, i as usize, packages),
    {
        self.replace_packages(packages);
        let version = self.environment_version;
        let mut r: Vec<TauriPackage> = Vec::new();
        match &self.packages {
            Some(catalog) => {
                let mut i: usize = 0;
                while i < catalog.packages.len()
                    invariant
                        catalog.wf(),
                        repositories_shown(*catalog),
                        i <= catalog.packages@.len(),
                        r@.len() == i,
                        forall|j: int| 0 <= j < i ==> package_shown(#[trigger] r@[j], version, j as usize, *catalog),
                    decreases catalog.packages@.len() - i,
                {
                    proof {
                        if let Some(p) = catalog.packages@[i as int].repo {
                            assert(catalog.repositories@[p as int].id is Some
                                || catalog.repositories@[p as int].url is Some);
                        }
                    }
                    r.push(TauriPackage::new(version, i, catalog));
                    i = i + 1;
                }
            },
            None => {},
        }
        r
    }
}

} // verus!
