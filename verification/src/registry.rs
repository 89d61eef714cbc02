//! The registry the application keeps, and when it may be changed.

use vstd::prelude::*;
use vstd::string::*;

use crate::model::{Project, ProjectId, ProjectModel};
use crate::project::{
    error_text, lemma_position_of, position_of, project_views, ErrorModel, RegistryError,
};
use crate::text::same_text;

verus! {

/// Shown where the registry cannot be reached: another thread failed while
/// changing it, and there is no safe recovery.
pub const POISONED: &'static str = "the project registry is unavailable after an internal error";

/// Shown where a change is refused because the saved registry could not be read.
pub const WRITE_REFUSED: &'static str = "refusing to change the project registry: the saved registry could not be read and could not be moved aside, so writing now would overwrite it";

/// The registered projects, and whether they may be changed.
#[derive(Debug, PartialEq, Eq)]
pub struct AppState {
    /// In the order the user added them.
    projects: Vec<Project>,
    /// Why the registry must not be written, if it must not be.
    ///
    /// Set where the stored registry could not be read *and* could not be moved
    /// aside. The file may still hold every project the user registered;
    /// `projects` is empty only because the read failed.
    write_refused: Option<String>,
}

/// The registry, as text.
#[verifier::ext_equal]
pub struct StateModel {
    pub projects: Seq<ProjectModel>,
    pub write_refused: Option<Seq<char>>,
}

impl View for AppState {
    type V = StateModel;

    closed spec fn view(&self) -> StateModel {
        StateModel {
            projects: project_views(self.projects@),
            write_refused: match self.write_refused {
                Some(reason) => Some(reason@),
                None => None,
            },
        }
    }
}

/// The reason changes are refused after an error.
pub open spec fn refusal_text(error: ErrorModel) -> Seq<char> {
    WRITE_REFUSED@ + " ("@ + error_text(error) + ")"@
}

/// The registry after a start, given what loading it gave, and whether a
/// malformed one was moved aside.
///
/// An empty registry after a failed read means *unknown*, not *none*: so either
/// the old file is kept somewhere else, or changes are refused.
pub open spec fn restored(
    state: StateModel,
    loaded: Result<Vec<Project>, RegistryError>,
    moved_aside: bool,
) -> StateModel {
    match loaded {
        Ok(projects) => StateModel { projects: project_views(projects@), ..state },
        Err(error) => if error@ is Corrupt && moved_aside {
            state
        } else {
            StateModel { write_refused: Some(refusal_text(error@)), ..state }
        },
    }
}

/// What is said of an id that is not registered.
pub open spec fn not_registered_text(project_id: Seq<char>) -> Seq<char> {
    "`"@ + project_id + "` is not a registered project"@
}

/// What is said of a project that has no running watcher.
pub open spec fn not_watched_text(project_id: Seq<char>) -> Seq<char> {
    "`"@ + project_id + "` is not being watched"@
}

/// Whether an error is one after which the stored registry is to be moved aside.
///
/// Only for a file that exists and does not parse. Any other failure says
/// nothing about its contents.
pub fn is_quarantined(error: &RegistryError) -> (quarantined: bool)
    ensures
        quarantined == (error@ is Corrupt),
{
    match error {
        RegistryError::Corrupt { .. } => true,
        _ => false,
    }
}

fn copies(projects: &Vec<Project>) -> (copy: Vec<Project>)
    ensures
        project_views(copy@) == project_views(projects@),
{
    let mut copy: Vec<Project> = Vec::new();
    let mut i: usize = 0;
    while i < projects.len()
        invariant
            i <= projects@.len(),
            copy@.len() == i,
            forall|j: int| 0 <= j < i ==> (#[trigger] copy@[j])@ == projects@[j]@,
        decreases projects@.len() - i,
    {
        copy.push(projects[i].clone());
        i += 1;
    }
    assert(project_views(copy@) =~= project_views(projects@));
    copy
}

fn same_projects(a: &Vec<Project>, b: &Vec<Project>) -> (same: bool)
    ensures
        same == (project_views(a@) == project_views(b@)),
{
    let ghost left = project_views(a@);
    let ghost right = project_views(b@);
    assert(left.len() == a@.len() && right.len() == b@.len());
    if a.len() != b.len() {
        return false;
    }
    let mut i: usize = 0;
    while i < a.len()
        invariant
            i <= a@.len(),
            a@.len() == b@.len(),
            left == project_views(a@),
            right == project_views(b@),
            forall|j: int| 0 <= j < i ==> left[j] == right[j],
        decreases a@.len() - i,
    {
        if !a[i].same(&b[i]) {
            assert(left[i as int] != right[i as int]);
            return false;
        }
        i += 1;
    }
    assert(left =~= right);
    true
}

impl AppState {
    pub fn new() -> (state: Self)
        ensures
            state@.projects.len() == 0,
            state@.write_refused is None,
    {
        AppState { projects: Vec::new(), write_refused: None }
    }

    /// The registered projects, in the order the user added them.
    pub fn list_projects(&self) -> (projects: Vec<Project>)
        ensures
            project_views(projects@) == self@.projects,
    {
        copies(&self.projects)
    }

    /// Why changes are refused, if they are.
    pub fn write_refused(&self) -> (reason: Option<&str>)
        ensures
            reason is Some <==> self@.write_refused is Some,
            reason matches Some(reason) ==> self@.write_refused == Some(reason@),
    {
        match &self.write_refused {
            Some(reason) => Some(reason.as_str()),
            None => None,
        }
    }

    /// Begin a change: a copy of the registry to change, or why there is none.
    pub fn begin(&self) -> (candidate: Result<Vec<Project>, String>)
        ensures
            candidate is Err <==> self@.write_refused is Some,
            candidate matches Err(reason) ==> self@.write_refused == Some(reason@),
            candidate matches Ok(candidate) ==> project_views(candidate@) == self@.projects,
    {
        match &self.write_refused {
            Some(reason) => Err(reason.clone()),
            None => Ok(copies(&self.projects)),
        }
    }

    /// Whether a changed copy differs from the registry, so that it has to be
    /// saved.
    pub fn differs(&self, candidate: &Vec<Project>) -> (differs: bool)
        ensures
            differs == (project_views(candidate@) != self@.projects),
    {
        !same_projects(candidate, &self.projects)
    }

    /// End a change, given what saving it gave. Only a change that was saved is
    /// seen: after a failed write the registry and the file still agree.
    pub fn commit(&mut self, candidate: Vec<Project>, saved: Result<(), RegistryError>) -> (done: Result<
        (),
        String,
    >)
        requires
            old(self)@.write_refused is None,
        ensures
            saved is Ok ==> done is Ok && final(self)@ == (StateModel {
                projects: project_views(candidate@),
                ..old(self)@
            }),
            saved matches Err(error) ==> (done matches Err(reason) && reason@ == error_text(error@))
                && final(self)@ == old(self)@,
    {
        match saved {
            Ok(()) => {
                self.projects = candidate;
                Ok(())
            },
            Err(error) => Err(error.message()),
        }
    }

    /// Take over the stored registry at the start, given what loading it gave,
    /// and whether a malformed one was moved aside.
    pub fn restore(&mut self, loaded: Result<Vec<Project>, RegistryError>, moved_aside: bool)
        ensures
            final(self)@ == restored(old(self)@, loaded, moved_aside),
    {
        match loaded {
            Ok(projects) => {
                self.projects = projects;
            },
            Err(error) => {
                let kept = is_quarantined(&error) && moved_aside;
                if !kept {
                    let mut reason = String::from_str(WRITE_REFUSED);
                    reason.append(" (");
                    reason.append(error.message().as_str());
                    reason.append(")");
                    self.write_refused = Some(reason);
                }
            },
        }
    }

    /// The canonical root of a registered project. Read from the registry rather
    /// than taken from outside.
    pub fn project_root(&self, project_id: &str) -> (root: Result<String, String>)
        ensures
            ({
                let at = position_of(self@.projects, project_id@) as int;
                &&& at < self@.projects.len() ==> (root matches Ok(root) && root@
                    == self@.projects[at].path)
                &&& at == self@.projects.len() ==> (root matches Err(reason) && reason@
                    == not_registered_text(project_id@))
            }),
    {
        let ghost models = self@.projects;
        let mut i: usize = 0;
        proof {
            lemma_position_of(models, project_id@);
        }
        while i < self.projects.len()
            invariant
                i <= self.projects@.len(),
                models == project_views(self.projects@),
                models == self@.projects,
                position_of(models, project_id@) <= models.len(),
                position_of(models, project_id@) < models.len() ==> models[position_of(
                    models,
                    project_id@,
                ) as int].id == project_id@,
                forall|j: int|
                    0 <= j < position_of(models, project_id@) ==> (#[trigger] models[j]).id
                        != project_id@,
                forall|j: int| 0 <= j < i ==> (#[trigger] models[j]).id != project_id@,
            decreases self.projects@.len() - i,
        {
            assert(models[i as int] == self.projects@[i as int]@);
            if same_text(self.projects[i].id().as_str(), project_id) {
                assert(position_of(models, project_id@) == i);
                return Ok(String::from_str(self.projects[i].path()));
            }
            i += 1;
        }
        assert(models.len() == self.projects@.len());
        let mut reason = String::from_str("`");
        reason.append(project_id);
        reason.append("` is not a registered project");
        Err(reason)
    }

    /// The id and root of every registered project: every one is watched.
    pub fn watched(&self) -> (roots: Vec<(ProjectId, String)>)
        ensures
            roots@.len() == self@.projects.len(),
            forall|i: int|
                0 <= i < roots@.len() ==> (#[trigger] roots@[i]).0@ == self@.projects[i].id
                    && roots@[i].1@ == self@.projects[i].path,
    {
        let ghost models = self@.projects;
        let mut roots: Vec<(ProjectId, String)> = Vec::new();
        let mut i: usize = 0;
        assert(models.len() == self.projects@.len());
        while i < self.projects.len()
            invariant
                i <= self.projects@.len(),
                models == project_views(self.projects@),
                roots@.len() == i,
                forall|j: int|
                    0 <= j < i ==> (#[trigger] roots@[j]).0@ == models[j].id && roots@[j].1@
                        == models[j].path,
            decreases self.projects@.len() - i,
        {
            let project = &self.projects[i];
            roots.push((project.id().clone(), String::from_str(project.path())));
            i += 1;
        }
        roots
    }
}

impl Default for AppState {
    fn default() -> (state: Self)
        ensures
            state@.projects.len() == 0,
            state@.write_refused is None,
    {
        AppState::new()
    }
}

/// What is said of a project that has no running watcher.
pub fn not_watched(project_id: &str) -> (reason: String)
    ensures
        reason@ == not_watched_text(project_id@),
{
    let mut reason = String::from_str("`");
    reason.append(project_id);
    reason.append("` is not being watched");
    reason
}

/// After a start, either the registry is what was stored, or what was stored is
/// kept aside, or changes are refused: a stored registry is never overwritten by
/// an empty one.
pub proof fn a_stored_registry_is_never_lost(
    state: StateModel,
    loaded: Result<Vec<Project>, RegistryError>,
    moved_aside: bool,
)
    ensures
        ({
            let after = restored(state, loaded, moved_aside);
            ||| loaded matches Ok(projects) && after.projects == project_views(projects@)
            ||| loaded matches Err(error) && error@ is Corrupt && moved_aside
            ||| after.write_refused is Some
        }),
        loaded is Err ==> restored(state, loaded, moved_aside).projects == state.projects,
{
}

/// After a start, changes are refused that were not before exactly where the
/// stored registry could not be read and is not kept aside: one that was read,
/// or never was there, and one that does not parse and was moved, are not in
/// danger.
pub proof fn changes_are_refused_where_a_registry_is_in_danger(
    state: StateModel,
    loaded: Result<Vec<Project>, RegistryError>,
    moved_aside: bool,
)
    requires
        state.write_refused is None,
    ensures
        restored(state, loaded, moved_aside).write_refused is Some <==> (loaded matches Err(error)
            && !(moved_aside && error@ is Corrupt)),
        restored(state, loaded, moved_aside).write_refused matches Some(reason) ==> (
        loaded matches Err(error) && reason == WRITE_REFUSED@ + " ("@ + error_text(error@) + ")"@),
        loaded matches Ok(projects) ==> restored(state, loaded, moved_aside).projects
            == project_views(projects@),
{
}

} // verus!
