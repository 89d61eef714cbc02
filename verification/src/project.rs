//! The project registry: validation, identity, and labels.
//!
//! A project is a folder the user registered, identified by its canonicalized
//! absolute path. Registration is by *intent*, not by validity: a folder that
//! turns out to hold no logs is still a project, carrying the [`Health`] that
//! says why.
//!
//! Identity is the canonicalized path, so registering the same folder twice is
//! neither a duplicate nor an error.
//!
//! Looking at folders is the caller's; what it found is handed in.

use vstd::prelude::*;
use vstd::string::*;

use crate::model::{first_label, Health, HealthModel, Project, ProjectModel};
use crate::paths::{is_absolute, may_be_absolute, normal_texts, parts_of_path, PartModel};
use crate::text::{joined, same_text, views};

verus! {

/// The registry file inside the configuration directory.
pub const REGISTRY_FILE_NAME: &'static str = "projects.json";

/// Where a corrupt registry is moved, so that a later save cannot overwrite it.
pub const QUARANTINE_FILE_NAME: &'static str = "projects.json.corrupt";

/// Everything that can go wrong registering or persisting projects.
#[derive(Debug, PartialEq, Eq)]
pub enum RegistryError {
    /// A relative path. Resolving it against the working directory is refused.
    NotAbsolute(String),
    /// The path does not resolve: missing, or not readable.
    Unresolvable { path: String, reason: String },
    /// The path resolves to something that is not a folder.
    NotADirectory(String),
    Io { path: String, reason: String },
    /// The registry file exists but is not readable as a registry. Never taken
    /// for an empty one: that would wipe the registry on the next save.
    Corrupt { path: String, reason: String },
}

/// An error, as text.
pub enum ErrorModel {
    NotAbsolute(Seq<char>),
    Unresolvable { path: Seq<char>, reason: Seq<char> },
    NotADirectory(Seq<char>),
    Io { path: Seq<char>, reason: Seq<char> },
    Corrupt { path: Seq<char>, reason: Seq<char> },
}

impl View for RegistryError {
    type V = ErrorModel;

    open spec fn view(&self) -> ErrorModel {
        match self {
            RegistryError::NotAbsolute(path) => ErrorModel::NotAbsolute(path@),
            RegistryError::Unresolvable { path, reason } => ErrorModel::Unresolvable {
                path: path@,
                reason: reason@,
            },
            RegistryError::NotADirectory(path) => ErrorModel::NotADirectory(path@),
            RegistryError::Io { path, reason } => ErrorModel::Io { path: path@, reason: reason@ },
            RegistryError::Corrupt { path, reason } => ErrorModel::Corrupt {
                path: path@,
                reason: reason@,
            },
        }
    }
}

/// What an error says.
pub open spec fn error_text(error: ErrorModel) -> Seq<char> {
    match error {
        ErrorModel::NotAbsolute(path) => "project path must be absolute, got `"@ + path + "`"@,
        ErrorModel::Unresolvable { path, reason } => "cannot resolve `"@ + path + "`: "@ + reason,
        ErrorModel::NotADirectory(path) => "`"@ + path + "` is not a folder"@,
        ErrorModel::Io { path, reason } => "i/o error on `"@ + path + "`: "@ + reason,
        ErrorModel::Corrupt { path, reason } => "registry at `"@ + path + "` is unreadable: "@
            + reason,
    }
}

fn around(before: &str, path: &str, after: &str) -> (text: String)
    ensures
        text@ == before@ + path@ + after@,
{
    let mut text = String::from_str(before);
    text.append(path);
    text.append(after);
    text
}

impl RegistryError {
    /// What the error says.
    pub fn message(&self) -> (text: String)
        ensures
            text@ == error_text(self@),
    {
        match self {
            RegistryError::NotAbsolute(path) => around(
                "project path must be absolute, got `",
                path.as_str(),
                "`",
            ),
            RegistryError::Unresolvable { path, reason } => {
                let mut text = around("cannot resolve `", path.as_str(), "`: ");
                text.append(reason.as_str());
                text
            },
            RegistryError::NotADirectory(path) => around("`", path.as_str(), "` is not a folder"),
            RegistryError::Io { path, reason } => {
                let mut text = around("i/o error on `", path.as_str(), "`: ");
                text.append(reason.as_str());
                text
            },
            RegistryError::Corrupt { path, reason } => {
                let mut text = around("registry at `", path.as_str(), "` is unreadable: ");
                text.append(reason.as_str());
                text
            },
        }
    }
}

/// What canonicalizing a path gave: why it does not resolve, or what it resolves
/// to and whether that is a folder.
#[derive(Debug, PartialEq, Eq)]
pub enum Found {
    Unresolved(String),
    Resolved { path: String, is_dir: bool },
}

/// Whether a path is accepted, given whether it is absolute.
pub open spec fn accepted(
    raw: Seq<char>,
    absolute: bool,
    found: Found,
) -> Result<Seq<char>, ErrorModel> {
    if !absolute {
        Err(ErrorModel::NotAbsolute(raw))
    } else {
        match found {
            Found::Unresolved(reason) => Err(
                ErrorModel::Unresolvable { path: raw, reason: reason@ },
            ),
            Found::Resolved { path, is_dir } => if is_dir {
                Ok(path@)
            } else {
                Err(ErrorModel::NotADirectory(path@))
            },
        }
    }
}

/// A path or an error, as text.
pub open spec fn path_view(path: Result<String, RegistryError>) -> Result<Seq<char>, ErrorModel> {
    match path {
        Ok(path) => Ok(path@),
        Err(error) => Err(error@),
    }
}

/// Refuse a path that is not absolute, before anything is looked up.
pub fn require_absolute(raw: &str) -> (checked: Result<(), RegistryError>)
    ensures
        may_be_absolute(raw@, checked is Ok),
        checked matches Err(error) ==> error@ == ErrorModel::NotAbsolute(raw@),
{
    if is_absolute(raw) {
        Ok(())
    } else {
        Err(RegistryError::NotAbsolute(String::from_str(raw)))
    }
}

/// Turn a path from outside into one that may be read from: absolute only, then
/// canonicalized, so that every later read is confined to the folder the user
/// chose. `found` is what canonicalizing it gave.
pub fn canonicalize_project_path(raw: &str, found: Found) -> (path: Result<String, RegistryError>)
    ensures
        exists|absolute: bool|
            #[trigger] may_be_absolute(raw@, absolute) && path_view(path) == accepted(
                raw@,
                absolute,
                found,
            ),
{
    let absolute = is_absolute(raw);
    accept_path(raw, absolute, found)
}

/// A path from outside, given whether it is absolute.
pub fn accept_path(raw: &str, absolute: bool, found: Found) -> (path: Result<
    String,
    RegistryError,
>)
    ensures
        path_view(path) == accepted(raw@, absolute, found),
{
    if !absolute {
        return Err(RegistryError::NotAbsolute(String::from_str(raw)));
    }
    match found {
        Found::Unresolved(reason) => Err(
            RegistryError::Unresolvable { path: String::from_str(raw), reason },
        ),
        Found::Resolved { path, is_dir } => if is_dir {
            Ok(path)
        } else {
            Err(RegistryError::NotADirectory(path))
        },
    }
}

/// What a folder was seen to hold.
#[derive(Debug, Clone, Copy, PartialEq, Eq)]
pub struct Facts {
    pub is_dir: bool,
    pub has_artisan: bool,
    pub has_logs_dir: bool,
}

/// The health of a folder.
pub open spec fn health_from(canonical: Seq<char>, facts: Facts) -> HealthModel {
    if !facts.is_dir {
        HealthModel::Unavailable(canonical + " is not a readable folder"@)
    } else if !facts.has_artisan {
        HealthModel::NotLaravel
    } else if !facts.has_logs_dir {
        HealthModel::NoLogsDir
    } else {
        HealthModel::Healthy
    }
}

/// Why a project can or cannot be read right now.
///
/// A Laravel root has an `artisan` file and a `storage/logs` directory. Missing
/// either is reported, never rejected.
pub fn health_of(canonical: &str, facts: Facts) -> (health: Health)
    ensures
        health@ == health_from(canonical@, facts),
{
    if !facts.is_dir {
        let mut reason = String::from_str(canonical);
        reason.append(" is not a readable folder");
        return Health::Unavailable(reason);
    }
    if !facts.has_artisan {
        return Health::NotLaravel;
    }
    if !facts.has_logs_dir {
        return Health::NoLogsDir;
    }
    Health::Healthy
}

/// The one place a canonical path becomes a project, so that its health is
/// always derived in the same way.
pub fn project_at(canonical: String, facts: Facts) -> (project: Project)
    ensures
        is_new(canonical@, health_from(canonical@, facts), project@),
{
    let health = health_of(canonical.as_str(), facts);
    Project::new(canonical, health)
}

/// Whether this is a project that was just made of a path.
pub open spec fn is_new(path: Seq<char>, health: HealthModel, project: ProjectModel) -> bool {
    &&& project.id == path
    &&& project.path == path
    &&& project.health == health
    &&& exists|parts: Seq<PartModel>|
        #![trigger first_label(path, parts)]
        {
            &&& parts_of_path(path, parts)
            &&& project.label == first_label(path, parts)
            &&& project.segments == normal_texts(parts)
        }
}

/// The projects of a list, as text.
pub open spec fn project_views(projects: Seq<Project>) -> Seq<ProjectModel> {
    projects.map_values(|project: Project| project@)
}

/// How many segments a label of this depth takes.
pub open spec fn taken_of(segments: nat, depth: nat) -> nat {
    if depth < 1 {
        1
    } else if depth > segments {
        segments
    } else {
        depth
    }
}

/// The label of a project at a depth: that many of its last segments. A path
/// with no named segment is its own label.
pub open spec fn label_at(project: ProjectModel, depth: nat) -> Seq<char> {
    if project.segments.len() == 0 {
        project.path
    } else {
        joined(
            project.segments.skip(
                project.segments.len() - taken_of(project.segments.len(), depth),
            ),
            seq!['/'],
        )
    }
}

/// Whether the label of a project is that of another too.
pub open spec fn collides(projects: Seq<ProjectModel>, depths: Seq<nat>, i: int) -> bool {
    exists|j: int|
        0 <= j < projects.len() && j != i && label_at(#[trigger] projects[j], depths[j])
            == label_at(projects[i], depths[i])
}

/// Whether a label collides and has a segment left to grow into.
pub open spec fn can_grow(projects: Seq<ProjectModel>, depths: Seq<nat>, i: int) -> bool {
    collides(projects, depths, i) && depths[i] < projects[i].segments.len()
}

/// Whether no label can grow.
pub open spec fn is_settled(projects: Seq<ProjectModel>, depths: Seq<nat>) -> bool {
    forall|i: int| 0 <= i < projects.len() ==> !#[trigger] can_grow(projects, depths, i)
}

/// Every label that collides and can grow takes one more segment.
pub open spec fn grown(projects: Seq<ProjectModel>, depths: Seq<nat>) -> Seq<nat> {
    Seq::new(
        projects.len(),
        |i: int|
            if can_grow(projects, depths, i) {
                depths[i] + 1
            } else {
                depths[i]
            },
    )
}

/// How many segments the labels can still take.
pub open spec fn room(projects: Seq<ProjectModel>, depths: Seq<nat>) -> nat
    decreases projects.len(),
{
    if projects.len() == 0 || depths.len() != projects.len() {
        0
    } else {
        room(projects.drop_last(), depths.drop_last()) + if depths.last()
            < projects.last().segments.len() {
            (projects.last().segments.len() - depths.last()) as nat
        } else {
            0
        }
    }
}

/// The depths once no label can grow.
pub open spec fn settled(projects: Seq<ProjectModel>, depths: Seq<nat>) -> Seq<nat>
    decreases room(projects, depths) via settled_ends
{
    if depths.len() != projects.len() || is_settled(projects, depths) {
        depths
    } else {
        settled(projects, grown(projects, depths))
    }
}

#[via_fn]
proof fn settled_ends(projects: Seq<ProjectModel>, depths: Seq<nat>) {
    if depths.len() == projects.len() && !is_settled(projects, depths) {
        let i = choose|i: int| 0 <= i < projects.len() && #[trigger] can_grow(projects, depths, i);
        lemma_growing_takes_room(projects, depths, grown(projects, depths), i);
    }
}

/// Depths that are nowhere less, and greater where there is room, leave less
/// room.
pub proof fn lemma_growing_takes_room(
    projects: Seq<ProjectModel>,
    depths: Seq<nat>,
    more: Seq<nat>,
    at: int,
)
    requires
        depths.len() == projects.len(),
        more.len() == projects.len(),
        forall|i: int| 0 <= i < depths.len() ==> depths[i] <= #[trigger] more[i],
    ensures
        room(projects, more) <= room(projects, depths),
        0 <= at < projects.len() && depths[at] < more[at] && depths[at]
            < projects[at].segments.len() ==> room(projects, more) < room(projects, depths),
    decreases projects.len(),
{
    if projects.len() > 0 {
        lemma_growing_takes_room(
            projects.drop_last(),
            depths.drop_last(),
            more.drop_last(),
            at,
        );
    }
}

/// Depth one for each of these projects.
pub open spec fn first_depths(count: nat) -> Seq<nat> {
    Seq::new(count, |i: int| 1nat)
}

/// Projects with labels of these depths.
pub open spec fn labelled_at(
    projects: Seq<ProjectModel>,
    depths: Seq<nat>,
) -> Seq<ProjectModel> {
    Seq::new(
        projects.len(),
        |i: int| ProjectModel { label: label_at(projects[i], depths[i]), ..projects[i] },
    )
}

/// Projects with labels that tell them apart: each starts as the last segment
/// of its path, and those that collide grow until they differ or have no
/// segment left.
pub open spec fn labelled(projects: Seq<ProjectModel>) -> Seq<ProjectModel> {
    labelled_at(projects, settled(projects, first_depths(projects.len())))
}

/// Numbers as they are used in a specification.
spec fn as_nats(depths: Seq<usize>) -> Seq<nat> {
    depths.map_values(|depth: usize| depth as nat)
}

/// The segments from one on, joined by slashes.
fn joined_from(segments: &Vec<String>, from: usize) -> (text: String)
    requires
        from < segments@.len(),
    ensures
        text@ == joined(views(segments@).skip(from as int), seq!['/']),
{
    let ghost parts = views(segments@).skip(from as int);
    let length: usize = segments.len();
    let mut text = segments[from].clone();
    let mut i: usize = from + 1;
    proof {
        reveal_strlit("/");
        assert("/"@ =~= seq!['/']);
        assert(parts.take(1) =~= seq![text@]);
    }
    while i < length
        invariant
            from < i <= length,
            length == segments@.len(),
            parts == views(segments@).skip(from as int),
            text@ == joined(parts.take(i - from), seq!['/']),
            "/"@ == seq!['/'],
        decreases segments@.len() - i,
    {
        let ghost next = parts.take(i + 1 - from);
        assert(next.drop_last() =~= parts.take(i - from));
        assert(next.last() == segments@[i as int]@);
        text.append("/");
        text.append(segments[i].as_str());
        i += 1;
    }
    assert(parts.take(i - from) =~= parts);
    text
}

/// The label of a project at a depth.
pub fn label_at_depth(project: &Project, depth: usize) -> (label: String)
    ensures
        label@ == label_at(project@, depth as nat),
{
    let segments = project.segments();
    assert(views(segments@).len() == segments@.len());
    if segments.len() == 0 {
        // A bare root has no last segment to shorten to.
        return String::from_str(project.path());
    }
    let take: usize = if depth < 1 {
        1
    } else if depth > segments.len() {
        segments.len()
    } else {
        depth
    };
    joined_from(segments, segments.len() - take)
}

/// The labels of projects at these depths.
fn labels_at(projects: &Vec<Project>, depths: &Vec<usize>) -> (labels: Vec<String>)
    requires
        depths@.len() == projects@.len(),
    ensures
        labels@.len() == projects@.len(),
        forall|i: int|
            0 <= i < labels@.len() ==> (#[trigger] labels@[i])@ == label_at(
                projects@[i]@,
                depths@[i] as nat,
            ),
{
    let mut labels: Vec<String> = Vec::new();
    let mut i: usize = 0;
    while i < projects.len()
        invariant
            i <= projects@.len(),
            depths@.len() == projects@.len(),
            labels@.len() == i,
            forall|j: int|
                0 <= j < i ==> (#[trigger] labels@[j])@ == label_at(
                    projects@[j]@,
                    depths@[j] as nat,
                ),
        decreases projects@.len() - i,
    {
        labels.push(label_at_depth(&projects[i], depths[i]));
        i += 1;
    }
    labels
}

/// Whether a label occurs again.
fn occurs_again(labels: &Vec<String>, at: usize) -> (again: bool)
    requires
        at < labels@.len(),
    ensures
        again == exists|j: int|
            0 <= j < labels@.len() && j != at && (#[trigger] labels@[j])@ == labels@[at as int]@,
{
    let mut j: usize = 0;
    while j < labels.len()
        invariant
            j <= labels@.len(),
            at < labels@.len(),
            forall|k: int|
                0 <= k < j && k != at ==> (#[trigger] labels@[k])@ != labels@[at as int]@,
        decreases labels@.len() - j,
    {
        if j != at && same_text(labels[j].as_str(), labels[at].as_str()) {
            return true;
        }
        j += 1;
    }
    false
}

/// Label every project with a trailing part of its path, as short as it can be
/// while those that collide grow together.
///
/// `~/work/acme/api` and `~/side/acme/api` are both `api`, so both grow a parent
/// segment until they differ. This needs the whole registry.
#[verifier::rlimit(40)]
pub fn disambiguate_labels(projects: &mut Vec<Project>)
    ensures
        project_views(final(projects)@) == labelled(project_views(old(projects)@)),
{
    let ghost models = project_views(projects@);
    let ghost first = first_depths(models.len());
    let mut depths: Vec<usize> = Vec::new();
    let mut i: usize = 0;
    while i < projects.len()
        invariant
            i <= projects@.len(),
            depths@.len() == i,
            forall|j: int| 0 <= j < i ==> #[trigger] depths@[j] == 1,
        decreases projects@.len() - i,
    {
        depths.push(1);
        i += 1;
    }
    assert(as_nats(depths@) =~= first);
    let mut labels = labels_at(projects, &depths);
    let mut more = true;
    while more
        invariant
            models == project_views(projects@),
            depths@.len() == projects@.len(),
            labels@.len() == projects@.len(),
            first == first_depths(models.len()),
            settled(models, first) == settled(models, as_nats(depths@)),
            !more ==> is_settled(models, as_nats(depths@)),
            forall|j: int|
                0 <= j < labels@.len() ==> (#[trigger] labels@[j])@ == label_at(
                    projects@[j]@,
                    depths@[j] as nat,
                ),
        decreases room(models, as_nats(depths@)), more as int,
    {
        let ghost before = as_nats(depths@);
        let ghost after = grown(models, before);
        let mut next: Vec<usize> = Vec::new();
        let mut grew = false;
        let mut k: usize = 0;
        while k < projects.len()
            invariant
                k <= projects@.len(),
                models == project_views(projects@),
                depths@.len() == projects@.len(),
                labels@.len() == projects@.len(),
                before == as_nats(depths@),
                after == grown(models, before),
                next@.len() == k,
                forall|j: int|
                    0 <= j < labels@.len() ==> (#[trigger] labels@[j])@ == label_at(
                        projects@[j]@,
                        depths@[j] as nat,
                    ),
                forall|j: int| 0 <= j < k ==> #[trigger] next@[j] == after[j],
                grew ==> !is_settled(models, before),
                !grew ==> forall|j: int| 0 <= j < k ==> !#[trigger] can_grow(models, before, j),
            decreases projects@.len() - k,
        {
            let again = occurs_again(&labels, k);
            let segments = projects[k].segments();
            let length: usize = segments.len();
            proof {
                assert(views(segments@).len() == segments@.len());
                lemma_again_is_colliding(models, before, projects@, labels@, k as int, again);
            }
            if again && depths[k] < length {
                assert(can_grow(models, before, k as int));
                next.push(depths[k] + 1);
                grew = true;
            } else {
                assert(!can_grow(models, before, k as int));
                next.push(depths[k]);
            }
            k += 1;
        }
        assert(as_nats(next@) =~= after);
        if grew {
            proof {
                let at = choose|i: int|
                    0 <= i < models.len() && #[trigger] can_grow(models, before, i);
                lemma_growing_takes_room(models, before, after, at);
            }
            depths = next;
            labels = labels_at(projects, &depths);
        } else {
            more = false;
        }
    }
    let ghost depths_now = as_nats(depths@);
    let mut m: usize = 0;
    while m < projects.len()
        invariant
            m <= projects@.len(),
            projects@.len() == models.len(),
            labels@.len() == models.len(),
            depths_now.len() == models.len(),
            forall|j: int|
                0 <= j < labels@.len() ==> (#[trigger] labels@[j])@ == label_at(
                    models[j],
                    depths_now[j],
                ),
            forall|j: int|
                0 <= j < m ==> (#[trigger] projects@[j])@ == (ProjectModel {
                    label: label_at(models[j], depths_now[j]),
                    ..models[j]
                }),
            forall|j: int| m <= j < models.len() ==> (#[trigger] projects@[j])@ == models[j],
        decreases projects@.len() - m,
    {
        projects[m].set_label(labels[m].clone());
        m += 1;
    }
    assert(project_views(projects@) =~= labelled(models));
}

proof fn lemma_again_is_colliding(
    models: Seq<ProjectModel>,
    depths: Seq<nat>,
    projects: Seq<Project>,
    labels: Seq<String>,
    at: int,
    again: bool,
)
    requires
        models == project_views(projects),
        depths.len() == projects.len(),
        labels.len() == projects.len(),
        0 <= at < projects.len(),
        forall|j: int|
            0 <= j < labels.len() ==> (#[trigger] labels[j])@ == label_at(projects[j]@, depths[j]),
        again == exists|j: int|
            0 <= j < labels.len() && j != at && (#[trigger] labels[j])@ == labels[at]@,
    ensures
        again == collides(models, depths, at),
{
    if again {
        let j = choose|j: int|
            0 <= j < labels.len() && j != at && (#[trigger] labels[j])@ == labels[at]@;
        assert(label_at(models[j], depths[j]) == label_at(models[at], depths[at]));
    }
    if collides(models, depths, at) {
        let j = choose|j: int|
            0 <= j < models.len() && j != at && label_at(#[trigger] models[j], depths[j])
                == label_at(models[at], depths[at]);
        assert(labels[j]@ == labels[at]@);
    }
}

/// Where the first project with an id is, or how many there are.
pub open spec fn position_of(projects: Seq<ProjectModel>, id: Seq<char>) -> nat
    decreases projects.len(),
{
    if projects.len() == 0 || projects[0].id == id {
        0
    } else {
        1 + position_of(projects.skip(1), id)
    }
}

/// The first project with an id is where none before it has it.
pub proof fn lemma_position_of(projects: Seq<ProjectModel>, id: Seq<char>)
    ensures
        position_of(projects, id) <= projects.len(),
        position_of(projects, id) < projects.len() ==> projects[position_of(
            projects,
            id,
        ) as int].id == id,
        forall|i: int| 0 <= i < position_of(projects, id) ==> (#[trigger] projects[i]).id != id,
    decreases projects.len(),
{
    if projects.len() > 0 && projects[0].id != id {
        let rest = projects.skip(1);
        lemma_position_of(rest, id);
        assert forall|i: int| 0 <= i < position_of(projects, id) implies (
        #[trigger] projects[i]).id != id by {
            if i > 0 {
                assert(rest[i - 1] == projects[i]);
            }
        }
    }
}

/// Where the first project with an id is.
fn position(projects: &Vec<Project>, id: &str) -> (at: usize)
    ensures
        at == position_of(project_views(projects@), id@),
{
    let ghost models = project_views(projects@);
    let mut at: usize = 0;
    while at < projects.len() && !same_text(projects[at].id().as_str(), id)
        invariant
            at <= projects@.len(),
            models == project_views(projects@),
            forall|i: int| 0 <= i < at ==> (#[trigger] models[i]).id != id@,
        decreases projects@.len() - at,
    {
        at += 1;
    }
    proof {
        lemma_position_of(models, id@);
        if at < projects@.len() {
            assert(models[at as int].id == id@);
        }
    }
    at
}

/// The registry once a project was registered: one that is there already has
/// its health refreshed and keeps its label, a new one is added at the end.
pub open spec fn registered(
    projects: Seq<ProjectModel>,
    candidate: ProjectModel,
) -> Seq<ProjectModel> {
    let at = position_of(projects, candidate.id) as int;
    if at < projects.len() {
        projects.update(at, ProjectModel { health: candidate.health, ..projects[at] })
    } else {
        labelled(projects.push(candidate))
    }
}

/// Register a project, or refresh the one that has its id. Returns the project
/// as it is registered.
pub fn register(projects: &mut Vec<Project>, candidate: Project) -> (project: Project)
    ensures
        project_views(final(projects)@) == registered(
            project_views(old(projects)@),
            candidate@,
        ),
        project@ == registered(project_views(old(projects)@), candidate@)[position_of(
            project_views(old(projects)@),
            candidate@.id,
        ) as int],
{
    let ghost models = project_views(projects@);
    let at = position(projects, candidate.id().as_str());
    if at < projects.len() {
        // Registering again is how a user re-checks a folder that was fixed.
        let health = candidate.health().clone();
        projects[at].set_health(health);
        assert(project_views(projects@) =~= registered(models, candidate@));
        return projects[at].clone();
    }
    proof {
        lemma_position_of(models, candidate@.id);
    }
    projects.push(candidate);
    assert(project_views(projects@) =~= models.push(candidate@));
    disambiguate_labels(projects);
    assert(project_views(projects@).len() == projects@.len());
    projects[at].clone()
}

/// Whether this is what registering a folder gives, given whether its path is
/// absolute: the error and nothing changed, or the registered project.
pub open spec fn adds(
    projects: Seq<ProjectModel>,
    path: Result<Seq<char>, ErrorModel>,
    facts: Facts,
    after: Seq<ProjectModel>,
    added: Result<Project, RegistryError>,
) -> bool {
    match path {
        Err(refused) => {
            &&& added matches Err(error) && error@ == refused
            &&& after == projects
        },
        Ok(canonical) => exists|candidate: ProjectModel|
            {
                &&& #[trigger] is_new(canonical, health_from(canonical, facts), candidate)
                &&& after == registered(projects, candidate)
                &&& added matches Ok(project) && project@ == after[position_of(
                    projects,
                    candidate.id,
                ) as int]
            },
    }
}

/// Register a folder, or return the project that it already is.
///
/// `found` is what canonicalizing the path gave, and `facts` what the folder was
/// seen to hold.
pub fn add(projects: &mut Vec<Project>, raw_path: &str, found: Found, facts: Facts) -> (added: Result<
    Project,
    RegistryError,
>)
    ensures
        exists|absolute: bool|
            #[trigger] may_be_absolute(raw_path@, absolute) && adds(
                project_views(old(projects)@),
                accepted(raw_path@, absolute, found),
                facts,
                project_views(final(projects)@),
                added,
            ),
{
    let ghost models = project_views(projects@);
    match canonicalize_project_path(raw_path, found) {
        Err(error) => Err(error),
        Ok(canonical) => {
            let candidate = project_at(canonical, facts);
            assert(is_new(canonical@, health_from(canonical@, facts), candidate@));
            Ok(register(projects, candidate))
        },
    }
}

/// The projects that do not have an id.
pub open spec fn without(projects: Seq<ProjectModel>, id: Seq<char>) -> Seq<ProjectModel>
    decreases projects.len(),
{
    if projects.len() == 0 {
        Seq::empty()
    } else if projects.last().id == id {
        without(projects.drop_last(), id)
    } else {
        without(projects.drop_last(), id).push(projects.last())
    }
}

/// The registry once the projects with an id were removed. Labels change only
/// where something was.
pub open spec fn removed(projects: Seq<ProjectModel>, id: Seq<char>) -> Seq<ProjectModel> {
    if without(projects, id).len() != projects.len() {
        labelled(without(projects, id))
    } else {
        projects
    }
}

/// Leaving out none leaves the list as it is.
pub proof fn lemma_without(projects: Seq<ProjectModel>, id: Seq<char>)
    ensures
        without(projects, id).len() <= projects.len(),
        without(projects, id).len() == projects.len() ==> without(projects, id) == projects,
        without(projects, id).len() == projects.len() <==> position_of(projects, id)
            == projects.len(),
        forall|i: int|
            0 <= i < without(projects, id).len() ==> (#[trigger] without(projects, id)[i]).id != id
                && projects.contains(without(projects, id)[i]),
    decreases projects.len(),
{
    lemma_position_of(projects, id);
    if projects.len() > 0 {
        let front = projects.drop_last();
        let last = projects.last();
        lemma_without(front, id);
        lemma_position_of(front, id);
        let kept = without(projects, id);
        assert forall|i: int| 0 <= i < kept.len() implies (#[trigger] kept[i]).id != id
            && projects.contains(kept[i]) by {
            if i < without(front, id).len() {
                assert(kept[i] == without(front, id)[i]);
                let j = choose|j: int| 0 <= j < front.len() && front[j] == kept[i];
                assert(projects[j] == kept[i]);
            } else {
                assert(projects[projects.len() - 1] == kept[i]);
            }
        }
        if kept.len() == projects.len() {
            assert(kept =~= projects);
            if position_of(projects, id) < projects.len() {
                let at = position_of(projects, id) as int;
                assert(kept[at].id != id);
            }
        } else if position_of(projects, id) == projects.len() {
            assert(last.id != id) by {
                assert(projects[projects.len() - 1].id != id);
            }
            if position_of(front, id) < front.len() {
                assert(projects[position_of(front, id) as int].id == id);
            }
        }
    }
}

/// Deregister a project. Removing an unknown id changes nothing. Returns whether
/// anything was removed.
pub fn remove(projects: &mut Vec<Project>, project_id: &str) -> (gone: bool)
    ensures
        project_views(final(projects)@) == removed(project_views(old(projects)@), project_id@),
        gone == (position_of(project_views(old(projects)@), project_id@) < old(projects)@.len()),
{
    let ghost models = project_views(projects@);
    let before: usize = projects.len();
    assert(models.len() == before);
    let ghost mut seen: int = 0;
    let mut i: usize = 0;
    assert(project_views(projects@) =~= without(models.take(0), project_id@) + models.skip(0));
    while i < projects.len()
        invariant
            0 <= seen <= models.len(),
            i == without(models.take(seen), project_id@).len(),
            project_views(projects@) == without(models.take(seen), project_id@) + models.skip(
                seen,
            ),
        decreases projects@.len() - i,
    {
        let ghost now = project_views(projects@);
        let ghost front = without(models.take(seen), project_id@);
        proof {
            assert(now.len() == projects@.len());
            assert(seen < models.len());
            assert(now[i as int] == models[seen]);
            assert(models.take(seen + 1).drop_last() =~= models.take(seen));
            assert(models.take(seen + 1).last() == models[seen]);
        }
        if same_text(projects[i].id().as_str(), project_id) {
            let ghost list = projects@;
            projects.remove(i);
            assert(projects@ =~= list.remove(i as int));
            assert(project_views(projects@) =~= now.remove(i as int));
            assert(now.remove(i as int) =~= front + models.skip(seen + 1));
        } else {
            assert(now =~= front.push(models[seen]) + models.skip(seen + 1));
            i += 1;
        }
        proof {
            seen = seen + 1;
        }
    }
    proof {
        assert(project_views(projects@).len() == projects@.len());
        assert(models.skip(seen).len() == 0);
        assert(models.take(seen) =~= models);
        assert(project_views(projects@) =~= without(models, project_id@));
        lemma_without(models, project_id@);
        lemma_position_of(models, project_id@);
    }
    let gone = projects.len() != before;
    if gone {
        // A label carries a parent segment only while there is a collision.
        disambiguate_labels(projects);
    }
    gone
}

/// A folder of a stored registry: its path, what canonicalizing that gave now,
/// and what the folder was seen to hold.
#[derive(Debug, PartialEq, Eq)]
pub struct StoredFolder {
    pub path: String,
    pub found: Found,
    pub facts: Facts,
}

/// What reading a stored registry gave.
#[derive(Debug, PartialEq, Eq)]
pub enum Stored {
    /// There is none: the first run.
    Missing,
    /// It could not be read.
    Unreadable { path: String, reason: String },
    /// It could be read and is not a registry.
    Malformed { path: String, reason: String },
    Folders(Vec<StoredFolder>),
}

/// Whether this is the project that a stored folder becomes. One that moved or
/// went away stays registered, carrying the reason it cannot be read.
pub open spec fn restores(folder: StoredFolder, project: ProjectModel) -> bool {
    exists|absolute: bool|
        #[trigger] may_be_absolute(folder.path@, absolute) && match accepted(
            folder.path@,
            absolute,
            folder.found,
        ) {
            Ok(canonical) => is_new(canonical, health_from(canonical, folder.facts), project),
            Err(error) => is_new(
                folder.path@,
                HealthModel::Unavailable(error_text(error)),
                project,
            ),
        }
}

/// The project that a stored folder becomes: its identity is derived again, and
/// its health is what it is now.
pub fn restore_folder(folder: StoredFolder) -> (project: Project)
    ensures
        restores(folder, project@),
{
    let absolute = is_absolute(folder.path.as_str());
    let ghost stored = folder;
    let path = folder.path;
    let facts = folder.facts;
    match accept_path(path.as_str(), absolute, folder.found) {
        Ok(canonical) => {
            let project = project_at(canonical, facts);
            assert(may_be_absolute(stored.path@, absolute));
            project
        },
        Err(error) => {
            let health = Health::Unavailable(error.message());
            let ghost model = health@;
            let project = Project::new(path, health);
            assert(is_new(stored.path@, model, project@));
            assert(may_be_absolute(stored.path@, absolute));
            project
        },
    }
}

/// The projects without those whose id an earlier one has.
pub open spec fn first_of_each(projects: Seq<ProjectModel>) -> Seq<ProjectModel>
    decreases projects.len(),
{
    if projects.len() == 0 {
        Seq::empty()
    } else {
        let earlier = first_of_each(projects.drop_last());
        if position_of(earlier, projects.last().id) < earlier.len() {
            earlier
        } else {
            earlier.push(projects.last())
        }
    }
}

/// Whether loading gives this: nothing where nothing is stored, the reason the
/// stored registry cannot be used, or its folders as projects, each once, with
/// labels that tell them apart.
pub open spec fn loads(stored: Stored, loaded: Result<Vec<Project>, RegistryError>) -> bool {
    match stored {
        Stored::Missing => loaded matches Ok(projects) && projects@.len() == 0,
        Stored::Unreadable { path, reason } => loaded matches Err(error) && error@
            == ErrorModel::Io { path: path@, reason: reason@ },
        Stored::Malformed { path, reason } => loaded matches Err(error) && error@
            == ErrorModel::Corrupt { path: path@, reason: reason@ },
        Stored::Folders(folders) => {
            &&& loaded matches Ok(projects)
            &&& exists|restored: Seq<ProjectModel>|
                {
                    &&& restored.len() == folders@.len()
                    &&& forall|i: int|
                        0 <= i < restored.len() ==> restores(folders@[i], #[trigger] restored[i])
                    &&& project_views(projects@) == labelled(#[trigger] first_of_each(restored))
                }
        },
    }
}

/// Load the registry from what was stored.
///
/// A missing file is an empty registry: the first run. One that exists but does
/// not parse *is* an error, so that it can be kept instead of overwritten.
pub fn load(stored: Stored) -> (loaded: Result<Vec<Project>, RegistryError>)
    ensures
        loads(stored, loaded),
{
    match stored {
        Stored::Missing => Ok(Vec::new()),
        Stored::Unreadable { path, reason } => Err(RegistryError::Io { path, reason }),
        Stored::Malformed { path, reason } => Err(RegistryError::Corrupt { path, reason }),
        Stored::Folders(folders) => Ok(load_folders(folders)),
    }
}

fn load_folders(folders: Vec<StoredFolder>) -> (projects: Vec<Project>)
    ensures
        exists|restored: Seq<ProjectModel>|
            {
                &&& restored.len() == folders@.len()
                &&& forall|i: int|
                    0 <= i < restored.len() ==> restores(folders@[i], #[trigger] restored[i])
                &&& project_views(projects@) == labelled(#[trigger] first_of_each(restored))
            },
{
    let ghost all = folders@;
    let ghost mut restored: Seq<ProjectModel> = Seq::empty();
    let mut projects: Vec<Project> = Vec::new();
    assert(project_views(projects@) =~= first_of_each(restored));
    for folder in iter: folders
        invariant
            iter.seq() == all,
            restored.len() == iter.index(),
            forall|i: int| 0 <= i < restored.len() ==> restores(all[i], #[trigger] restored[i]),
            project_views(projects@) == first_of_each(restored),
    {
        let project = restore_folder(folder);
        let ghost earlier = restored;
        let ghost kept = project_views(projects@);
        proof {
            restored = earlier.push(project@);
            assert(restored.drop_last() =~= earlier);
            assert(kept.len() == projects@.len());
            lemma_position_of(kept, project@.id);
        }
        let at = position(&projects, project.id().as_str());
        if at >= projects.len() {
            let ghost added = project@;
            projects.push(project);
            assert(project_views(projects@) =~= kept.push(added));
        }
    }
    disambiguate_labels(&mut projects);
    projects
}

} // verus!
