//! The domain types: levels, identities, projects, entries and breaks.

use core::cmp::Ordering;
use vstd::prelude::*;
use vstd::string::*;

use crate::paths::{
    normal_texts, normals, part_views, parts_of_path, path_parts, PartModel, PathPart,
};
use crate::text::{decimal, decimal_text, views};

verus! {

/// The severity an entry was written at, least severe first.
#[derive(Debug, Clone, Copy, PartialEq, Eq, Structural, Ord, Hash)]
pub enum Level {
    /// No severity, rather than a low one.
    ///
    /// Carried by content that never announced a level: a fragment with no
    /// header, or a header whose level text is not one of the eight known ones.
    /// It ranks below `Debug`, so it can never raise the highest level of a
    /// batch, and it is not `Info`, so it is not taken for something the
    /// application logged there.
    Unknown,
    Debug,
    Info,
    Notice,
    Warning,
    Error,
    Critical,
    Alert,
    Emergency,
}

impl Level {
    /// How severe a level is, from 0 for `Unknown` to 8 for `Emergency`.
    pub open spec fn severity(self) -> u8 {
        match self {
            Level::Unknown => 0,
            Level::Debug => 1,
            Level::Info => 2,
            Level::Notice => 3,
            Level::Warning => 4,
            Level::Error => 5,
            Level::Critical => 6,
            Level::Alert => 7,
            Level::Emergency => 8,
        }
    }

    /// How severe a level is.
    pub fn rank(&self) -> (rank: u8)
        ensures
            rank == self.severity(),
    {
        match self {
            Level::Unknown => 0,
            Level::Debug => 1,
            Level::Info => 2,
            Level::Notice => 3,
            Level::Warning => 4,
            Level::Error => 5,
            Level::Critical => 6,
            Level::Alert => 7,
            Level::Emergency => 8,
        }
    }
}

impl PartialOrd for Level {
    fn partial_cmp(&self, other: &Self) -> (order: Option<Ordering>) {
        let left = self.rank();
        let right = other.rank();
        if left < right {
            Some(Ordering::Less)
        } else if left == right {
            Some(Ordering::Equal)
        } else {
            Some(Ordering::Greater)
        }
    }
}

impl vstd::std_specs::cmp::PartialOrdSpecImpl for Level {
    open spec fn obeys_partial_cmp_spec() -> bool {
        true
    }

    open spec fn partial_cmp_spec(&self, other: &Self) -> Option<Ordering> {
        if self.severity() < other.severity() {
            Some(Ordering::Less)
        } else if self.severity() == other.severity() {
            Some(Ordering::Equal)
        } else {
            Some(Ordering::Greater)
        }
    }
}

/// Two levels of the same severity are the same level.
pub proof fn levels_of_one_severity_are_one_level(a: Level, b: Level)
    ensures
        a.severity() == b.severity() <==> a == b,
        a.severity() <= 8,
{
}

/// Whether a project can currently be read, and if not, why.
///
/// An unhealthy project is still registered.
#[derive(Debug, PartialEq, Eq)]
pub enum Health {
    Healthy,
    NoLogsDir,
    NotLaravel,
    Unavailable(String),
}

/// A health, with its reason as text.
pub enum HealthModel {
    Healthy,
    NoLogsDir,
    NotLaravel,
    Unavailable(Seq<char>),
}

impl View for Health {
    type V = HealthModel;

    open spec fn view(&self) -> HealthModel {
        match self {
            Health::Healthy => HealthModel::Healthy,
            Health::NoLogsDir => HealthModel::NoLogsDir,
            Health::NotLaravel => HealthModel::NotLaravel,
            Health::Unavailable(reason) => HealthModel::Unavailable(reason@),
        }
    }
}

impl Clone for Health {
    fn clone(&self) -> (copy: Self)
        ensures
            copy@ == self@,
    {
        match self {
            Health::Healthy => Health::Healthy,
            Health::NoLogsDir => Health::NoLogsDir,
            Health::NotLaravel => Health::NotLaravel,
            Health::Unavailable(reason) => Health::Unavailable(reason.clone()),
        }
    }
}

impl Health {
    /// Whether two healths are the same.
    pub fn same(&self, other: &Health) -> (same: bool)
        ensures
            same == (self@ == other@),
    {
        match (self, other) {
            (Health::Healthy, Health::Healthy) => true,
            (Health::NoLogsDir, Health::NoLogsDir) => true,
            (Health::NotLaravel, Health::NotLaravel) => true,
            (Health::Unavailable(a), Health::Unavailable(b)) => *a == *b,
            _ => false,
        }
    }
}

/// Identity of a project: its canonicalized absolute path.
///
/// A type of its own, so that it cannot be taken for an [`EntryId`] or a
/// [`BreakId`].
#[derive(Debug, PartialEq, Eq, Hash, PartialOrd, Ord)]
pub struct ProjectId(String);

impl View for ProjectId {
    type V = Seq<char>;

    closed spec fn view(&self) -> Seq<char> {
        self.0@
    }
}

impl Clone for ProjectId {
    fn clone(&self) -> (copy: Self)
        ensures
            copy@ == self@,
    {
        ProjectId(self.0.clone())
    }
}

impl ProjectId {
    /// The path must already be canonicalized; resolving it is not done here.
    pub fn from_canonical(path: &str) -> (id: Self)
        ensures
            id@ == path@,
    {
        ProjectId(String::from_str(path))
    }

    pub fn as_str(&self) -> (text: &str)
        ensures
            text@ == self@,
    {
        self.0.as_str()
    }

    /// Whether two ids are the same.
    pub fn same(&self, other: &ProjectId) -> (same: bool)
        ensures
            same == (self@ == other@),
    {
        self.0 == other.0
    }
}

/// The text of an entry's id: its file, a colon, its offset.
pub open spec fn entry_id_text(file: Seq<char>, offset: nat) -> Seq<char> {
    file + seq![':'] + decimal(offset)
}

/// The text of a break's id: its file, a colon, its offset, and `:break`.
pub open spec fn break_id_text(file: Seq<char>, offset: nat) -> Seq<char> {
    file + seq![':'] + decimal(offset) + seq![':', 'b', 'r', 'e', 'a', 'k']
}

/// Identity of an entry: `"{file}:{offset}"`.
#[derive(Debug, PartialEq, Eq, Hash, PartialOrd, Ord)]
pub struct EntryId(String);

impl View for EntryId {
    type V = Seq<char>;

    closed spec fn view(&self) -> Seq<char> {
        self.0@
    }
}

impl Clone for EntryId {
    fn clone(&self) -> (copy: Self)
        ensures
            copy@ == self@,
    {
        EntryId(self.0.clone())
    }
}

impl EntryId {
    pub fn new(file: &str, offset: u64) -> (id: Self)
        ensures
            id@ == entry_id_text(file@, offset as nat),
    {
        let mut text = String::from_str(file);
        text.append(":");
        text.append(decimal_text(offset).as_str());
        proof {
            reveal_strlit(":");
            assert(":"@ =~= seq![':']);
        }
        EntryId(text)
    }

    pub fn as_str(&self) -> (text: &str)
        ensures
            text@ == self@,
    {
        self.0.as_str()
    }

    /// Whether two ids are the same.
    pub fn same(&self, other: &EntryId) -> (same: bool)
        ensures
            same == (self@ == other@),
    {
        self.0 == other.0
    }
}

/// Identity of a break: `"{file}:{offset}:break"`.
#[derive(Debug, PartialEq, Eq, Hash, PartialOrd, Ord)]
pub struct BreakId(String);

impl View for BreakId {
    type V = Seq<char>;

    closed spec fn view(&self) -> Seq<char> {
        self.0@
    }
}

impl Clone for BreakId {
    fn clone(&self) -> (copy: Self)
        ensures
            copy@ == self@,
    {
        BreakId(self.0.clone())
    }
}

impl BreakId {
    pub fn new(file: &str, offset: u64) -> (id: Self)
        ensures
            id@ == break_id_text(file@, offset as nat),
    {
        let mut text = String::from_str(file);
        text.append(":");
        text.append(decimal_text(offset).as_str());
        text.append(":break");
        proof {
            reveal_strlit(":");
            reveal_strlit(":break");
            assert(":"@ =~= seq![':']);
            assert(":break"@ =~= seq![':', 'b', 'r', 'e', 'a', 'k']);
        }
        BreakId(text)
    }

    pub fn as_str(&self) -> (text: &str)
        ensures
            text@ == self@,
    {
        self.0.as_str()
    }
}

/// A folder the user has registered, identified by its absolute path.
///
/// Built by [`Project::new`], which derives `id` and `label` from the path so
/// that the two cannot drift apart.
#[derive(Debug, PartialEq, Eq)]
pub struct Project {
    id: ProjectId,
    label: String,
    path: String,
    /// The named segments of the path, outermost first.
    segments: Vec<String>,
    health: Health,
}

/// A project as text.
#[verifier::ext_equal]
pub struct ProjectModel {
    pub id: Seq<char>,
    pub label: Seq<char>,
    pub path: Seq<char>,
    pub segments: Seq<Seq<char>>,
    pub health: HealthModel,
}

impl View for Project {
    type V = ProjectModel;

    closed spec fn view(&self) -> ProjectModel {
        ProjectModel {
            id: self.id@,
            label: self.label@,
            path: self.path@,
            segments: views(self.segments@),
            health: self.health@,
        }
    }
}

impl Clone for Project {
    fn clone(&self) -> (copy: Self)
        ensures
            copy@ == self@,
    {
        proof {
            use_type_invariant(self);
        }
        let copy = Project {
            id: self.id.clone(),
            label: self.label.clone(),
            path: self.path.clone(),
            segments: self.segments.clone(),
            health: self.health.clone(),
        };
        assert(views(copy.segments@) =~= views(self.segments@));
        copy
    }
}

/// What a new project is called: the last part of its path, or the whole path
/// where the last part has no name.
pub open spec fn first_label(path: Seq<char>, parts: Seq<PartModel>) -> Seq<char> {
    if parts.len() > 0 {
        match parts.last() {
            PartModel::Normal(name) => name,
            _ => path,
        }
    } else {
        path
    }
}

impl Project {
    #[verifier::type_invariant]
    spec fn inv(&self) -> bool {
        self.id@ == self.path@
    }

    /// `canonical` must already be canonicalized.
    ///
    /// The label starts as the last part of the path; telling apart projects
    /// that share one needs the whole registry and is done there.
    pub fn new(canonical: String, health: Health) -> (project: Self)
        ensures
            project@.id == canonical@,
            project@.path == canonical@,
            project@.health == health@,
            exists|parts: Seq<PartModel>|
                #![trigger first_label(canonical@, parts)]
                {
                    &&& parts_of_path(canonical@, parts)
                    &&& project@.label == first_label(canonical@, parts)
                    &&& project@.segments == normal_texts(parts)
                },
    {
        let parts = path_parts(canonical.as_str());
        let ghost models = part_views(parts@);
        let mut label = canonical.clone();
        if parts.len() > 0 {
            if let PathPart::Normal(name) = &parts[parts.len() - 1] {
                label = name.clone();
            }
        }
        let segments = normals(&parts);
        let project = Project {
            id: ProjectId::from_canonical(canonical.as_str()),
            label,
            path: canonical,
            segments,
            health,
        };
        assert(project@.label == first_label(canonical@, models));
        project
    }

    /// The identity of a project is its path.
    pub fn id(&self) -> (id: &ProjectId)
        ensures
            id@ == self@.id,
            id@ == self@.path,
    {
        proof {
            use_type_invariant(self);
        }
        &self.id
    }

    pub fn label(&self) -> (label: &str)
        ensures
            label@ == self@.label,
    {
        self.label.as_str()
    }

    pub fn path(&self) -> (path: &str)
        ensures
            path@ == self@.path,
    {
        self.path.as_str()
    }

    /// The named segments of the path, outermost first.
    pub fn segments(&self) -> (segments: &Vec<String>)
        ensures
            views(segments@) == self@.segments,
    {
        &self.segments
    }

    pub fn health(&self) -> (health: &Health)
        ensures
            health@ == self@.health,
    {
        &self.health
    }

    /// Whether two projects are the same in every respect.
    pub fn same(&self, other: &Project) -> (same: bool)
        ensures
            same == (self@ == other@),
    {
        if !(self.id.same(&other.id) && self.label == other.label && self.path == other.path
            && self.health.same(&other.health)) {
            return false;
        }
        let ghost left = views(self.segments@);
        let ghost right = views(other.segments@);
        assert(left.len() == self.segments@.len() && right.len() == other.segments@.len());
        if self.segments.len() != other.segments.len() {
            return false;
        }
        let mut i: usize = 0;
        while i < self.segments.len()
            invariant
                i <= self.segments@.len(),
                self.segments@.len() == other.segments@.len(),
                left == views(self.segments@),
                right == views(other.segments@),
                forall|j: int| 0 <= j < i ==> left[j] == right[j],
            decreases self.segments@.len() - i,
        {
            if self.segments[i] != other.segments[i] {
                assert(left[i as int] != right[i as int]);
                return false;
            }
            i += 1;
        }
        assert(left =~= right);
        true
    }

    /// Used when two projects share a label.
    pub fn set_label(&mut self, label: String)
        ensures
            final(self)@ == (ProjectModel { label: label@, ..old(self)@ }),
    {
        proof {
            use_type_invariant(&*self);
        }
        self.label = label;
    }

    /// A project's health changes while it is registered: it goes away and
    /// comes back.
    pub fn set_health(&mut self, health: Health)
        ensures
            final(self)@ == (ProjectModel { health: health@, ..old(self)@ }),
    {
        proof {
            use_type_invariant(&*self);
        }
        self.health = health;
    }
}

/// One logical log event: a header together with the context and stack frames
/// beneath it.
#[derive(Debug, PartialEq, Eq)]
pub struct LogEntry {
    pub id: EntryId,
    pub project_id: ProjectId,
    pub file: String,
    pub offset: u64,
    /// Verbatim as parsed, not normalised.
    pub timestamp: String,
    pub env: String,
    pub level: Level,
    /// Header remainder, first line only.
    pub message: String,
    /// Following lines, joined with `\n`.
    pub context: String,
    /// Full verbatim text including the header. Stored rather than put together
    /// again, so that whitespace survives.
    pub raw: String,
}

/// An entry as text.
#[verifier::ext_equal]
pub struct EntryModel {
    pub id: Seq<char>,
    pub project_id: Seq<char>,
    pub file: Seq<char>,
    pub offset: nat,
    pub timestamp: Seq<char>,
    pub env: Seq<char>,
    pub level: Level,
    pub message: Seq<char>,
    pub context: Seq<char>,
    pub raw: Seq<char>,
}

impl View for LogEntry {
    type V = EntryModel;

    open spec fn view(&self) -> EntryModel {
        EntryModel {
            id: self.id@,
            project_id: self.project_id@,
            file: self.file@,
            offset: self.offset as nat,
            timestamp: self.timestamp@,
            env: self.env@,
            level: self.level,
            message: self.message@,
            context: self.context@,
            raw: self.raw@,
        }
    }
}

impl Clone for LogEntry {
    fn clone(&self) -> (copy: Self)
        ensures
            copy@ == self@,
    {
        LogEntry {
            id: self.id.clone(),
            project_id: self.project_id.clone(),
            file: self.file.clone(),
            offset: self.offset,
            timestamp: self.timestamp.clone(),
            env: self.env.clone(),
            level: self.level,
            message: self.message.clone(),
            context: self.context.clone(),
            raw: self.raw.clone(),
        }
    }
}

/// The entries of a list, as text.
pub open spec fn entry_views(entries: Seq<LogEntry>) -> Seq<EntryModel> {
    entries.map_values(|entry: LogEntry| entry@)
}

/// Why a break was inserted into the record of a session.
#[derive(Debug, Clone, Copy, PartialEq, Eq, Structural)]
pub enum BreakKind {
    Cleared,
    Rotated,
}

/// A point in the record of a session where the underlying source
/// discontinued. Entries either side of a break are unrelated in time.
#[derive(Debug, PartialEq, Eq)]
pub struct Break {
    pub id: BreakId,
    pub project_id: ProjectId,
    pub kind: BreakKind,
    /// The file in effect *after* the break.
    pub file: String,
}

/// A break as text.
#[verifier::ext_equal]
pub struct BreakModel {
    pub id: Seq<char>,
    pub project_id: Seq<char>,
    pub kind: BreakKind,
    pub file: Seq<char>,
}

impl View for Break {
    type V = BreakModel;

    open spec fn view(&self) -> BreakModel {
        BreakModel {
            id: self.id@,
            project_id: self.project_id@,
            kind: self.kind,
            file: self.file@,
        }
    }
}

impl Clone for Break {
    fn clone(&self) -> (copy: Self)
        ensures
            copy@ == self@,
    {
        Break {
            id: self.id.clone(),
            project_id: self.project_id.clone(),
            kind: self.kind,
            file: self.file.clone(),
        }
    }
}

/// What the stream carries: either an entry or a break.
#[derive(Debug, PartialEq, Eq)]
pub enum StreamItem {
    Entry(LogEntry),
    Break(Break),
}

/// An item of the stream, as text.
pub enum ItemModel {
    Entry(EntryModel),
    Break(BreakModel),
}

impl View for StreamItem {
    type V = ItemModel;

    open spec fn view(&self) -> ItemModel {
        match self {
            StreamItem::Entry(entry) => ItemModel::Entry(entry@),
            StreamItem::Break(brk) => ItemModel::Break(brk@),
        }
    }
}

impl Clone for StreamItem {
    fn clone(&self) -> (copy: Self)
        ensures
            copy@ == self@,
    {
        match self {
            StreamItem::Entry(entry) => StreamItem::Entry(entry.clone()),
            StreamItem::Break(brk) => StreamItem::Break(brk.clone()),
        }
    }
}

} // verus!
