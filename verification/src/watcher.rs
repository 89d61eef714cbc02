//! Following a project's log as it grows.
//!
//! Comparing a file's length with the offset already read shows truncation and
//! rotation directly: a shrinking file *is* the signal.
//!
//! Two modes:
//!
//! - [`Mode::Selected`] parses fully and sends entries and breaks.
//! - [`Mode::Background`] parses the same bytes only far enough to count entries
//!   by level, and discards the text.
//!
//! Selecting a project *promotes* its watcher and *demotes* the previous one; it
//! never starts or stops watching.
//!
//! Reading files is the caller's. [`WatcherState::poll`] says what to read next,
//! and what was read is handed back.

use vstd::prelude::*;
use vstd::slice::*;
use vstd::string::*;

use crate::activity::{
    adds_up, lemma_count_is_in_the_sum, no_activity, recorded_all, recording_a_list_adds_up,
    Activity,
};
use crate::files::{
    cannot_read, cannot_stat, cannot_stat_text, canonical_root, resolve_named, resolves_name,
    root_is_checked, Located,
};
use crate::ids::{decode_entry_id, stamped_break_id, stamped_entry_id, Generation};
use crate::model::{entry_views, Break, BreakKind, EntryId, Level, LogEntry, ProjectId, StreamItem};
use crate::parser::Accumulator;
use crate::parser_laws::entries_are_no_more_than_bytes;
use crate::paths::logs_dir;
use crate::sink::{text_view, Event, EventSink, StatusModel, StatusPayload, StatusState};
use crate::text::{byte_length, same_text};
use crate::watcher_model::{
    all_stamped, attached, break_events, closed, closing_events, counting, counting_events,
    detached, following, following_events, in_mode, ingested, ingesting_events, is_announced,
    is_another, is_sound, is_steady, lemma_open_entry_comes_first, lemma_same_file,
    lemma_whole_lines, levels_of, levels_to_count, looks_below, looks_for, new_lines, new_watcher,
    newly_closed, not_readable_text, offline, offline_events, online, online_events, open_entry,
    open_events, opens_page_below, pages_back, parsed_on, polled, promoted, resolves_log,
    retained_state, retained_text, sent_as, shown_open, signature, sized, still_counted, taken,
    telling, told, uncounted, wait_of, whole_lines, WatcherModel,
};
use crate::window::{first_walk, stamped, Window, WindowWalk};

verus! {

/// The poll period, in milliseconds.
pub const POLL_INTERVAL: u64 = 300;

/// The ceiling the offline backoff walks up to, in milliseconds.
pub const MAX_BACKOFF: u64 = 5000;

/// Ceiling on how much one poll takes in, so that a huge append cannot allocate
/// without bound. The rest is picked up by the next poll.
pub const MAX_READ_PER_POLL: u64 = 8 * 1024 * 1024;

/// What of a project is read: the newest log, or one that was picked.
#[derive(Debug, PartialEq, Eq)]
pub enum Target {
    Latest,
    File(String),
}

/// A target, as text.
pub enum TargetModel {
    Latest,
    File(Seq<char>),
}

impl View for Target {
    type V = TargetModel;

    open spec fn view(&self) -> TargetModel {
        match self {
            Target::Latest => TargetModel::Latest,
            Target::File(name) => TargetModel::File(name@),
        }
    }
}

impl Clone for Target {
    fn clone(&self) -> (copy: Self)
        ensures
            copy@ == self@,
    {
        match self {
            Target::Latest => Target::Latest,
            Target::File(name) => Target::File(name.clone()),
        }
    }
}

impl Default for Target {
    fn default() -> (target: Self)
        ensures
            target@ == TargetModel::Latest,
    {
        Target::Latest
    }
}

/// Whether a project's text is kept or discarded.
#[derive(Debug, Clone, Copy, PartialEq, Eq, Structural)]
pub enum Mode {
    /// The project the user is reading: parse fully, send entries and breaks.
    Selected,
    /// Every other project: parse for counts, discard the text.
    Background,
}

/// Everything one watcher knows.
pub struct WatcherState {
    project_id: ProjectId,
    /// The project root, already canonicalized.
    root: String,
    target: Target,
    mode: Mode,
    /// The file currently being followed, once one has been found.
    file: Option<String>,
    offset: u64,
    /// The tail of a line longer than one poll's read, held until its newline
    /// arrives.
    ///
    /// The bytes are already before `offset`: they are the last ones before it.
    /// Feeding half a line to the parser and the other half later would put a
    /// newline into the text that the file never held.
    carry: Vec<u8>,
    accumulator: Option<Accumulator>,
    activity: Activity,
    /// The pending entry already counted, so that it is not counted again when
    /// it closes.
    counted_pending: Option<EntryId>,
    /// Id and length of the pending entry as last sent, so that an unchanged
    /// one is not sent again.
    emitted_pending: Option<(EntryId, usize)>,
    /// How many breaks this watcher has passed.
    generation: Generation,
    /// The last status observed, from which the retry interval is chosen. Not
    /// the same as what has been told: see `announced`.
    reported: Option<StatusState>,
    /// The last status that arrived where it was sent.
    announced: Option<(StatusState, Option<String>)>,
    /// In milliseconds.
    backoff: u64,
}

impl View for WatcherState {
    type V = WatcherModel;

    closed spec fn view(&self) -> WatcherModel {
        WatcherModel {
            project_id: self.project_id@,
            root: self.root@,
            target: self.target@,
            mode: self.mode,
            file: match self.file {
                Some(file) => Some(file@),
                None => None,
            },
            offset: self.offset as nat,
            carry: self.carry@,
            accumulator: match self.accumulator {
                Some(accumulator) => Some(accumulator@),
                None => None,
            },
            activity: self.activity@,
            counted_pending: match self.counted_pending {
                Some(id) => Some(id@),
                None => None,
            },
            emitted_pending: match self.emitted_pending {
                Some((id, length)) => Some((id@, length as nat)),
                None => None,
            },
            generation: self.generation as nat,
            reported: self.reported,
            announced: match self.announced {
                Some((state, Some(reason))) => Some((state, Some(reason@))),
                Some((state, None)) => Some((state, None)),
                None => None,
            },
            backoff: self.backoff as nat,
        }
    }
}

/// What to do next for a watcher.
#[derive(Debug, PartialEq, Eq)]
pub enum Step {
    /// Nothing until the next poll.
    Idle,
    /// Measure the file and start following it at its end, with
    /// [`WatcherState::start_at`].
    Attach { path: String },
    /// Measure the file, for [`WatcherState::measured`]. `told` is whether this
    /// poll has gone online already.
    Measure { path: String, told: bool },
    /// Read part of the file, for [`WatcherState::received`].
    Read { path: String, told: bool, start: u64, end: u64 },
}

/// What to do next, as text.
pub enum StepModel {
    Idle,
    Attach { path: Seq<char> },
    Measure { path: Seq<char>, told: bool },
    Read { path: Seq<char>, told: bool, start: nat, end: nat },
}

impl View for Step {
    type V = StepModel;

    open spec fn view(&self) -> StepModel {
        match self {
            Step::Idle => StepModel::Idle,
            Step::Attach { path } => StepModel::Attach { path: path@ },
            Step::Measure { path, told } => StepModel::Measure { path: path@, told: *told },
            Step::Read { path, told, start, end } => StepModel::Read {
                path: path@,
                told: *told,
                start: *start as nat,
                end: *end as nat,
            },
        }
    }
}

/// Where to look for a target.
#[derive(Debug, PartialEq, Eq)]
pub enum Probe {
    /// Nowhere, for this reason.
    Refused(String),
    /// For the newest log of this directory.
    Newest { dir: String },
    /// For this file.
    Named { name: String, path: String },
}

/// A file that was picked, given whether it is there.
pub fn named_log(name: String, path: String, is_file: bool) -> (found: Result<
    Option<Located>,
    String,
>)
    ensures
        is_file ==> (found matches Ok(Some(located)) && located.name@ == name@ && located.path@
            == path@),
        !is_file ==> (found matches Err(reason) && reason@ == not_readable_text(path@)),
{
    if is_file {
        Ok(Some(Located { name, path }))
    } else {
        let mut reason = path;
        reason.append(" is not readable");
        Err(reason)
    }
}

/// A page of a file that is about to be read backwards.
#[derive(Debug, PartialEq, Eq)]
pub struct Page {
    pub name: String,
    pub path: String,
    pub generation: Generation,
    pub walk: WindowWalk,
}

/// How many bytes a list of bytes holds up to and with its last newline.
fn whole_lines_of(bytes: &Vec<u8>) -> (whole: usize)
    ensures
        whole == whole_lines(bytes@),
{
    let mut i: usize = bytes.len();
    assert(bytes@.take(i as int) =~= bytes@);
    while i > 0 && bytes[i - 1] != 10
        invariant
            i <= bytes@.len(),
            whole_lines(bytes@) == whole_lines(bytes@.take(i as int)),
        decreases i,
    {
        assert(bytes@.take(i as int).drop_last() =~= bytes@.take(i - 1));
        i -= 1;
    }
    i
}

fn same_id(held: &Option<EntryId>, id: &EntryId) -> (same: bool)
    ensures
        same == (match *held {
            Some(held) => Some(held@),
            None => None,
        } == Some(id@)),
{
    match held {
        Some(held) => held.same(id),
        None => false,
    }
}

fn same_signature(held: &Option<(EntryId, usize)>, entry: &LogEntry) -> (same: bool)
    ensures
        same == (match *held {
            Some((id, length)) => Some((id@, length as nat)),
            None => None,
        } == Some(signature(entry@))),
{
    match held {
        Some((id, length)) => id.same(&entry.id) && *length == byte_length(
            entry.raw.as_str(),
        ),
        None => false,
    }
}

/// The page back from the entry with this id below a root that was checked.
///
/// The name comes from outside, so it goes through the same check as every
/// other one.
pub fn page_before(before_id: &str, root: Result<String, String>) -> (page: Result<
    Option<Page>,
    String,
>)
    ensures
        pages_back(before_id@, root, page),
{
    let (name, generation, before) = match decode_entry_id(before_id) {
        Ok(parts) => parts,
        Err(reason) => {
            return Err(reason);
        },
    };
    if before == 0 {
        return Ok(None);
    }
    match root {
        Err(reason) => Err(reason),
        Ok(root) => {
            let dir = logs_dir(root.as_str());
            let found = resolve_named(dir.as_str(), name.as_str());
            let ghost named = found;
            let page = match found {
                Err(reason) => Err(reason),
                Ok(path) => Ok(
                    Some(Page { name, path, generation, walk: WindowWalk::new(before) }),
                ),
            };
            assert(resolves_name(dir@, name@, named));
            assert(resolves_log(root@, name@, named));
            assert(opens_page_below(root@, name@, generation, before, page));
            page
        },
    }
}

impl WatcherState {
    /// Whether this watcher is in a state that every operation keeps.
    pub open spec fn wf(&self) -> bool {
        is_sound(self@)
    }

    pub fn new(project_id: ProjectId, root: String, mode: Mode) -> (watcher: Self)
        ensures
            watcher.wf(),
            watcher@ == new_watcher(project_id@, root@, mode),
    {
        let watcher = WatcherState {
            project_id,
            root,
            target: Target::Latest,
            mode,
            file: None,
            offset: 0,
            carry: Vec::new(),
            accumulator: None,
            activity: Activity::new(),
            counted_pending: None,
            emitted_pending: None,
            generation: 0,
            reported: None,
            announced: None,
            backoff: POLL_INTERVAL,
        };
        assert(watcher@.carry =~= Seq::<u8>::empty());
        watcher
    }

    pub fn project_id(&self) -> (project_id: &ProjectId)
        ensures
            project_id@ == self@.project_id,
    {
        &self.project_id
    }

    pub fn root(&self) -> (root: &str)
        ensures
            root@ == self@.root,
    {
        self.root.as_str()
    }

    pub fn mode(&self) -> (mode: Mode)
        ensures
            mode == self@.mode,
    {
        self.mode
    }

    pub fn target(&self) -> (target: &Target)
        ensures
            target@ == self@.target,
    {
        &self.target
    }

    pub fn file(&self) -> (file: Option<&str>)
        ensures
            file is Some <==> self@.file is Some,
            file matches Some(file) ==> self@.file == Some(file@),
    {
        match &self.file {
            Some(file) => Some(file.as_str()),
            None => None,
        }
    }

    pub fn offset(&self) -> (offset: u64)
        ensures
            offset == self@.offset,
    {
        self.offset
    }

    pub fn activity(&self) -> (activity: &Activity)
        ensures
            activity@ == self@.activity,
    {
        &self.activity
    }

    /// How many breaks this watcher has passed.
    pub fn generation(&self) -> (generation: Generation)
        ensures
            generation == self@.generation,
    {
        self.generation
    }

    /// How long until the next poll, in milliseconds.
    pub fn interval(&self) -> (wait: u64)
        ensures
            wait == wait_of(self@),
    {
        match self.reported {
            Some(StatusState::Offline) => self.backoff,
            _ => POLL_INTERVAL,
        }
    }

    /// Selecting a project promotes its watcher; it does not start watching. The
    /// activity it accrued while unselected is spent.
    pub fn set_mode(&mut self, mode: Mode)
        requires
            old(self).wf(),
        ensures
            final(self).wf(),
            final(self)@ == in_mode(old(self)@, mode),
    {
        self.mode = mode;
        self.emitted_pending = None;
        if mode == Mode::Selected {
            self.activity.clear();
            self.counted_pending = None;
        }
    }

    /// The mode this watcher has while `selected` is the project being read: it
    /// is changed only where it differs.
    pub fn promote(&mut self, selected: &ProjectId)
        requires
            old(self).wf(),
        ensures
            final(self).wf(),
            final(self)@ == promoted(old(self)@, selected@),
    {
        let mode = if self.project_id.same(selected) {
            Mode::Selected
        } else {
            Mode::Background
        };
        if self.mode != mode {
            self.set_mode(mode);
        }
    }

    pub fn clear_activity(&mut self)
        requires
            old(self).wf(),
        ensures
            final(self).wf(),
            final(self)@ == (WatcherModel { activity: no_activity(), ..old(self)@ }),
    {
        self.activity.clear();
    }

    /// Point the watcher at a different target and start it over there.
    pub fn set_target(&mut self, target: Target)
        requires
            old(self).wf(),
        ensures
            final(self).wf(),
            final(self)@ == detached((WatcherModel { target: target@, ..old(self)@ })),
    {
        self.target = target;
        self.detach();
    }

    /// Forget the current file, so that the next poll finds it again.
    fn detach(&mut self)
        requires
            old(self).wf(),
        ensures
            final(self).wf(),
            final(self)@ == detached(old(self)@),
    {
        self.file = None;
        self.offset = 0;
        self.carry.clear();
        self.accumulator = None;
        self.counted_pending = None;
        self.emitted_pending = None;
        assert(self@.carry =~= Seq::<u8>::empty());
    }

    /// Attach to `file` at `offset` without treating it as a rotation: for a
    /// caller that has just read a window and knows where tailing resumes.
    pub fn attach(&mut self, file: String, offset: u64)
        requires
            old(self).wf(),
        ensures
            final(self).wf(),
            final(self)@ == attached(old(self)@, file@, offset as nat),
    {
        self.accumulator = Some(Accumulator::new(self.project_id.clone(), file.as_str()));
        self.file = Some(file);
        self.offset = offset;
        self.carry.clear();
        self.counted_pending = None;
        self.emitted_pending = None;
        assert(self@.carry =~= Seq::<u8>::empty());
    }

    /// Start over to read the opening window of the target, which was `found`.
    /// Where there is nothing to read yet, the window is empty.
    pub fn open(&mut self, found: Result<Option<Located>, String>) -> (opening: Result<
        Option<Located>,
        String,
    >)
        requires
            old(self).wf(),
        ensures
            final(self).wf(),
            final(self)@ == detached(old(self)@),
            opening == found,
    {
        self.detach();
        found
    }

    /// The opening page of a file, which ends where the file does.
    pub fn opening(&self, located: Located, length: Result<u64, String>) -> (page: Result<
        Page,
        String,
    >)
        ensures
            length matches Err(err) ==> (page matches Err(reason) && reason@ == cannot_stat_text(
                located.path@,
                err@,
            )),
            length matches Ok(length) ==> {
                &&& page matches Ok(page)
                &&& page.name@ == located.name@
                &&& page.path@ == located.path@
                &&& page.generation == self@.generation
                &&& page.walk@ == first_walk(length as nat)
            },
    {
        match length {
            Err(err) => Err(cannot_stat(located.path.as_str(), err.as_str())),
            Ok(length) => Ok(
                Page {
                    name: located.name,
                    path: located.path,
                    generation: self.generation,
                    walk: WindowWalk::new(length),
                },
            ),
        }
    }

    /// Show the opening window that was read of a file, and resume live tailing
    /// from it.
    ///
    /// Tailing resumes at the *last* entry rather than at the end, so a record
    /// still being written is sent again under the same id and revised in place.
    pub fn opened(&mut self, name: String, window: Window) -> (items: Vec<StreamItem>)
        requires
            old(self).wf(),
        ensures
            final(self).wf(),
            final(self)@ == attached(old(self)@, name@, window.next_offset as nat),
            items == window.items,
    {
        self.attach(name, window.next_offset);
        window.items
    }

    /// The page back from the entry with this id, if there is one. The target is
    /// unchanged and live tailing is untouched.
    ///
    /// `resolved` is what canonicalizing the root gave.
    pub fn earlier(&self, before_id: &str, resolved: Result<String, String>) -> (page: Result<
        Option<Page>,
        String,
    >)
        ensures
            exists|root: Result<String, String>|
                #[trigger] root_is_checked(self@.root, resolved, root) && pages_back(
                    before_id@,
                    root,
                    page,
                ),
    {
        let root = canonical_root(self.root.as_str(), resolved);
        let ghost checked = root;
        let page = page_before(before_id, root);
        assert(root_is_checked(self@.root, resolved, checked) && pages_back(
            before_id@,
            checked,
            page,
        ));
        page
    }

    /// Where to look for the target.
    ///
    /// `resolved` is what canonicalizing the root gave. The root is checked
    /// every time rather than trusted: a folder that was moved away shows up
    /// here.
    pub fn locate(&self, resolved: Result<String, String>) -> (probe: Probe)
        ensures
            exists|root: Result<String, String>|
                #[trigger] root_is_checked(self@.root, resolved, root) && looks_for(
                    self@.target,
                    root,
                    probe,
                ),
    {
        let root = canonical_root(self.root.as_str(), resolved);
        let ghost checked = root;
        let probe = match root {
            Err(reason) => Probe::Refused(reason),
            Ok(root) => {
                let dir = logs_dir(root.as_str());
                match &self.target {
                    Target::Latest => Probe::Newest { dir },
                    Target::File(name) => {
                        let found = resolve_named(dir.as_str(), name.as_str());
                        let ghost named = found;
                        let probe = match found {
                            Ok(path) => Probe::Named { name: name.clone(), path },
                            Err(reason) => Probe::Refused(reason),
                        };
                        assert(resolves_name(dir@, name@, named));
                        assert(resolves_log(root@, name@, named));
                        assert(looks_below(root@, name@, probe));
                        probe
                    },
                }
            },
        };
        assert(root_is_checked(self@.root, resolved, checked) && looks_for(
            self@.target,
            checked,
            probe,
        ));
        probe
    }

    /// One tick, given where the target was found.
    pub fn poll<S: EventSink>(
        &mut self,
        sink: &mut S,
        found: Result<Option<Located>, String>,
    ) -> (step: Step)
        requires
            old(self).wf(),
            old(self)@.generation < u64::MAX,
            old(self)@.activity.total < u64::MAX,
        ensures
            final(self).wf(),
            exists|delivered: bool|
                {
                    let turn = #[trigger] polled(old(self)@, found, delivered);
                    &&& final(self)@ == turn.watcher
                    &&& final(sink).log() == old(sink).log() + turn.events
                    &&& step@ == turn.step
                },
    {
        let ghost before = self@;
        let ghost log = sink.log();
        match found {
            Ok(Some(located)) => {
                // The file that is followed already is not known to be readable
                // before it was read.
                let same = match &self.file {
                    Some(file) => same_text(file.as_str(), located.name.as_str()),
                    None => false,
                };
                let delivered = if same {
                    true
                } else {
                    self.report_online(sink)
                };
                let step = self.pump(sink, located.name.as_str(), located.path);
                assert(sink.log() =~= log + polled(before, found, delivered).events);
                step
            },
            // Readable, but nothing written yet: online with nothing to do.
            Ok(None) => {
                let delivered = self.report_online(sink);
                assert(self@ == polled(before, found, delivered).watcher);
                Step::Idle
            },
            Err(reason) => {
                let delivered = self.report_offline(sink, reason);
                assert(self@ == polled(before, found, delivered).watcher);
                Step::Idle
            },
        }
    }

    fn report_online<S: EventSink>(&mut self, sink: &mut S) -> (delivered: bool)
        requires
            old(self).wf(),
        ensures
            final(self).wf(),
            final(self)@ == online(old(self)@, delivered),
            final(sink).log() == old(sink).log() + online_events(old(self)@, delivered),
    {
        self.backoff = POLL_INTERVAL;
        self.reported = Some(StatusState::Online);
        self.announce(sink, StatusState::Online, None)
    }

    /// A missing or unreadable path goes offline and keeps being retried, at
    /// growing intervals.
    fn report_offline<S: EventSink>(&mut self, sink: &mut S, reason: String) -> (delivered: bool)
        requires
            old(self).wf(),
        ensures
            final(self).wf(),
            final(self)@ == offline(old(self)@, reason@, delivered),
            final(sink).log() == old(sink).log() + offline_events(
                old(self)@,
                reason@,
                delivered,
            ),
    {
        let again = match self.reported {
            Some(StatusState::Offline) => true,
            _ => false,
        };
        self.backoff = if !again {
            POLL_INTERVAL
        } else if self.backoff * 2 <= MAX_BACKOFF {
            self.backoff * 2
        } else {
            MAX_BACKOFF
        };
        self.reported = Some(StatusState::Offline);
        self.announce(sink, StatusState::Offline, Some(reason))
    }

    /// Send a status only on a transition. One that did not arrive is sent again
    /// by the next poll rather than assumed to have.
    pub fn announce<S: EventSink>(
        &mut self,
        sink: &mut S,
        state: StatusState,
        reason: Option<String>,
    ) -> (delivered: bool)
        requires
            old(self).wf(),
        ensures
            final(self).wf(),
            final(self)@ == told(old(self)@, state, text_view(reason), delivered),
            final(sink).log() == old(sink).log() + telling(
                old(self)@,
                state,
                text_view(reason),
                delivered,
            ),
    {
        let already = match (&self.announced, &reason) {
            (Some((announced, Some(previous))), Some(reason)) => *announced == state && *previous
                == *reason,
            (Some((announced, None)), None) => *announced == state,
            _ => false,
        };
        assert(already == is_announced(self@, state, text_view(reason)));
        if already {
            assert(sink.log() =~= old(sink).log() + Seq::<Event>::empty());
            return true;
        }
        let payload = StatusPayload {
            project_id: self.project_id.clone(),
            state,
            reason: match &reason {
                Some(reason) => Some(reason.clone()),
                None => None,
            },
        };
        let delivered = sink.status(&payload);
        if delivered {
            self.announced = Some((state, reason));
        }
        assert(sink.log() =~= old(sink).log() + seq![Event::Status(payload@, delivered)]);
        delivered
    }

    /// Follow the file that was found: rotation first.
    fn pump<S: EventSink>(&mut self, sink: &mut S, name: &str, path: String) -> (step: Step)
        requires
            old(self).wf(),
            old(self)@.generation < u64::MAX,
            old(self)@.activity.total < u64::MAX,
        ensures
            final(self).wf(),
            final(self)@ == following(old(self)@, name@),
            final(sink).log() == old(sink).log() + following_events(old(self)@, name@),
            step@ == if old(self)@.file is None {
                StepModel::Attach { path: path@ }
            } else {
                StepModel::Measure { path: path@, told: is_another(old(self)@, name@) }
            },
    {
        let ghost before = self@;
        let ghost log = sink.log();
        let (first_attach, same) = match &self.file {
            Some(file) => (false, same_text(file.as_str(), name)),
            None => (true, false),
        };
        if !same {
            self.close_pending(sink);
            let offset: u64 = if first_attach {
                self.offset
            } else {
                0
            };
            self.attach(String::from_str(name), offset);
            if first_attach {
                // Nothing has been shown for this project yet, so history is
                // not replayed: activity counts what is written from now on.
                return Step::Attach { path };
            }
            // A newer file appeared. Everything above the break survives, so
            // the ids below it must not reuse those above it.
            self.generation += 1;
            self.emit_break(sink, BreakKind::Rotated, name, 0);
            assert(sink.log() =~= log + following_events(before, name@));
        } else {
            assert(sink.log() =~= log + Seq::<Event>::empty());
        }
        Step::Measure { path, told: !same }
    }

    /// Start following the current file at its end. Where its length is not
    /// known, it is followed from the start.
    pub fn start_at(&mut self, length: Option<u64>)
        requires
            old(self).wf(),
            old(self)@.file is Some,
            old(self)@.carry.len() == 0,
        ensures
            final(self).wf(),
            final(self)@ == (WatcherModel {
                offset: match length {
                    Some(length) => length as nat,
                    None => 0,
                },
                ..old(self)@
            }),
    {
        self.offset = match length {
            Some(length) => length,
            None => 0,
        };
    }

    /// The current file was measured. `told` is whether this poll has gone online
    /// already.
    ///
    /// A shrinking file *is* the truncation signal. A break is inserted and
    /// everything above it stays; the offset restarts at 0, so the generation
    /// moves with it.
    pub fn measured<S: EventSink>(
        &mut self,
        sink: &mut S,
        path: String,
        told: bool,
        length: Result<u64, String>,
    ) -> (step: Step)
        requires
            old(self).wf(),
            old(self)@.file is Some,
            old(self)@.generation < u64::MAX,
        ensures
            final(self).wf(),
            exists|delivered: bool|
                {
                    let turn = #[trigger] sized(old(self)@, path@, told, length, delivered);
                    &&& final(self)@ == turn.watcher
                    &&& final(sink).log() == old(sink).log() + turn.events
                    &&& step@ == turn.step
                },
    {
        let ghost before = self@;
        let ghost log = sink.log();
        let length: u64 = match length {
            Ok(length) => length,
            Err(err) => {
                let reason = cannot_stat(path.as_str(), err.as_str());
                let delivered = self.report_offline(sink, reason);
                assert(self@ == sized(before, path@, told, Err(err), delivered).watcher);
                return Step::Idle;
            },
        };
        let grown = length > self.offset;
        let delivered = if grown || told {
            true
        } else {
            self.report_online(sink)
        };
        let ghost turn = sized(before, path@, told, Ok(length), delivered);
        if length < self.offset {
            let name = match &self.file {
                Some(file) => file.clone(),
                None => String::new(),
            };
            let at: u64 = self.offset;
            self.generation += 1;
            self.emit_break(sink, BreakKind::Cleared, name.as_str(), at);
            self.attach(name, 0);
        }
        assert(self@ == turn.watcher);
        assert(sink.log() =~= log + turn.events);
        if length == self.offset {
            return Step::Idle;
        }
        let new: u64 = length - self.offset;
        let want: u64 = if new <= MAX_READ_PER_POLL {
            new
        } else {
            MAX_READ_PER_POLL
        };
        Step::Read { path, told: told || !grown, start: self.offset, end: self.offset + want }
    }

    /// Bytes of the current file were read: at most `want` of them, from the
    /// offset on. `told` is whether this poll has gone online already.
    ///
    /// Only whole lines are taken in, and the offset moves by exactly the bytes
    /// that were: a half-written record is read again by the next poll.
    #[verifier::rlimit(60)]
    pub fn received<S: EventSink>(
        &mut self,
        sink: &mut S,
        path: &str,
        told: bool,
        want: u64,
        bytes: Result<Vec<u8>, String>,
    )
        requires
            old(self).wf(),
            old(self)@.file is Some,
            bytes matches Ok(bytes) ==> {
                &&& bytes@.len() <= want
                &&& old(self)@.offset + want <= u64::MAX
                &&& old(self)@.activity.total + old(self)@.offset + want < u64::MAX
            },
        ensures
            final(self).wf(),
            exists|delivered: bool|
                {
                    let turn = #[trigger] taken(
                        old(self)@,
                        path@,
                        told,
                        want as nat,
                        bytes,
                        delivered,
                    );
                    &&& final(self)@ == turn.watcher
                    &&& final(sink).log() == old(sink).log() + turn.events
                },
    {
        let ghost before = self@;
        let ghost log = sink.log();
        let bytes = match bytes {
            Ok(bytes) => bytes,
            Err(err) => {
                let reason = cannot_read(path, err.as_str());
                let delivered = self.report_offline(sink, reason);
                assert(self@ == taken(
                    before,
                    path@,
                    told,
                    want as nat,
                    Err(err),
                    delivered,
                ).watcher);
                return ;
            },
        };
        let delivered = if told {
            true
        } else {
            self.report_online(sink)
        };
        let ghost turn = taken(before, path@, told, want as nat, Ok(bytes), delivered);
        let ghost seen = self@;
        let whole = whole_lines_of(&bytes);
        proof {
            lemma_whole_lines(bytes@);
        }
        if whole > 0 {
            let lines = slice_subrange(bytes.as_slice(), 0, whole);
            assert(lines@ =~= bytes@.take(whole as int));
            self.ingest(sink, lines);
        } else {
            // A line longer than one read would never be passed if it were read
            // whole each time, so its bytes are taken off the file and held.
            if want == MAX_READ_PER_POLL {
                self.carry.extend_from_slice(bytes.as_slice());
                self.offset += bytes.len() as u64;
                proof {
                    assert(self@.carry =~= seen.carry + bytes@);
                    assert forall|i: int| 0 <= i < self@.carry.len() implies self@.carry[i] != 10 by {
                        if i >= seen.carry.len() {
                            assert(self@.carry[i] == bytes@[i - seen.carry.len()]);
                        } else {
                            assert(seen.carry.contains(seen.carry[i]));
                        }
                    }
                }
            }
        }
        assert(self@ == turn.watcher);
        assert(sink.log() =~= log + turn.events);
    }

    /// Feed the parser whole lines and do with the result what this mode does.
    ///
    /// Bytes held back before are joined here, so the parser only ever sees
    /// whole lines.
    fn ingest<S: EventSink>(&mut self, sink: &mut S, bytes: &[u8])
        requires
            old(self).wf(),
            old(self)@.file is Some,
            old(self)@.offset + bytes@.len() <= u64::MAX,
            old(self)@.activity.total + old(self)@.offset + bytes@.len() < u64::MAX,
        ensures
            final(self).wf(),
            final(self)@ == ingested(old(self)@, bytes@),
            final(sink).log() == old(sink).log() + ingesting_events(old(self)@, bytes@),
    {
        let ghost before = self@;
        let ghost log = sink.log();
        let held: u64 = self.carry.len() as u64;
        let start: u64 = self.offset - held;
        let mut data: Vec<u8> = Vec::new();
        data.append(&mut self.carry);
        data.extend_from_slice(bytes);
        assert(data@ =~= before.carry + bytes@);
        let mut closed: Vec<LogEntry> = Vec::new();
        if let Some(accumulator) = &mut self.accumulator {
            closed = accumulator.push_bytes(start, data.as_slice());
        }
        self.offset += bytes.len() as u64;
        assert(self@.carry =~= Seq::<u8>::empty());
        assert(self@ == parsed_on(before, bytes@));
        assert(entry_views(closed@) == newly_closed(before, bytes@));
        proof {
            lemma_same_file(before.accumulator.unwrap(), new_lines(before, bytes@));
            if before.counted_pending is Some {
                lemma_open_entry_comes_first(
                    before.accumulator.unwrap(),
                    new_lines(before, bytes@),
                );
            }
            entries_are_no_more_than_bytes(
                before.accumulator.unwrap(),
                start as nat,
                data@,
            );
            assert(entry_views(closed@).len() == closed@.len());
        }
        match self.mode {
            Mode::Selected => {
                self.stamp(&mut closed);
                sink.entries(closed.as_slice());
                self.emit_pending(sink);
                assert(sink.log() =~= log + ingesting_events(before, bytes@));
            },
            // Only the level of each entry survives this function: the text is
            // dropped with `closed`.
            Mode::Background => self.count(sink, closed),
        }
    }

    /// Give entries the ids of the current generation.
    fn stamp(&self, entries: &mut Vec<LogEntry>)
        ensures
            entry_views(final(entries)@) == all_stamped(
                entry_views(old(entries)@),
                self@.generation,
            ),
    {
        let ghost start = entries@;
        let ghost generation = self@.generation;
        let mut i: usize = 0;
        while i < entries.len()
            invariant
                i <= entries@.len(),
                entries@.len() == start.len(),
                generation == self@.generation,
                forall|j: int|
                    0 <= j < i ==> (#[trigger] entries@[j])@ == stamped(start[j]@, generation),
                forall|j: int| i <= j < start.len() ==> #[trigger] entries@[j] == start[j],
            decreases entries@.len() - i,
        {
            let id = stamped_entry_id(
                entries[i].file.as_str(),
                entries[i].offset,
                self.generation,
            );
            entries[i].id = id;
            i += 1;
        }
        assert(entry_views(entries@) =~= all_stamped(entry_views(start), generation));
    }

    /// Count closed entries and the one still open, exactly once each.
    ///
    /// The newest entry is normally still open, as only the next header closes
    /// it, so counting only closed entries would leave it out until then.
    #[verifier::rlimit(60)]
    fn count<S: EventSink>(&mut self, sink: &mut S, closed: Vec<LogEntry>)
        requires
            is_steady(old(self)@),
            old(self)@.mode == Mode::Background,
            old(self)@.counted_pending is Some ==> open_entry(old(self)@) is Some,
            old(self)@.activity.total + closed@.len() < u64::MAX,
        ensures
            final(self).wf(),
            final(self)@ == counting(old(self)@, entry_views(closed@)),
            final(sink).log() == old(sink).log() + counting_events(
                old(self)@,
                entry_views(closed@),
            ),
    {
        let ghost before = self@;
        let ghost log = sink.log();
        let ghost models = entry_views(closed@);
        let ghost fresh_ones = uncounted(before.counted_pending, models);
        let total: u64 = self.activity.total;
        let mut i: usize = 0;
        if closed.len() > 0 {
            assert(models[0] == closed@[0]@);
            if same_id(&self.counted_pending, &closed[0].id) {
                // The entry counted while it was open has now closed.
                i = 1;
            }
            self.counted_pending = None;
        }
        let ghost skipped = i;
        assert(fresh_ones =~= models.skip(skipped as int));
        assert(levels_of(fresh_ones.take(0)) =~= Seq::<Level>::empty());
        while i < closed.len()
            invariant
                skipped <= i <= closed@.len(),
                skipped <= 1,
                models == entry_views(closed@),
                fresh_ones == models.skip(skipped as int),
                adds_up(before.activity),
                before.activity.total + closed@.len() < u64::MAX,
                self@ == (WatcherModel {
                    activity: recorded_all(
                        before.activity,
                        levels_of(fresh_ones.take(i - skipped)),
                    ),
                    counted_pending: still_counted(before.counted_pending, models),
                    ..before
                }),
            decreases closed@.len() - i,
        {
            proof {
                let done = levels_of(fresh_ones.take(i - skipped));
                let next = levels_of(fresh_ones.take(i + 1 - skipped));
                recording_a_list_adds_up(before.activity, done);
                assert(fresh_ones[i - skipped] == closed@[i as int]@);
                assert(next.drop_last() =~= done);
                assert(next.last() == closed@[i as int].level);
            }
            proof {
                lemma_count_is_in_the_sum(self@.activity.counts, closed@[i as int].level);
            }
            self.activity.record(closed[i].level);
            i += 1;
        }
        let ghost all = levels_to_count(before.counted_pending, models, open_entry(before));
        proof {
            let done = levels_of(fresh_ones.take(i - skipped));
            assert(fresh_ones.take(i - skipped) =~= fresh_ones);
            recording_a_list_adds_up(before.activity, done);
            recording_a_list_adds_up(before.activity, all);
        }
        let open = match &self.accumulator {
            Some(accumulator) => match accumulator.pending() {
                Some(entry) => Some((entry.id.clone(), entry.level)),
                None => None,
            },
            None => None,
        };
        if let Some((id, level)) = open {
            if !same_id(&self.counted_pending, &id) {
                proof {
                    assert(all.drop_last() =~= levels_of(fresh_ones));
                    assert(all.last() == level);
                    lemma_count_is_in_the_sum(self@.activity.counts, level);
                }
                self.activity.record(level);
                self.counted_pending = Some(id);
            } else {
                assert(all =~= levels_of(fresh_ones));
            }
        } else {
            assert(all =~= levels_of(fresh_ones));
        }
        assert(self@ == counting(before, models));
        assert(self@.activity.total == before.activity.total + all.len());
        if self.activity.total != total {
            sink.activity(&self.activity.payload(&self.project_id));
            assert(sink.log() =~= log + counting_events(before, models));
        } else {
            assert(sink.log() =~= log + Seq::<Event>::empty());
        }
    }

    /// Send an entry the accumulator still has open, under the id this
    /// generation gives it.
    fn emit_entry<S: EventSink>(&self, sink: &mut S, entry: &LogEntry)
        ensures
            final(sink).log() == old(sink).log().push(
                Event::Entry(sent_as(entry@, self@.generation)),
            ),
    {
        if self.generation == 0 {
            sink.entry(entry);
            return ;
        }
        let mut copy = entry.clone();
        copy.id = stamped_entry_id(copy.file.as_str(), copy.offset, self.generation);
        sink.entry(&copy);
    }

    /// Send the open entry so that the newest one appears at once, and again
    /// whenever it grows.
    fn emit_pending<S: EventSink>(&mut self, sink: &mut S)
        requires
            old(self).wf(),
        ensures
            final(self).wf(),
            final(self)@ == shown_open(old(self)@),
            final(sink).log() == old(sink).log() + open_events(old(self)@),
    {
        let ghost before = self@;
        let ghost log = sink.log();
        let open = match &self.accumulator {
            Some(accumulator) => accumulator.pending(),
            None => None,
        };
        let shown = match open {
            Some(entry) => {
                if !same_signature(&self.emitted_pending, entry) {
                    self.emit_entry(sink, entry);
                }
                Some((entry.id.clone(), byte_length(entry.raw.as_str())))
            },
            None => None,
        };
        self.emitted_pending = shown;
        assert(sink.log() =~= log + open_events(before));
    }

    /// Close the open entry before a file boundary, so that its final form is
    /// sent.
    pub fn close_pending<S: EventSink>(&mut self, sink: &mut S)
        requires
            old(self).wf(),
            old(self)@.activity.total < u64::MAX,
        ensures
            final(self).wf(),
            final(self)@ == closed(old(self)@),
            final(sink).log() == old(sink).log() + closing_events(old(self)@),
    {
        let ghost before = self@;
        let ghost log = sink.log();
        let entry = match &mut self.accumulator {
            Some(accumulator) => accumulator.flush(),
            None => None,
        };
        let entry = match entry {
            Some(entry) => entry,
            None => {
                assert(self@ == before);
                assert(sink.log() =~= log + Seq::<Event>::empty());
                return ;
            },
        };
        match self.mode {
            Mode::Selected => {
                if !same_signature(&self.emitted_pending, &entry) {
                    self.emit_entry(sink, &entry);
                }
                self.counted_pending = None;
                self.emitted_pending = None;
            },
            Mode::Background => {
                let counted = same_id(&self.counted_pending, &entry.id);
                self.counted_pending = None;
                self.emitted_pending = None;
                if !counted {
                    proof {
                        lemma_count_is_in_the_sum(self@.activity.counts, entry.level);
                    }
                    self.activity.record(entry.level);
                    sink.activity(&self.activity.payload(&self.project_id));
                }
            },
        }
        assert(self@ == closed(before));
        assert(sink.log() =~= log + closing_events(before));
    }

    fn emit_break<S: EventSink>(&self, sink: &mut S, kind: BreakKind, file: &str, offset: u64)
        ensures
            final(sink).log() == old(sink).log() + break_events(
                self@,
                kind,
                file@,
                offset as nat,
            ),
    {
        let ghost log = sink.log();
        if self.mode == Mode::Selected {
            let brk = Break {
                id: stamped_break_id(file, offset, self.generation),
                project_id: self.project_id.clone(),
                kind,
                file: String::from_str(file),
            };
            sink.brk(&brk);
        }
        assert(sink.log() =~= log + break_events(self@, kind, file@, offset as nat));
    }

    /// How many bytes of entry text this watcher is holding on to: those of the
    /// single open entry.
    pub fn retained_text_bytes(&self) -> (bytes: u128)
        ensures
            bytes == retained_text(self@),
            bytes <= 3 * usize::MAX,
    {
        match &self.accumulator {
            Some(accumulator) => match accumulator.pending() {
                Some(entry) => byte_length(entry.raw.as_str()) as u128 + byte_length(
                    entry.context.as_str(),
                ) as u128 + byte_length(entry.message.as_str()) as u128,
                None => 0,
            },
            None => 0,
        }
    }

    /// How many bytes this watcher is still holding between polls: the open
    /// entry, the held partial line, the two bookmarks, the name of its file,
    /// and sixteen for each level that was counted.
    pub fn retained_state_bytes(&self) -> (bytes: u128)
        ensures
            bytes == retained_state(self@),
    {
        let file: u128 = match &self.file {
            Some(file) => byte_length(file.as_str()) as u128,
            None => 0,
        };
        let counted: u128 = match &self.counted_pending {
            Some(id) => byte_length(id.as_str()) as u128,
            None => 0,
        };
        let emitted: u128 = match &self.emitted_pending {
            Some((id, _)) => byte_length(id.as_str()) as u128,
            None => 0,
        };
        self.retained_text_bytes() + self.carry.len() as u128 + file + counted + emitted
            + self.activity.counts.len() as u128 * 16
    }

    /// How many distinct levels the activity holds.
    pub fn activity_bucket_count(&self) -> (count: usize)
        ensures
            count == self@.activity.counts.len(),
            count <= 9,
    {
        self.activity.counts.len()
    }
}

/// What is told of a project whose watcher could not be started.
pub fn refused_status(project_id: &ProjectId, err: &str) -> (payload: StatusPayload)
    ensures
        payload@ == (StatusModel {
            project_id: project_id@,
            state: StatusState::Offline,
            reason: Some("could not start a watcher: "@ + err@),
        }),
{
    let mut reason = String::from_str("could not start a watcher: ");
    reason.append(err);
    StatusPayload {
        project_id: project_id.clone(),
        state: StatusState::Offline,
        reason: Some(reason),
    }
}

} // verus!
