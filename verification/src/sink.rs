//! Where the output of a watcher goes.

use vstd::prelude::*;
use vstd::string::*;

use crate::activity::{ActivityPayload, ActivityPayloadModel};
use crate::model::{entry_views, Break, BreakModel, EntryModel, LogEntry, ProjectId};

verus! {

/// The name of the event that carries one entry.
pub const EVENT_ENTRY: &'static str = "log:entry";

/// The name of the event that carries all entries closed by one poll, in order.
pub const EVENT_ENTRIES: &'static str = "log:entries";

/// The name of the event that carries a break.
pub const EVENT_BREAK: &'static str = "log:break";

/// The name of the event that carries a project's activity.
pub const EVENT_ACTIVITY: &'static str = "project:activity";

/// The name of the event that carries a project's status.
pub const EVENT_STATUS: &'static str = "project:status";

/// Whether a project can be read right now.
#[derive(Debug, Clone, Copy, PartialEq, Eq, Structural)]
pub enum StatusState {
    Online,
    Offline,
}

/// A project's status as it is sent.
#[derive(Debug, PartialEq, Eq)]
pub struct StatusPayload {
    pub project_id: ProjectId,
    pub state: StatusState,
    pub reason: Option<String>,
}

/// A project's status, as text.
#[verifier::ext_equal]
pub struct StatusModel {
    pub project_id: Seq<char>,
    pub state: StatusState,
    pub reason: Option<Seq<char>>,
}

/// A text that may be there.
pub open spec fn text_view(text: Option<String>) -> Option<Seq<char>> {
    match text {
        Some(text) => Some(text@),
        None => None,
    }
}

impl View for StatusPayload {
    type V = StatusModel;

    open spec fn view(&self) -> StatusModel {
        StatusModel {
            project_id: self.project_id@,
            state: self.state,
            reason: text_view(self.reason),
        }
    }
}

impl Clone for StatusPayload {
    fn clone(&self) -> (copy: Self)
        ensures
            copy@ == self@,
    {
        StatusPayload {
            project_id: self.project_id.clone(),
            state: self.state,
            reason: match &self.reason {
                Some(reason) => Some(reason.clone()),
                None => None,
            },
        }
    }
}

/// What a sink was given. Of a status it is known whether it arrived.
pub enum Event {
    Entry(EntryModel),
    /// Several entries at once, in order.
    Entries(Seq<EntryModel>),
    Break(BreakModel),
    Activity(ActivityPayloadModel),
    Status(StatusModel, bool),
}

/// One event for all of these entries. No entries are no event.
pub open spec fn batch_events(entries: Seq<EntryModel>) -> Seq<Event> {
    if entries.len() == 0 {
        Seq::empty()
    } else {
        seq![Event::Entries(entries)]
    }
}

/// Where a poll's output goes.
pub trait EventSink: Sized {
    /// Everything that was given to this sink, in order.
    ///
    /// An impl has to define it for its methods to be verified: nothing can be
    /// given to a sink that leaves it as it is here.
    open spec fn log(&self) -> Seq<Event> {
        Seq::empty()
    }

    fn entry(&mut self, entry: &LogEntry)
        ensures
            final(self).log() == old(self).log().push(Event::Entry(entry@)),
    ;

    /// All entries that a poll closed, as one event. An empty batch is not an
    /// event.
    ///
    /// A burst can close thousands of entries within one poll; one event each
    /// would cost their reader a pass over everything it shows for each of them.
    fn entries(&mut self, entries: &[LogEntry])
        ensures
            final(self).log() == old(self).log() + batch_events(entry_views(entries@)),
    ;

    fn brk(&mut self, brk: &Break)
        ensures
            final(self).log() == old(self).log().push(Event::Break(brk@)),
    ;

    fn activity(&mut self, payload: &ActivityPayload)
        ensures
            final(self).log() == old(self).log().push(Event::Activity(payload@)),
    ;

    /// Returns whether the payload reached its reader.
    ///
    /// A status is sent only on a transition, so one that was lost is not made
    /// up for by the next. The caller uses this answer to decide whether the
    /// transition has been announced or must be sent again.
    fn status(&mut self, payload: &StatusPayload) -> (delivered: bool)
        ensures
            final(self).log() == old(self).log().push(Event::Status(payload@, delivered)),
    ;
}

/// What a [`Recorder`] was given.
#[derive(Debug, PartialEq, Eq)]
pub enum Emitted {
    Entry(LogEntry),
    Entries(Vec<LogEntry>),
    Break(Break),
    Activity(ActivityPayload),
    Status(StatusPayload),
}

impl Emitted {
    /// The event that was given.
    pub open spec fn event(self) -> Event {
        match self {
            Emitted::Entry(entry) => Event::Entry(entry@),
            Emitted::Entries(entries) => Event::Entries(entry_views(entries@)),
            Emitted::Break(brk) => Event::Break(brk@),
            Emitted::Activity(payload) => Event::Activity(payload@),
            Emitted::Status(payload) => Event::Status(payload@, true),
        }
    }
}

/// A sink that keeps what it is given, and to which everything arrives.
#[derive(Debug, PartialEq, Eq)]
pub struct Recorder {
    pub events: Vec<Emitted>,
}

impl Recorder {
    pub fn new() -> (recorder: Self)
        ensures
            recorder.log().len() == 0,
    {
        Recorder { events: Vec::new() }
    }

    /// Take out everything that was recorded.
    pub fn take(&mut self) -> (events: Vec<Emitted>)
        ensures
            events@ == old(self).events@,
            final(self).log().len() == 0,
    {
        let mut events: Vec<Emitted> = Vec::new();
        events.append(&mut self.events);
        assert(events@ =~= old(self).events@);
        events
    }

    fn push(&mut self, emitted: Emitted)
        ensures
            final(self).log() == old(self).log().push(emitted.event()),
    {
        let ghost before = self.log();
        self.events.push(emitted);
        assert(self.log() =~= before.push(emitted.event()));
    }
}

impl EventSink for Recorder {
    open spec fn log(&self) -> Seq<Event> {
        self.events@.map_values(|emitted: Emitted| emitted.event())
    }

    fn entry(&mut self, entry: &LogEntry) {
        self.push(Emitted::Entry(entry.clone()));
    }

    fn entries(&mut self, entries: &[LogEntry]) {
        let ghost start = self.log();
        if entries.len() == 0 {
            assert(start + batch_events(entry_views(entries@)) =~= start);
            return ;
        }
        let mut batch: Vec<LogEntry> = Vec::new();
        let mut i: usize = 0;
        while i < entries.len()
            invariant
                i <= entries@.len(),
                batch@.len() == i,
                forall|j: int| 0 <= j < i ==> (#[trigger] batch@[j])@ == entries@[j]@,
            decreases entries@.len() - i,
        {
            batch.push(entries[i].clone());
            i += 1;
        }
        assert(entry_views(batch@) =~= entry_views(entries@));
        self.push(Emitted::Entries(batch));
        assert(self.log() =~= start + batch_events(entry_views(entries@)));
    }

    fn brk(&mut self, brk: &Break) {
        self.push(Emitted::Break(brk.clone()));
    }

    fn activity(&mut self, payload: &ActivityPayload) {
        self.push(Emitted::Activity(payload.clone()));
    }

    fn status(&mut self, payload: &StatusPayload) -> (delivered: bool)
        ensures
            delivered,
    {
        self.push(Emitted::Status(payload.clone()));
        true
    }
}

} // verus!
