//! How a watcher behaves: from its state and what was seen to its next state,
//! what it sends, and what to do next.

use vstd::prelude::*;
use vstd::utf8::*;

use crate::activity::{
    adds_up, no_activity, recorded, recorded_all, Activity, ActivityModel, ActivityPayloadModel,
};
use crate::files::{cannot_read_text, cannot_stat_text, resolves_name, Located};
use crate::ids::{id_parts, not_an_id_text, stamped_break_text, Generation};
use crate::model::{Break, BreakKind, BreakModel, EntryModel, Level};
use crate::parser::{
    closed_by_lines, flushed, fresh, lines_of, pending_entry, with_lines, AccumulatorModel,
    LineModel,
};
use crate::paths::is_logs_dir;
use crate::sink::{batch_events, Event, StatusModel, StatusState};
use crate::watcher::{
    MAX_BACKOFF, MAX_READ_PER_POLL, Mode, POLL_INTERVAL, Page, Probe, StepModel, TargetModel,
};
use crate::window::{first_walk, stamped};

verus! {

/// A watcher, as text and numbers.
#[verifier::ext_equal]
pub struct WatcherModel {
    pub project_id: Seq<char>,
    pub root: Seq<char>,
    pub target: TargetModel,
    pub mode: Mode,
    pub file: Option<Seq<char>>,
    pub offset: nat,
    pub carry: Seq<u8>,
    pub accumulator: Option<AccumulatorModel>,
    pub activity: ActivityModel,
    pub counted_pending: Option<Seq<char>>,
    pub emitted_pending: Option<(Seq<char>, nat)>,
    pub generation: nat,
    pub reported: Option<StatusState>,
    pub announced: Option<(StatusState, Option<Seq<char>>)>,
    pub backoff: nat,
}

/// What every watcher keeps: the held bytes are the last ones before the offset
/// and hold no newline, activity adds up, and a file is followed exactly where
/// there is an accumulator for it.
pub open spec fn is_steady(watcher: WatcherModel) -> bool {
    &&& watcher.carry.len() <= watcher.offset
    &&& !watcher.carry.contains(10)
    &&& adds_up(watcher.activity)
    &&& POLL_INTERVAL <= watcher.backoff <= MAX_BACKOFF
    &&& match watcher.file {
        Some(file) => watcher.accumulator matches Some(accumulator) && accumulator.file == file
            && accumulator.project_id == watcher.project_id,
        None => watcher.accumulator is None && watcher.offset == 0,
    }
}

/// What every watcher keeps between turns: it is steady, and an entry noted as
/// counted is the one that is open, of a project that is not being read.
pub open spec fn is_sound(watcher: WatcherModel) -> bool {
    &&& is_steady(watcher)
    &&& watcher.counted_pending matches Some(id) ==> watcher.mode == Mode::Background && (
    open_entry(watcher) matches Some(entry) && entry.id == id)
}

/// A watcher that has seen nothing yet.
pub open spec fn new_watcher(project_id: Seq<char>, root: Seq<char>, mode: Mode) -> WatcherModel {
    WatcherModel {
        project_id,
        root,
        target: TargetModel::Latest,
        mode,
        file: None,
        offset: 0,
        carry: Seq::empty(),
        accumulator: None,
        activity: no_activity(),
        counted_pending: None,
        emitted_pending: None,
        generation: 0,
        reported: None,
        announced: None,
        backoff: POLL_INTERVAL as nat,
    }
}

/// A watcher in another mode. Activity is spent by selecting.
pub open spec fn in_mode(watcher: WatcherModel, mode: Mode) -> WatcherModel {
    if mode == Mode::Selected {
        WatcherModel {
            mode,
            emitted_pending: None,
            activity: no_activity(),
            counted_pending: None,
            ..watcher
        }
    } else {
        WatcherModel { mode, emitted_pending: None, ..watcher }
    }
}

/// A watcher while `selected` is the project being read.
pub open spec fn promoted(watcher: WatcherModel, selected: Seq<char>) -> WatcherModel {
    let mode = if watcher.project_id == selected {
        Mode::Selected
    } else {
        Mode::Background
    };
    if watcher.mode == mode {
        watcher
    } else {
        in_mode(watcher, mode)
    }
}

/// A watcher that follows no file.
pub open spec fn detached(watcher: WatcherModel) -> WatcherModel {
    WatcherModel {
        file: None,
        offset: 0,
        carry: Seq::empty(),
        accumulator: None,
        counted_pending: None,
        emitted_pending: None,
        ..watcher
    }
}

/// A watcher that follows a file from an offset on.
pub open spec fn attached(watcher: WatcherModel, file: Seq<char>, offset: nat) -> WatcherModel {
    WatcherModel {
        file: Some(file),
        offset,
        carry: Seq::empty(),
        accumulator: Some(fresh(watcher.project_id, file)),
        counted_pending: None,
        emitted_pending: None,
        ..watcher
    }
}

/// How long until the next poll: the period while online, the backoff while
/// not.
pub open spec fn wait_of(watcher: WatcherModel) -> nat {
    if watcher.reported == Some(StatusState::Offline) {
        watcher.backoff
    } else {
        POLL_INTERVAL as nat
    }
}

/// Whether this status is the last one that arrived.
pub open spec fn is_announced(
    watcher: WatcherModel,
    state: StatusState,
    reason: Option<Seq<char>>,
) -> bool {
    watcher.announced == Some((state, reason))
}

/// A watcher that has told a status, given whether it arrived.
pub open spec fn told(
    watcher: WatcherModel,
    state: StatusState,
    reason: Option<Seq<char>>,
    delivered: bool,
) -> WatcherModel {
    if is_announced(watcher, state, reason) || !delivered {
        watcher
    } else {
        WatcherModel { announced: Some((state, reason)), ..watcher }
    }
}

/// What is sent to tell a status: nothing where it is the last one that
/// arrived.
pub open spec fn telling(
    watcher: WatcherModel,
    state: StatusState,
    reason: Option<Seq<char>>,
    delivered: bool,
) -> Seq<Event> {
    if is_announced(watcher, state, reason) {
        Seq::empty()
    } else {
        seq![
            Event::Status(
                StatusModel { project_id: watcher.project_id, state, reason },
                delivered,
            ),
        ]
    }
}

/// A watcher that can read, before it has told so.
pub open spec fn seen_online(watcher: WatcherModel) -> WatcherModel {
    WatcherModel {
        backoff: POLL_INTERVAL as nat,
        reported: Some(StatusState::Online),
        ..watcher
    }
}

/// A watcher that cannot read, before it has told so: it waits twice as long
/// each time, up to the ceiling, and never gives up.
pub open spec fn seen_offline(watcher: WatcherModel) -> WatcherModel {
    WatcherModel {
        backoff: if watcher.reported == Some(StatusState::Offline) {
            if watcher.backoff * 2 <= MAX_BACKOFF {
                watcher.backoff * 2
            } else {
                MAX_BACKOFF as nat
            }
        } else {
            POLL_INTERVAL as nat
        },
        reported: Some(StatusState::Offline),
        ..watcher
    }
}

/// A watcher that can read.
pub open spec fn online(watcher: WatcherModel, delivered: bool) -> WatcherModel {
    told(seen_online(watcher), StatusState::Online, None, delivered)
}

/// What a watcher that can read sends.
pub open spec fn online_events(watcher: WatcherModel, delivered: bool) -> Seq<Event> {
    telling(watcher, StatusState::Online, None, delivered)
}

/// A watcher that cannot read.
pub open spec fn offline(
    watcher: WatcherModel,
    reason: Seq<char>,
    delivered: bool,
) -> WatcherModel {
    told(seen_offline(watcher), StatusState::Offline, Some(reason), delivered)
}

/// What a watcher that cannot read sends.
pub open spec fn offline_events(
    watcher: WatcherModel,
    reason: Seq<char>,
    delivered: bool,
) -> Seq<Event> {
    telling(watcher, StatusState::Offline, Some(reason), delivered)
}

/// The entry a watcher still has open.
pub open spec fn open_entry(watcher: WatcherModel) -> Option<EntryModel> {
    match watcher.accumulator {
        Some(accumulator) => pending_entry(accumulator),
        None => None,
    }
}

/// How an entry is recognized that was sent while it was open: by its id and
/// its length.
pub open spec fn signature(entry: EntryModel) -> (Seq<char>, nat) {
    (entry.id, encode_utf8(entry.raw).len())
}

/// The signature of an entry that may be there.
pub open spec fn signature_of(entry: Option<EntryModel>) -> Option<(Seq<char>, nat)> {
    match entry {
        Some(entry) => Some(signature(entry)),
        None => None,
    }
}

/// An entry as it is sent in a generation. Before the first break it already
/// has its id.
pub open spec fn sent_as(entry: EntryModel, generation: nat) -> EntryModel {
    if generation == 0 {
        entry
    } else {
        stamped(entry, generation)
    }
}

/// What is sent of a watcher's activity.
pub open spec fn activity_event(watcher: WatcherModel) -> Event {
    Event::Activity(
        ActivityPayloadModel { project_id: watcher.project_id, activity: watcher.activity },
    )
}

/// A watcher that has closed the entry it had open, before it leaves a file.
pub open spec fn closed(watcher: WatcherModel) -> WatcherModel {
    match open_entry(watcher) {
        Some(entry) => WatcherModel {
            accumulator: Some(flushed(watcher.accumulator.unwrap())),
            activity: if watcher.mode == Mode::Background && watcher.counted_pending != Some(
                entry.id,
            ) {
                recorded(watcher.activity, entry.level)
            } else {
                watcher.activity
            },
            counted_pending: None,
            emitted_pending: None,
            ..watcher
        },
        None => watcher,
    }
}

/// What closing the open entry sends: its final form where that was not sent
/// yet, or the activity where it was not counted yet.
pub open spec fn closing_events(watcher: WatcherModel) -> Seq<Event> {
    match open_entry(watcher) {
        Some(entry) => match watcher.mode {
            Mode::Selected => if watcher.emitted_pending != Some(signature(entry)) {
                seq![Event::Entry(sent_as(entry, watcher.generation))]
            } else {
                Seq::empty()
            },
            Mode::Background => if watcher.counted_pending != Some(entry.id) {
                seq![activity_event(closed(watcher))]
            } else {
                Seq::empty()
            },
        },
        None => Seq::empty(),
    }
}

/// What a break sends. Breaks belong to the record of the project being read:
/// one that is not has no record to interrupt.
pub open spec fn break_events(
    watcher: WatcherModel,
    kind: BreakKind,
    file: Seq<char>,
    offset: nat,
) -> Seq<Event> {
    if watcher.mode == Mode::Selected {
        seq![
            Event::Break(
                BreakModel {
                    id: stamped_break_text(file, offset, watcher.generation),
                    project_id: watcher.project_id,
                    kind,
                    file,
                },
            ),
        ]
    } else {
        Seq::empty()
    }
}

/// A watcher after a break: what it reads next is of another generation.
pub open spec fn next_generation(watcher: WatcherModel) -> WatcherModel {
    WatcherModel { generation: watcher.generation + 1, ..watcher }
}

/// A watcher that was told to follow this file, if it did not already. Held
/// bytes of the file it leaves can never be completed and are dropped.
pub open spec fn following(watcher: WatcherModel, name: Seq<char>) -> WatcherModel {
    if watcher.file == Some(name) {
        watcher
    } else if watcher.file is None {
        attached(closed(watcher), name, watcher.offset)
    } else {
        next_generation(attached(closed(watcher), name, 0))
    }
}

/// What following a file sends: where it replaces another, the last of that
/// other and a break.
pub open spec fn following_events(watcher: WatcherModel, name: Seq<char>) -> Seq<Event> {
    if watcher.file == Some(name) {
        Seq::empty()
    } else if watcher.file is None {
        closing_events(watcher)
    } else {
        closing_events(watcher) + break_events(
            following(watcher, name),
            BreakKind::Rotated,
            name,
            0,
        )
    }
}

/// What a turn comes to: the watcher after it, what was sent, and what to do
/// next.
pub struct Turn {
    pub watcher: WatcherModel,
    pub events: Seq<Event>,
    pub step: StepModel,
}

/// Whether finding this file is reason enough to go online: it is the first one,
/// or another than the one that is followed.
///
/// To find the file that is followed already is not yet to read it: whether it
/// can be read is seen by the steps that come next.
pub open spec fn is_another(watcher: WatcherModel, name: Seq<char>) -> bool {
    watcher.file != Some(name)
}

/// A watcher that can read, unless that was seen in this poll already.
pub open spec fn online_once(watcher: WatcherModel, told: bool, delivered: bool) -> WatcherModel {
    if told {
        watcher
    } else {
        online(watcher, delivered)
    }
}

/// What a watcher that can read sends, unless that was sent in this poll already.
pub open spec fn online_once_events(
    watcher: WatcherModel,
    told: bool,
    delivered: bool,
) -> Seq<Event> {
    if told {
        Seq::empty()
    } else {
        online_events(watcher, delivered)
    }
}

/// One tick, given where the target was found.
pub open spec fn polled(
    watcher: WatcherModel,
    found: Result<Option<Located>, String>,
    delivered: bool,
) -> Turn {
    match found {
        Ok(Some(located)) => {
            let told = is_another(watcher, located.name@);
            let seen = online_once(watcher, !told, delivered);
            Turn {
                watcher: following(seen, located.name@),
                events: online_once_events(watcher, !told, delivered) + following_events(
                    seen,
                    located.name@,
                ),
                step: if watcher.file is None {
                    StepModel::Attach { path: located.path@ }
                } else {
                    StepModel::Measure { path: located.path@, told }
                },
            }
        },
        Ok(None) => Turn {
            watcher: online(watcher, delivered),
            events: online_events(watcher, delivered),
            step: StepModel::Idle,
        },
        Err(reason) => Turn {
            watcher: offline(watcher, reason@, delivered),
            events: offline_events(watcher, reason@, delivered),
            step: StepModel::Idle,
        },
    }
}

/// A watcher whose file was emptied: everything before stays as it is, and what
/// follows is of another generation.
pub open spec fn cleared(watcher: WatcherModel) -> WatcherModel {
    next_generation(attached(watcher, watcher.file.unwrap(), 0))
}

/// How many bytes to read of a file of this length.
pub open spec fn wanted(watcher: WatcherModel, length: nat) -> nat {
    if length - watcher.offset <= MAX_READ_PER_POLL {
        (length - watcher.offset) as nat
    } else {
        MAX_READ_PER_POLL as nat
    }
}

/// What to do once a file was measured.
pub open spec fn measured_step(
    watcher: WatcherModel,
    path: Seq<char>,
    told: bool,
    length: nat,
) -> StepModel {
    if length == watcher.offset {
        StepModel::Idle
    } else {
        StepModel::Read {
            path,
            told,
            start: watcher.offset,
            end: watcher.offset + wanted(watcher, length),
        }
    }
}

/// A file that was measured: a shorter one was emptied, and what is new is
/// read. Where it did not grow there is nothing more to see, and the watcher can
/// read.
///
/// `told` is whether this poll has gone online already.
pub open spec fn sized(
    watcher: WatcherModel,
    path: Seq<char>,
    told: bool,
    length: Result<u64, String>,
    delivered: bool,
) -> Turn {
    match length {
        Err(err) => Turn {
            watcher: offline(watcher, cannot_stat_text(path, err@), delivered),
            events: offline_events(watcher, cannot_stat_text(path, err@), delivered),
            step: StepModel::Idle,
        },
        Ok(length) => if length > watcher.offset {
            Turn {
                watcher,
                events: Seq::empty(),
                step: measured_step(watcher, path, told, length as nat),
            }
        } else {
            let seen = online_once(watcher, told, delivered);
            if length < watcher.offset {
                Turn {
                    watcher: cleared(seen),
                    events: online_once_events(watcher, told, delivered) + break_events(
                        next_generation(seen),
                        BreakKind::Cleared,
                        watcher.file.unwrap(),
                        watcher.offset,
                    ),
                    step: measured_step(cleared(seen), path, true, length as nat),
                }
            } else {
                Turn {
                    watcher: seen,
                    events: online_once_events(watcher, told, delivered),
                    step: StepModel::Idle,
                }
            }
        },
    }
}

/// How many bytes there are up to and with the last newline.
pub open spec fn whole_lines(bytes: Seq<u8>) -> nat
    decreases bytes.len(),
{
    if bytes.len() == 0 {
        0
    } else if bytes.last() == 10 {
        bytes.len()
    } else {
        whole_lines(bytes.drop_last())
    }
}

/// The lines that these bytes complete.
pub open spec fn new_lines(watcher: WatcherModel, bytes: Seq<u8>) -> Seq<LineModel> {
    lines_of((watcher.offset - watcher.carry.len()) as nat, watcher.carry + bytes)
}

/// The entries that these bytes close.
pub open spec fn newly_closed(watcher: WatcherModel, bytes: Seq<u8>) -> Seq<EntryModel> {
    closed_by_lines(watcher.accumulator.unwrap(), new_lines(watcher, bytes))
}

/// A watcher that has parsed these bytes, before it has done anything with the
/// result.
pub open spec fn parsed_on(watcher: WatcherModel, bytes: Seq<u8>) -> WatcherModel {
    WatcherModel {
        offset: watcher.offset + bytes.len(),
        carry: Seq::empty(),
        accumulator: Some(
            with_lines(watcher.accumulator.unwrap(), new_lines(watcher, bytes)),
        ),
        ..watcher
    }
}

/// The levels of these entries.
pub open spec fn levels_of(entries: Seq<EntryModel>) -> Seq<Level> {
    entries.map_values(|entry: EntryModel| entry.level)
}

/// Of the entries that were closed, those that were not counted while they were
/// open.
pub open spec fn uncounted(
    counted: Option<Seq<char>>,
    closed: Seq<EntryModel>,
) -> Seq<EntryModel> {
    if closed.len() > 0 && counted == Some(closed[0].id) {
        closed.drop_first()
    } else {
        closed
    }
}

/// The open entry that is known to be counted once these were closed.
pub open spec fn still_counted(
    counted: Option<Seq<char>>,
    closed: Seq<EntryModel>,
) -> Option<Seq<char>> {
    if closed.len() > 0 {
        None
    } else {
        counted
    }
}

/// The levels to count: those of the entries that were closed and of the one
/// still open, each once.
pub open spec fn levels_to_count(
    counted: Option<Seq<char>>,
    closed: Seq<EntryModel>,
    open: Option<EntryModel>,
) -> Seq<Level> {
    levels_of(uncounted(counted, closed)) + match open {
        Some(entry) => if still_counted(counted, closed) != Some(entry.id) {
            seq![entry.level]
        } else {
            Seq::empty()
        },
        None => Seq::empty(),
    }
}

/// A watcher that has counted the entries that were closed and the one it has
/// open.
pub open spec fn counting(watcher: WatcherModel, closed: Seq<EntryModel>) -> WatcherModel {
    let open = open_entry(watcher);
    WatcherModel {
        activity: recorded_all(
            watcher.activity,
            levels_to_count(watcher.counted_pending, closed, open),
        ),
        counted_pending: match open {
            Some(entry) => Some(entry.id),
            None => still_counted(watcher.counted_pending, closed),
        },
        ..watcher
    }
}

/// What counting sends: the activity, where it changed.
pub open spec fn counting_events(watcher: WatcherModel, closed: Seq<EntryModel>) -> Seq<Event> {
    if levels_to_count(watcher.counted_pending, closed, open_entry(watcher)).len() > 0 {
        seq![activity_event(counting(watcher, closed))]
    } else {
        Seq::empty()
    }
}

/// A watcher that has sent its open entry.
pub open spec fn shown_open(watcher: WatcherModel) -> WatcherModel {
    WatcherModel { emitted_pending: signature_of(open_entry(watcher)), ..watcher }
}

/// What sending the open entry sends: nothing where it was already sent as it
/// is.
pub open spec fn open_events(watcher: WatcherModel) -> Seq<Event> {
    match open_entry(watcher) {
        Some(entry) => if watcher.emitted_pending != Some(signature(entry)) {
            seq![Event::Entry(sent_as(entry, watcher.generation))]
        } else {
            Seq::empty()
        },
        None => Seq::empty(),
    }
}

/// These entries under the ids of a generation.
pub open spec fn all_stamped(entries: Seq<EntryModel>, generation: nat) -> Seq<EntryModel> {
    entries.map_values(|entry: EntryModel| stamped(entry, generation))
}

/// A watcher that has taken in whole lines.
pub open spec fn ingested(watcher: WatcherModel, bytes: Seq<u8>) -> WatcherModel {
    match watcher.mode {
        Mode::Selected => shown_open(parsed_on(watcher, bytes)),
        Mode::Background => counting(parsed_on(watcher, bytes), newly_closed(watcher, bytes)),
    }
}

/// What taking in whole lines sends: the entries that were closed and then the
/// open one, or the activity.
pub open spec fn ingesting_events(watcher: WatcherModel, bytes: Seq<u8>) -> Seq<Event> {
    match watcher.mode {
        Mode::Selected => batch_events(
            all_stamped(newly_closed(watcher, bytes), watcher.generation),
        ) + open_events(parsed_on(watcher, bytes)),
        Mode::Background => counting_events(
            parsed_on(watcher, bytes),
            newly_closed(watcher, bytes),
        ),
    }
}

/// A watcher that holds on to bytes of a line that is not whole yet.
pub open spec fn holding(watcher: WatcherModel, bytes: Seq<u8>) -> WatcherModel {
    WatcherModel {
        offset: watcher.offset + bytes.len(),
        carry: watcher.carry + bytes,
        ..watcher
    }
}

/// Bytes that were read, so that the file can be: whole lines are taken in. What
/// follows the last newline is read again by the next poll, unless a whole read
/// held no newline: then its bytes are held.
pub open spec fn taken(
    watcher: WatcherModel,
    path: Seq<char>,
    told: bool,
    want: nat,
    bytes: Result<Vec<u8>, String>,
    delivered: bool,
) -> Turn {
    match bytes {
        Err(err) => Turn {
            watcher: offline(watcher, cannot_read_text(path, err@), delivered),
            events: offline_events(watcher, cannot_read_text(path, err@), delivered),
            step: StepModel::Idle,
        },
        Ok(bytes) => {
            let seen = online_once(watcher, told, delivered);
            if whole_lines(bytes@) > 0 {
                let lines = bytes@.take(whole_lines(bytes@) as int);
                Turn {
                    watcher: ingested(seen, lines),
                    events: online_once_events(watcher, told, delivered) + ingesting_events(
                        seen,
                        lines,
                    ),
                    step: StepModel::Idle,
                }
            } else {
                Turn {
                    watcher: if want == MAX_READ_PER_POLL {
                        holding(seen, bytes@)
                    } else {
                        seen
                    },
                    events: online_once_events(watcher, told, delivered),
                    step: StepModel::Idle,
                }
            }
        },
    }
}

/// Whether this is what a name supplied from outside becomes in the logs
/// directory of a root.
pub open spec fn resolves_log(
    root: Seq<char>,
    name: Seq<char>,
    found: Result<String, String>,
) -> bool {
    exists|dir: Seq<char>| is_logs_dir(root, dir) && #[trigger] resolves_name(dir, name, found)
}

/// Whether this is where to look for a file that was picked below a root.
pub open spec fn looks_below(root: Seq<char>, name: Seq<char>, probe: Probe) -> bool {
    exists|found: Result<String, String>|
        #[trigger] resolves_log(root, name, found) && looks_at(name, found, probe)
}

/// Whether this is where to look for a target below a root that was checked.
pub open spec fn looks_for(
    target: TargetModel,
    root: Result<String, String>,
    probe: Probe,
) -> bool {
    match root {
        Err(refused) => probe matches Probe::Refused(reason) && reason@ == refused@,
        Ok(root) => match target {
            TargetModel::Latest => probe matches Probe::Newest { dir } && is_logs_dir(root@, dir@),
            TargetModel::File(name) => looks_below(root@, name, probe),
        },
    }
}

/// Whether this is where to look for a file that was picked, given what its name
/// became.
pub open spec fn looks_at(name: Seq<char>, found: Result<String, String>, probe: Probe) -> bool {
    match found {
        Ok(found) => probe matches Probe::Named { name: probed, path } && probed@ == name && path@
            == found@,
        Err(refused) => probe matches Probe::Refused(reason) && reason@ == refused@,
    }
}

/// What is said of a file that is not there.
pub open spec fn not_readable_text(path: Seq<char>) -> Seq<char> {
    path + " is not readable"@
}

/// Whether this is the page that ends at `before` in a file, given what its name
/// became.
pub open spec fn opens_page(
    name: Seq<char>,
    generation: Generation,
    before: u64,
    found: Result<String, String>,
    page: Result<Option<Page>, String>,
) -> bool {
    match found {
        Ok(found) => {
            &&& page matches Ok(Some(page))
            &&& page.name@ == name
            &&& page.path@ == found@
            &&& page.generation == generation
            &&& page.walk@ == first_walk(before as nat)
        },
        Err(refused) => page matches Err(reason) && reason@ == refused@,
    }
}

/// Whether this is the page that ends at `before` in a file below a root.
pub open spec fn opens_page_below(
    root: Seq<char>,
    name: Seq<char>,
    generation: Generation,
    before: u64,
    page: Result<Option<Page>, String>,
) -> bool {
    exists|found: Result<String, String>|
        #[trigger] resolves_log(root, name, found) && opens_page(
            name,
            generation,
            before,
            found,
            page,
        )
}

/// Whether paging back from this id below a root that was checked gives this.
///
/// The page is of the file *that entry came from*, in its generation: after a
/// break the oldest entry held belongs to the previous file.
pub open spec fn pages_back(
    id: Seq<char>,
    root: Result<String, String>,
    page: Result<Option<Page>, String>,
) -> bool {
    match id_parts(id) {
        None => page matches Err(reason) && reason@ == not_an_id_text(id),
        Some((name, generation, before)) => if before == 0 {
            page matches Ok(None)
        } else {
            match root {
                Err(refused) => page matches Err(reason) && reason@ == refused@,
                Ok(root) => opens_page_below(root@, name, generation, before, page),
            }
        },
    }
}

/// Bytes without a newline hold no whole line.
pub proof fn lemma_whole_lines(bytes: Seq<u8>)
    ensures
        whole_lines(bytes) <= bytes.len(),
        whole_lines(bytes) > 0 ==> bytes[whole_lines(bytes) - 1] == 10,
        forall|i: int| whole_lines(bytes) <= i < bytes.len() ==> bytes[i] != 10,
    decreases bytes.len(),
{
    if bytes.len() > 0 && bytes.last() != 10 {
        lemma_whole_lines(bytes.drop_last());
        assert forall|i: int| whole_lines(bytes) <= i < bytes.len() implies bytes[i] != 10 by {
            if i < bytes.len() - 1 {
                assert(bytes.drop_last()[i] != 10);
            }
        }
    }
}

/// The accumulator stays that of its file, whatever is fed.
pub proof fn lemma_same_file(acc: AccumulatorModel, lines: Seq<LineModel>)
    ensures
        with_lines(acc, lines).file == acc.file,
        with_lines(acc, lines).project_id == acc.project_id,
    decreases lines.len(),
{
    if lines.len() > 0 {
        lemma_same_file(acc, lines.drop_last());
    }
}

/// The bytes of a text.
pub open spec fn bytes_of(text: Seq<char>) -> nat {
    encode_utf8(text).len()
}

/// The bytes of entry text that a watcher holds on to.
pub open spec fn retained_text(watcher: WatcherModel) -> nat {
    match open_entry(watcher) {
        Some(entry) => bytes_of(entry.raw) + bytes_of(entry.context) + bytes_of(entry.message),
        None => 0,
    }
}

/// The bytes that a watcher holds on to between polls.
pub open spec fn retained_state(watcher: WatcherModel) -> nat {
    retained_text(watcher) + watcher.carry.len() + match watcher.file {
        Some(file) => bytes_of(file),
        None => 0,
    } + match watcher.counted_pending {
        Some(id) => bytes_of(id),
        None => 0,
    } + match watcher.emitted_pending {
        Some((id, _)) => bytes_of(id),
        None => 0,
    } + watcher.activity.counts.len() * 16
}

/// An entry that is open stays the first that is closed or open.
pub proof fn lemma_open_entry_comes_first(acc: AccumulatorModel, lines: Seq<LineModel>)
    requires
        acc.pending is Some,
    ensures
        with_lines(acc, lines).pending is Some,
        ({
            let before = acc.pending.unwrap().entry;
            let first = if closed_by_lines(acc, lines).len() > 0 {
                closed_by_lines(acc, lines)[0]
            } else {
                with_lines(acc, lines).pending.unwrap().entry
            };
            first.id == before.id && first.level == before.level
        }),
    decreases lines.len(),
{
    if lines.len() > 0 {
        lemma_open_entry_comes_first(acc, lines.drop_last());
    }
}

} // verus!
