//! What holds of every watcher, whatever it sees.

use vstd::prelude::*;
use vstd::utf8::*;

use crate::activity::{
    adds_up, count_of, has_not_fallen, no_activity, recorded, recorded_all,
    recording_a_list_adds_up, recording_adds_up, recording_lists_adds_up, recording_loses_nothing,
    ActivityPayloadModel,
};
use crate::files::{
    a_plain_log_name_is_accepted, cannot_read_text, cannot_stat_text, names_a_log, resolves_name,
    Located,
};
use crate::header::{a_found_header_is_in_the_line, header_of, reads_as};
use crate::ids::{
    an_id_decodes_to_what_was_stamped, ids_tell_entries_apart, stamped_entry_text, token_text,
    Generation,
};
use crate::model::{
    break_id_text, entry_id_text, BreakKind, BreakModel, EntryModel, ItemModel, Level,
};
use crate::parser::{
    closed_by_lines, decoded, fresh, lemma_line_end_is, line_size, lines_of, listed, parsed,
    with_lines, without_return, AccumulatorModel, LineModel,
};
use crate::parser_laws::{
    entries_are_no_more_than_bytes, entries_stand_in_order, every_entry_is_whole,
    feeding_in_chunks_changes_nothing, is_whole, lemma_lines_in_order, lemma_pending_is_whole,
    reading_resumes_at_the_last_entry, starts_with,
};
use crate::paths::{is_logs_dir, is_plain_name, logs_are_in_storage};
use crate::sink::{batch_events, Event, StatusModel, StatusState};
use crate::text::{decimal, lemma_decimal};
use crate::watcher::{
    MAX_BACKOFF, MAX_READ_PER_POLL, Mode, POLL_INTERVAL, Page, Probe, StepModel, TargetModel,
};
use crate::watcher_model::{
    activity_event, all_stamped, attached, bytes_of, closed, closing_events, detached, holding,
    in_mode, ingested, ingesting_events, is_announced, is_sound, lemma_open_entry_comes_first,
    lemma_same_file, lemma_whole_lines, levels_of, levels_to_count, looks_for, new_lines,
    newly_closed, offline, offline_events, online, online_events, online_once, open_entry,
    open_events, opens_page, pages_back, parsed_on, polled, promoted, resolves_log, retained_state,
    retained_text, sent_as, sized, taken, telling, told, wait_of, whole_lines, WatcherModel,
};
use crate::window::{shown, stamped, walk_start, window_onto, WalkModel};

verus! {

/// Whether an event carries something to read: an entry or a break.
pub open spec fn carries_text(event: Event) -> bool {
    event is Entry || event is Entries || event is Break
}

/// Whether none of these events carries something to read.
pub open spec fn carry_no_text(events: Seq<Event>) -> bool {
    forall|i: int| 0 <= i < events.len() ==> !carries_text(#[trigger] events[i])
}

/// Whether none of these events is about activity.
pub open spec fn carry_no_activity(events: Seq<Event>) -> bool {
    forall|i: int| 0 <= i < events.len() ==> !(#[trigger] events[i] is Activity)
}

/// A watcher of a project that is not being read sends neither entries nor
/// breaks; one of the project being read sends no activity.
pub proof fn a_poll_sends_what_its_mode_sends(
    watcher: WatcherModel,
    found: Result<Option<Located>, String>,
    delivered: bool,
)
    ensures
        watcher.mode == Mode::Background ==> carry_no_text(
            polled(watcher, found, delivered).events,
        ),
        watcher.mode == Mode::Selected ==> carry_no_activity(
            polled(watcher, found, delivered).events,
        ),
        polled(watcher, found, delivered).watcher.mode == watcher.mode,
{
}

/// A measured file is treated the same way in this respect as a poll.
pub proof fn measuring_sends_what_its_mode_sends(
    watcher: WatcherModel,
    path: Seq<char>,
    told: bool,
    length: Result<u64, String>,
    delivered: bool,
)
    ensures
        watcher.mode == Mode::Background ==> carry_no_text(
            sized(watcher, path, told, length, delivered).events,
        ),
        watcher.mode == Mode::Selected ==> carry_no_activity(
            sized(watcher, path, told, length, delivered).events,
        ),
        sized(watcher, path, told, length, delivered).watcher.mode == watcher.mode,
{
}

/// Bytes that were read are treated the same way in this respect as a poll.
pub proof fn reading_sends_what_its_mode_sends(
    watcher: WatcherModel,
    path: Seq<char>,
    told: bool,
    want: nat,
    bytes: Result<Vec<u8>, String>,
    delivered: bool,
)
    ensures
        watcher.mode == Mode::Background ==> carry_no_text(
            taken(watcher, path, told, want, bytes, delivered).events,
        ),
        watcher.mode == Mode::Selected ==> carry_no_activity(
            taken(watcher, path, told, want, bytes, delivered).events,
        ),
        taken(watcher, path, told, want, bytes, delivered).watcher.mode == watcher.mode,
{
}

/// Whether a status can only be the first of these events.
pub open spec fn status_comes_first(events: Seq<Event>) -> bool {
    forall|i: int| 0 < i < events.len() ==> !(#[trigger] events[i] is Status)
}

/// What a poll tells of a project's status comes before everything else it
/// sends: each step sends it first, a step that leaves it to the next one sends
/// nothing, and where it was told already a step that can read does not tell it
/// again.
pub proof fn a_status_comes_before_everything_else(
    watcher: WatcherModel,
    found: Result<Option<Located>, String>,
    path: Seq<char>,
    told: bool,
    length: Result<u64, String>,
    want: nat,
    bytes: Result<Vec<u8>, String>,
    delivered: bool,
)
    ensures
        status_comes_first(polled(watcher, found, delivered).events),
        status_comes_first(sized(watcher, path, told, length, delivered).events),
        status_comes_first(taken(watcher, path, told, want, bytes, delivered).events),
        polled(watcher, found, delivered).step matches StepModel::Measure { told: false, .. }
            ==> polled(watcher, found, delivered).events.len() == 0,
        sized(watcher, path, false, length, delivered).step matches StepModel::Read {
            told: false,
            ..
        } ==> sized(watcher, path, false, length, delivered).events.len() == 0,
        length is Ok ==> carry_no_status(sized(watcher, path, true, length, delivered).events),
        bytes is Ok ==> carry_no_status(
            taken(watcher, path, true, want, bytes, delivered).events,
        ),
{
}

/// Whether none of these events is about a status.
pub open spec fn carry_no_status(events: Seq<Event>) -> bool {
    forall|i: int| 0 <= i < events.len() ==> !(#[trigger] events[i] is Status)
}

/// A status is told only where it differs from the last one that arrived, and
/// one that did not arrive is told again.
pub proof fn a_status_is_told_until_it_arrives(
    watcher: WatcherModel,
    state: StatusState,
    reason: Option<Seq<char>>,
    delivered: bool,
)
    ensures
        telling(told(watcher, state, reason, true), state, reason, delivered).len() == 0,
        telling(told(watcher, state, reason, false), state, reason, delivered) == telling(
            watcher,
            state,
            reason,
            delivered,
        ),
        telling(watcher, state, reason, delivered).len() > 0 <==> watcher.announced != Some(
            (state, reason),
        ),
{
}

/// A watcher that has told a status several times, given each time whether it
/// arrived.
pub open spec fn told_often(
    watcher: WatcherModel,
    state: StatusState,
    reason: Option<Seq<char>>,
    delivered: Seq<bool>,
) -> WatcherModel
    decreases delivered.len(),
{
    if delivered.len() == 0 {
        watcher
    } else {
        told(
            told_often(watcher, state, reason, delivered.drop_last()),
            state,
            reason,
            delivered.last(),
        )
    }
}

/// However often a status is told, it is sent each time until it has arrived
/// once, and not again after that.
pub proof fn a_status_is_sent_until_it_has_arrived_once(
    watcher: WatcherModel,
    state: StatusState,
    reason: Option<Seq<char>>,
    delivered: Seq<bool>,
    next: bool,
)
    ensures
        ({
            let sent = telling(told_often(watcher, state, reason, delivered), state, reason, next);
            if is_announced(watcher, state, reason) || delivered.contains(true) {
                sent.len() == 0
            } else {
                sent == telling(watcher, state, reason, next) && sent.len() == 1
            }
        }),
        told_often(watcher, state, reason, delivered).project_id == watcher.project_id,
    decreases delivered.len(),
{
    if delivered.len() > 0 {
        let front = delivered.drop_last();
        a_status_is_sent_until_it_has_arrived_once(watcher, state, reason, front, next);
        if front.contains(true) {
            let i = choose|i: int| 0 <= i < front.len() && front[i] == true;
            assert(delivered[i] == true);
        }
        if delivered.contains(true) && !front.contains(true) {
            let i = choose|i: int| 0 <= i < delivered.len() && delivered[i] == true;
            if i < front.len() {
                assert(front[i] == true);
            }
            assert(delivered.last());
        }
        if delivered.last() {
            assert(delivered[delivered.len() - 1] == true);
        }
    }
}

/// While a project cannot be read its watcher waits the period first, then
/// twice as long each time up to the ceiling; once it can be read again, the
/// period.
pub proof fn waiting_doubles_up_to_the_ceiling(
    watcher: WatcherModel,
    reason: Seq<char>,
    delivered: bool,
)
    requires
        is_sound(watcher),
    ensures
        POLL_INTERVAL <= wait_of(watcher) <= MAX_BACKOFF,
        wait_of(online(watcher, delivered)) == POLL_INTERVAL,
        watcher.reported != Some(StatusState::Offline) ==> wait_of(
            offline(watcher, reason, delivered),
        ) == POLL_INTERVAL,
        watcher.reported == Some(StatusState::Offline) ==> wait_of(
            offline(watcher, reason, delivered),
        ) == if 2 * wait_of(watcher) <= MAX_BACKOFF {
            2 * wait_of(watcher)
        } else {
            MAX_BACKOFF as nat
        },
{
}

/// Whether a poll finds another file than the one that is followed.
pub open spec fn is_rotated(watcher: WatcherModel, found: Result<Option<Located>, String>) -> bool {
    found matches Ok(Some(located)) && watcher.file is Some && watcher.file != Some(located.name@)
}

/// The generation moves by one exactly where a file is replaced or emptied, and
/// nowhere else.
pub proof fn the_generation_moves_at_a_break(
    watcher: WatcherModel,
    found: Result<Option<Located>, String>,
    path: Seq<char>,
    told: bool,
    length: Result<u64, String>,
    want: nat,
    bytes: Result<Vec<u8>, String>,
    delivered: bool,
)
    ensures
        polled(watcher, found, delivered).watcher.generation == watcher.generation + if is_rotated(
            watcher,
            found,
        ) {
            1int
        } else {
            0
        },
        sized(watcher, path, told, length, delivered).watcher.generation == watcher.generation + if (
        length matches Ok(length) && length < watcher.offset) {
            1int
        } else {
            0
        },
        taken(watcher, path, told, want, bytes, delivered).watcher.generation == watcher.generation,
{
}

/// A watcher of the project being read sends a break exactly where the
/// generation moves, as the last thing it sends then.
pub proof fn a_break_is_sent_where_the_generation_moves(
    watcher: WatcherModel,
    found: Result<Option<Located>, String>,
    path: Seq<char>,
    told: bool,
    length: Result<u64, String>,
    delivered: bool,
)
    requires
        watcher.mode == Mode::Selected,
    ensures
        ({
            let turn = polled(watcher, found, delivered);
            turn.watcher.generation != watcher.generation <==> turn.events.len() > 0
                && turn.events.last() is Break
        }),
        ({
            let turn = sized(watcher, path, told, length, delivered);
            turn.watcher.generation != watcher.generation <==> turn.events.len() > 0
                && turn.events.last() is Break
        }),
{
    let turn = polled(watcher, found, delivered);
    if let Ok(Some(located)) = found {
        let told = online(watcher, delivered);
        if told.file is Some && told.file != Some(located.name@) {
            assert(turn.events.last() is Break);
        } else if told.file is None {
            assert(turn.watcher.generation == watcher.generation);
        } else {
            assert(turn.watcher == watcher);
            assert(turn.events.len() == 0);
        }
    }
}

/// An entry sent after a break never has the id of one sent before it.
pub proof fn ids_are_not_reused_after_a_break(
    file: Seq<char>,
    offset: u64,
    generation: Generation,
    later_file: Seq<char>,
    later_offset: u64,
    later_generation: Generation,
)
    requires
        names_a_log(file),
        names_a_log(later_file),
        generation < later_generation,
    ensures
        stamped_entry_text(file, offset as nat, generation as nat) != stamped_entry_text(
            later_file,
            later_offset as nat,
            later_generation as nat,
        ),
{
    if stamped_entry_text(file, offset as nat, generation as nat) == stamped_entry_text(
        later_file,
        later_offset as nat,
        later_generation as nat,
    ) {
        ids_tell_entries_apart(
            file,
            offset,
            generation,
            later_file,
            later_offset,
            later_generation,
        );
    }
}

/// Whether a watcher is online and has told so.
pub open spec fn is_known_online(watcher: WatcherModel) -> bool {
    &&& watcher.reported == Some(StatusState::Online)
    &&& watcher.backoff == POLL_INTERVAL
    &&& is_announced(watcher, StatusState::Online, None)
}

/// Where nothing was written to the file that is followed, a whole poll sends
/// nothing and changes nothing, once the watcher is known to be online.
pub proof fn an_idle_file_sends_nothing(
    watcher: WatcherModel,
    located: Located,
    length: u64,
    delivered: bool,
)
    requires
        is_known_online(watcher),
        watcher.file == Some(located.name@),
        length == watcher.offset,
    ensures
        ({
            let found = polled(watcher, Ok(Some(located)), delivered);
            let turn = sized(found.watcher, located.path@, false, Ok(length), delivered);
            &&& found.watcher == watcher
            &&& found.events.len() == 0
            &&& found.step == (StepModel::Measure { path: located.path@, told: false })
            &&& turn.watcher == watcher
            &&& turn.events.len() == 0
            &&& turn.step is Idle
        }),
{
}

/// A poll that finds the file that is followed and then cannot read it comes to
/// going offline for that reason, and to nothing else: the place in the file is
/// kept, and nothing of being online is seen or told in between.
pub proof fn a_failed_read_goes_offline(
    watcher: WatcherModel,
    located: Located,
    length: u64,
    want: nat,
    err: String,
    delivered: bool,
)
    requires
        watcher.file == Some(located.name@),
        length > watcher.offset,
    ensures
        ({
            let reason = cannot_read_text(located.path@, err@);
            let found = polled(watcher, Ok(Some(located)), delivered);
            let measured = sized(found.watcher, located.path@, false, Ok(length), delivered);
            let turn = taken(measured.watcher, located.path@, false, want, Err(err), delivered);
            &&& found.events.len() == 0
            &&& found.step == (StepModel::Measure { path: located.path@, told: false })
            &&& measured.events.len() == 0
            &&& measured.step is Read
            &&& turn.watcher == offline(watcher, reason, delivered)
            &&& turn.events == offline_events(watcher, reason, delivered)
            &&& turn.watcher.file == watcher.file
            &&& turn.watcher.offset == watcher.offset
        }),
{
}

/// So does one that cannot measure it.
pub proof fn a_failed_measure_goes_offline(
    watcher: WatcherModel,
    located: Located,
    err: String,
    delivered: bool,
)
    requires
        watcher.file == Some(located.name@),
    ensures
        ({
            let reason = cannot_stat_text(located.path@, err@);
            let found = polled(watcher, Ok(Some(located)), delivered);
            let turn = sized(found.watcher, located.path@, false, Err(err), delivered);
            &&& found.events.len() == 0
            &&& turn.watcher == offline(watcher, reason, delivered)
            &&& turn.events == offline_events(watcher, reason, delivered)
            &&& turn.watcher.file == watcher.file
            &&& turn.watcher.offset == watcher.offset
        }),
{
}

/// A watcher after this many polls that fail for the same reason, each status
/// having arrived.
pub open spec fn after_failures(
    watcher: WatcherModel,
    reason: Seq<char>,
    count: nat,
) -> WatcherModel
    decreases count,
{
    if count == 0 {
        watcher
    } else {
        offline(after_failures(watcher, reason, (count - 1) as nat), reason, true)
    }
}

/// The wait after this many failures: the period, doubled each time up to the
/// ceiling.
pub open spec fn wait_after(count: nat) -> nat
    decreases count,
{
    if count <= 1 {
        POLL_INTERVAL as nat
    } else if 2 * wait_after((count - 1) as nat) <= MAX_BACKOFF {
        2 * wait_after((count - 1) as nat)
    } else {
        MAX_BACKOFF as nat
    }
}

/// While polls keep failing for the same reason, that is told once, the wait
/// doubles from the period up to the ceiling, and the place in the file is kept.
pub proof fn failures_back_off_and_are_told_once(
    watcher: WatcherModel,
    reason: Seq<char>,
    count: nat,
)
    requires
        watcher.reported != Some(StatusState::Offline),
        !is_announced(watcher, StatusState::Offline, Some(reason)),
        count > 0,
    ensures
        wait_of(after_failures(watcher, reason, count)) == wait_after(count),
        after_failures(watcher, reason, count).file == watcher.file,
        after_failures(watcher, reason, count).offset == watcher.offset,
        offline_events(watcher, reason, true).len() == 1,
        offline_events(after_failures(watcher, reason, count), reason, true).len() == 0,
    decreases count,
{
    reveal_with_fuel(after_failures, 2);
    if count > 1 {
        failures_back_off_and_are_told_once(watcher, reason, (count - 1) as nat);
        lemma_failed_state(watcher, reason, (count - 1) as nat);
    }
    lemma_failed_state(watcher, reason, count);
}

proof fn lemma_failed_state(watcher: WatcherModel, reason: Seq<char>, count: nat)
    requires
        count > 0,
    ensures
        after_failures(watcher, reason, count).reported == Some(StatusState::Offline),
        is_announced(after_failures(watcher, reason, count), StatusState::Offline, Some(reason)),
    decreases count,
{
    reveal_with_fuel(after_failures, 2);
    if count > 1 {
        lemma_failed_state(watcher, reason, (count - 1) as nat);
    }
}

/// A read asks for what is new of the file, at most a bounded part of it, from
/// the offset on.
pub proof fn a_read_is_of_what_is_new(
    watcher: WatcherModel,
    path: Seq<char>,
    told: bool,
    length: u64,
    delivered: bool,
)
    ensures
        ({
            let turn = sized(watcher, path, told, Ok(length), delivered);
            turn.step matches StepModel::Read { path: read, start, end, .. } ==> {
                &&& read == path
                &&& start == turn.watcher.offset
                &&& start < end <= length
                &&& end - start <= MAX_READ_PER_POLL
            }
        }),
{
}

/// Changing the mode keeps the place in the file; only selecting spends the
/// activity.
pub proof fn changing_the_mode_keeps_the_place(watcher: WatcherModel, mode: Mode)
    ensures
        in_mode(watcher, mode) == (WatcherModel {
            mode,
            activity: in_mode(watcher, mode).activity,
            counted_pending: in_mode(watcher, mode).counted_pending,
            emitted_pending: None,
            ..watcher
        }),
        mode == Mode::Selected ==> in_mode(watcher, mode).activity == no_activity(),
        mode == Mode::Background ==> in_mode(watcher, mode).activity == watcher.activity,
{
}

/// Of any number of watchers, exactly that of the selected project is promoted,
/// and one whose mode is right already is left alone.
pub proof fn one_project_is_promoted(watchers: Seq<WatcherModel>, selected: Seq<char>)
    ensures
        forall|i: int|
            0 <= i < watchers.len() ==> {
                let after = promoted(#[trigger] watchers[i], selected);
                &&& after.mode == Mode::Selected <==> watchers[i].project_id == selected
                &&& after.mode == watchers[i].mode ==> after == watchers[i]
            },
{
}

/// Whether a watcher has parsed exactly these bytes, which start at `start` in
/// its file, and holds the rest up to its offset.
pub open spec fn has_read(watcher: WatcherModel, start: nat, data: Seq<u8>) -> bool {
    &&& watcher.file is Some
    &&& watcher.accumulator == Some(
        with_lines(fresh(watcher.project_id, watcher.file.unwrap()), lines_of(start, data)),
    )
    &&& watcher.offset == start + data.len() + watcher.carry.len()
    &&& data.len() == 0 || data.last() == 10
}

/// A watcher that was just attached has read nothing.
pub proof fn an_attached_watcher_has_read_nothing(
    watcher: WatcherModel,
    file: Seq<char>,
    offset: nat,
)
    ensures
        has_read(attached(watcher, file, offset), offset, Seq::empty()),
{
}

/// Whole lines that are taken in are parsed as part of the one file, together
/// with what was held before: however it is cut into reads, the entries that
/// are closed are those of the file.
pub proof fn reads_are_parsed_as_one_file(
    watcher: WatcherModel,
    start: nat,
    data: Seq<u8>,
    bytes: Seq<u8>,
)
    requires
        has_read(watcher, start, data),
        bytes.len() > 0,
        bytes.last() == 10,
    ensures
        has_read(ingested(watcher, bytes), start, data + (watcher.carry + bytes)),
        closed_by_lines(
            fresh(watcher.project_id, watcher.file.unwrap()),
            lines_of(start, data + (watcher.carry + bytes)),
        ) == closed_by_lines(
            fresh(watcher.project_id, watcher.file.unwrap()),
            lines_of(start, data),
        ) + newly_closed(watcher, bytes),
{
    let acc = fresh(watcher.project_id, watcher.file.unwrap());
    feeding_in_chunks_changes_nothing(acc, start, data, watcher.carry + bytes);
    let all = data + (watcher.carry + bytes);
    assert(all.last() == bytes.last());
}

/// Bytes of a line that is not whole yet are held: nothing of them is parsed,
/// and none is lost.
pub proof fn held_bytes_are_not_parsed(
    watcher: WatcherModel,
    start: nat,
    data: Seq<u8>,
    bytes: Seq<u8>,
)
    requires
        has_read(watcher, start, data),
    ensures
        has_read(holding(watcher, bytes), start, data),
        holding(watcher, bytes).carry == watcher.carry + bytes,
{
}

/// A watcher that holds on to several reads of a line that is not whole yet.
pub open spec fn holding_all(watcher: WatcherModel, reads: Seq<Seq<u8>>) -> WatcherModel
    decreases reads.len(),
{
    if reads.len() == 0 {
        watcher
    } else {
        holding(holding_all(watcher, reads.drop_last()), reads.last())
    }
}

/// These bytes, one after the other.
pub open spec fn joined_bytes(reads: Seq<Seq<u8>>) -> Seq<u8>
    decreases reads.len(),
{
    if reads.len() == 0 {
        Seq::empty()
    } else {
        joined_bytes(reads.drop_last()) + reads.last()
    }
}

/// Bytes that were held over any number of reads are taken in, with the rest of
/// their line, as if all had been read at once.
pub proof fn held_bytes_are_taken_in_as_one(
    watcher: WatcherModel,
    reads: Seq<Seq<u8>>,
    rest: Seq<u8>,
)
    requires
        is_sound(watcher),
        watcher.file is Some,
    ensures
        holding_all(watcher, reads) == holding(watcher, joined_bytes(reads)),
        ingested(holding_all(watcher, reads), rest) == ingested(
            watcher,
            joined_bytes(reads) + rest,
        ),
        ingesting_events(holding_all(watcher, reads), rest) == ingesting_events(
            watcher,
            joined_bytes(reads) + rest,
        ),
{
    lemma_holding_all(watcher, reads);
    let held = joined_bytes(reads);
    let after = holding(watcher, held);
    assert(after.carry + rest =~= watcher.carry + (held + rest));
    assert(new_lines(after, rest) == new_lines(watcher, held + rest));
    assert(parsed_on(after, rest) == parsed_on(watcher, held + rest));
}

proof fn lemma_holding_all(watcher: WatcherModel, reads: Seq<Seq<u8>>)
    ensures
        holding_all(watcher, reads) == holding(watcher, joined_bytes(reads)),
    decreases reads.len(),
{
    if reads.len() == 0 {
        assert(watcher.carry + Seq::<u8>::empty() =~= watcher.carry);
    } else {
        let front = reads.drop_last();
        lemma_holding_all(watcher, front);
        assert(watcher.carry + joined_bytes(front) + reads.last() =~= watcher.carry
            + joined_bytes(reads));
    }
}

/// A line that took any number of reads is one entry, with its text unbroken:
/// where nothing was open or held before it, it opens an entry at its own start
/// whose verbatim text is the line, and nothing is closed.
pub proof fn a_long_line_is_one_entry(
    watcher: WatcherModel,
    reads: Seq<Seq<u8>>,
    rest: Seq<u8>,
    line: Seq<u8>,
)
    requires
        is_sound(watcher),
        watcher.file is Some,
        open_entry(watcher) is None,
        watcher.carry.len() == 0,
        joined_bytes(reads) + rest == line.push(10),
        !line.contains(10),
    ensures
        newly_closed(holding_all(watcher, reads), rest).len() == 0,
        ({
            let after = ingested(holding_all(watcher, reads), rest);
            &&& after.offset == watcher.offset + line.len() + 1
            &&& open_entry(after) matches Some(entry) && {
                &&& entry.raw == decoded(without_return(line))
                &&& entry.context.len() == 0
                &&& entry.offset == watcher.offset
            }
        }),
{
    held_bytes_are_taken_in_as_one(watcher, reads, rest);
    let bytes = line.push(10);
    let at = watcher.offset;
    let acc = watcher.accumulator.unwrap();
    let after = holding(watcher, joined_bytes(reads));
    assert(after.carry + rest =~= bytes);
    assert(watcher.carry + bytes =~= bytes);
    assert forall|i: int| 0 <= i < line.len() implies bytes[i] != 10 by {
        assert(line.contains(line[i]));
    }
    lemma_line_end_is(bytes, line.len() as int);
    assert(bytes.take(line.len() as int) =~= line);
    let more = bytes.skip(line_size(bytes) as int);
    assert(lines_of(at + line_size(bytes), more) =~= Seq::<LineModel>::empty());
    let only = LineModel { at, text: decoded(without_return(line)) };
    assert(lines_of(at, bytes) =~= seq![only]);
    let lines = lines_of(at, bytes);
    assert(lines.drop_last() =~= Seq::<LineModel>::empty());
    reveal_with_fuel(with_lines, 2);
    reveal_with_fuel(closed_by_lines, 2);
}

/// What bytes that were read come to is one of three: whole lines are taken in
/// up to the last newline, a whole read without a newline is held, and anything
/// else is left to be read again.
pub proof fn the_offset_moves_by_what_was_used(
    watcher: WatcherModel,
    path: Seq<char>,
    told: bool,
    want: nat,
    bytes: Vec<u8>,
    delivered: bool,
)
    requires
        is_sound(watcher),
    ensures
        ({
            let after = taken(watcher, path, told, want, Ok(bytes), delivered).watcher;
            &&& whole_lines(bytes@) > 0 ==> after.offset == watcher.offset + whole_lines(bytes@)
                && after.carry.len() == 0
            &&& whole_lines(bytes@) == 0 ==> after == holding(
                online_once(watcher, told, delivered),
                bytes@,
            ) || after == online_once(watcher, told, delivered)
        }),
{
    lemma_whole_lines(bytes@);
}

/// The entries that taking in these bytes finds and that were not counted yet:
/// those it closes and the one it leaves open, without the one that was open
/// before where that was counted.
pub open spec fn not_yet_counted(watcher: WatcherModel, bytes: Seq<u8>) -> Seq<EntryModel> {
    let all = newly_closed(watcher, bytes) + listed(open_entry(parsed_on(watcher, bytes)));
    if watcher.counted_pending is Some {
        all.drop_first()
    } else {
        all
    }
}

/// A watcher that counts counts every entry when it first sees it and never
/// again, at the level it has: the one left open is noted as counted.
pub proof fn every_entry_is_counted_once(watcher: WatcherModel, bytes: Seq<u8>)
    requires
        is_sound(watcher),
        watcher.mode == Mode::Background,
        watcher.file is Some,
    ensures
        ingested(watcher, bytes).activity == recorded_all(
            watcher.activity,
            levels_of(not_yet_counted(watcher, bytes)),
        ),
        open_entry(ingested(watcher, bytes)) matches Some(entry) ==> ingested(
            watcher,
            bytes,
        ).counted_pending == Some(entry.id),
        watcher.counted_pending matches Some(id) ==> {
            let all = newly_closed(watcher, bytes) + listed(
                open_entry(parsed_on(watcher, bytes)),
            );
            all.len() > 0 && all[0].id == id
        },
{
    let acc = watcher.accumulator.unwrap();
    let lines = new_lines(watcher, bytes);
    let closed = newly_closed(watcher, bytes);
    let open = open_entry(parsed_on(watcher, bytes));
    let all = closed + listed(open);
    let levels = levels_to_count(watcher.counted_pending, closed, open);
    if watcher.counted_pending is Some {
        lemma_open_entry_comes_first(acc, lines);
        if closed.len() > 0 {
            assert(all.drop_first() =~= closed.drop_first().push(open.unwrap()));
        } else {
            assert(all.drop_first() =~= Seq::<EntryModel>::empty());
        }
        assert(levels =~= levels_of(all.drop_first()));
    } else {
        assert(levels =~= levels_of(all));
    }
}

/// A watcher that has taken in these chunks.
pub open spec fn ingested_all(watcher: WatcherModel, chunks: Seq<Seq<u8>>) -> WatcherModel
    decreases chunks.len(),
{
    if chunks.len() == 0 {
        watcher
    } else {
        ingested(ingested_all(watcher, chunks.drop_last()), chunks.last())
    }
}

/// Whether each of these chunks is made of whole lines.
pub open spec fn are_whole_lines(chunks: Seq<Seq<u8>>) -> bool {
    forall|i: int|
        0 <= i < chunks.len() ==> (#[trigger] chunks[i]).len() > 0 && chunks[i].last() == 10
}

/// However a log is cut into chunks of whole lines, a watcher that counts and
/// had nothing open counts exactly its entries, each at its level, and holds on
/// to no more of it than its one open entry.
pub proof fn counting_does_not_depend_on_chunks(watcher: WatcherModel, chunks: Seq<Seq<u8>>)
    requires
        is_sound(watcher),
        watcher.mode == Mode::Background,
        watcher.file is Some,
        watcher.accumulator == Some(fresh(watcher.project_id, watcher.file.unwrap())),
        watcher.carry.len() == 0,
        are_whole_lines(chunks),
    ensures
        ({
            let entries = parsed(
                watcher.project_id,
                watcher.file.unwrap(),
                watcher.offset,
                joined_bytes(chunks),
            );
            let after = ingested_all(watcher, chunks);
            &&& after.activity == recorded_all(watcher.activity, levels_of(entries))
            &&& watcher.activity.total + entries.len() <= u64::MAX ==> after.activity.total
                == watcher.activity.total + entries.len()
            &&& has_read(after, watcher.offset, joined_bytes(chunks))
            &&& after.offset == watcher.offset + joined_bytes(chunks).len()
            &&& open_entry(after) == if entries.len() > 0 {
                Some(entries.last())
            } else {
                None
            }
        }),
{
    lemma_counted_chunks(watcher, chunks);
    let entries = parsed(
        watcher.project_id,
        watcher.file.unwrap(),
        watcher.offset,
        joined_bytes(chunks),
    );
    if watcher.activity.total + entries.len() <= u64::MAX {
        recording_a_list_adds_up(watcher.activity, levels_of(entries));
    }
    entries_stand_in_order(
        watcher.project_id,
        watcher.file.unwrap(),
        watcher.offset,
        joined_bytes(chunks),
    );
}

proof fn lemma_counted_chunks(watcher: WatcherModel, chunks: Seq<Seq<u8>>)
    requires
        watcher.mode == Mode::Background,
        watcher.file is Some,
        watcher.accumulator == Some(fresh(watcher.project_id, watcher.file.unwrap())),
        watcher.counted_pending is None,
        watcher.carry.len() == 0,
        are_whole_lines(chunks),
    ensures
        ({
            let data = joined_bytes(chunks);
            let entries = parsed(
                watcher.project_id,
                watcher.file.unwrap(),
                watcher.offset,
                data,
            );
            let after = ingested_all(watcher, chunks);
            &&& after.activity == recorded_all(watcher.activity, levels_of(entries))
            &&& has_read(after, watcher.offset, data)
            &&& after.mode == Mode::Background
            &&& after.file == watcher.file
            &&& after.project_id == watcher.project_id
            &&& after.carry.len() == 0
            &&& after.counted_pending == match open_entry(after) {
                Some(entry) => Some(entry.id),
                None => None,
            }
            &&& open_entry(after) is None ==> entries.len() == 0
            &&& open_entry(after) matches Some(entry) ==> entries.len() > 0 && entries.last()
                == entry
        }),
    decreases chunks.len(),
{
    let acc = fresh(watcher.project_id, watcher.file.unwrap());
    let data = joined_bytes(chunks);
    if chunks.len() == 0 {
        let entries = parsed(watcher.project_id, watcher.file.unwrap(), watcher.offset, data);
        assert(entries =~= Seq::<EntryModel>::empty());
        assert(levels_of(entries) =~= Seq::<Level>::empty());
    } else {
        let front = chunks.drop_last();
        let chunk = chunks.last();
        assert(chunks[chunks.len() - 1] == chunk);
        assert forall|i: int| 0 <= i < front.len() implies (#[trigger] front[i]).len() > 0
            && front[i].last() == 10 by {
            assert(front[i] == chunks[i]);
        }
        lemma_counted_chunks(watcher, front);
        let before = ingested_all(watcher, front);
        let known = joined_bytes(front);
        let then = parsed(watcher.project_id, watcher.file.unwrap(), watcher.offset, known);
        let now = parsed(watcher.project_id, watcher.file.unwrap(), watcher.offset, data);
        reads_are_parsed_as_one_file(before, watcher.offset, known, chunk);
        assert(before.carry + chunk =~= chunk);
        assert(known + (before.carry + chunk) =~= data);
        let closed_before = closed_by_lines(acc, lines_of(watcher.offset, known));
        let closed_new = newly_closed(before, chunk);
        let after = parsed_on(before, chunk);
        let lines = new_lines(before, chunk);
        lemma_lines_in_order((before.offset - before.carry.len()) as nat, before.carry + chunk);
        if open_entry(before) is Some {
            lemma_open_entry_comes_first(before.accumulator.unwrap(), lines);
        }
        lemma_something_is_open(before.accumulator.unwrap(), lines);
        let open = open_entry(after).unwrap();
        let found = closed_new + listed(open_entry(after));
        assert(found =~= closed_new.push(open));
        let levels = levels_to_count(before.counted_pending, closed_new, open_entry(after));
        assert(now =~= closed_before + found);
        assert(then =~= closed_before + listed(open_entry(before)));
        if open_entry(before) is Some {
            let fresh_ones = found.drop_first();
            if closed_new.len() > 0 {
                assert(fresh_ones =~= closed_new.drop_first().push(open));
            } else {
                assert(fresh_ones =~= Seq::<EntryModel>::empty());
            }
            assert(levels =~= levels_of(fresh_ones));
            assert(found[0].level == open_entry(before).unwrap().level);
            assert(levels_of(then) + levels =~= levels_of(now));
        } else {
            assert(levels =~= levels_of(found));
            assert(levels_of(then) + levels =~= levels_of(now));
        }
        recording_lists_adds_up(watcher.activity, levels_of(then), levels);
    }
}

/// Once a line was fed something is open.
proof fn lemma_something_is_open(acc: AccumulatorModel, lines: Seq<LineModel>)
    requires
        lines.len() > 0,
    ensures
        with_lines(acc, lines).pending is Some,
{
}

/// Taking in a chunk, a watcher that counts sends its activity once where the
/// total grew, and otherwise nothing.
pub proof fn activity_is_sent_where_it_grew(watcher: WatcherModel, bytes: Seq<u8>)
    requires
        is_sound(watcher),
        watcher.mode == Mode::Background,
        watcher.activity.total + newly_closed(watcher, bytes).len() < u64::MAX,
    ensures
        ({
            let after = ingested(watcher, bytes);
            let sent = ingesting_events(watcher, bytes);
            if after.activity.total != watcher.activity.total {
                sent == seq![activity_event(after)]
            } else {
                sent.len() == 0
            }
        }),
{
    let closed = newly_closed(watcher, bytes);
    let levels = levels_to_count(
        watcher.counted_pending,
        closed,
        open_entry(parsed_on(watcher, bytes)),
    );
    recording_a_list_adds_up(watcher.activity, levels);
}

/// Leaving a file, a watcher that counts counts the entry it had open unless it
/// was counted already.
pub proof fn leaving_a_file_counts_nothing_twice(watcher: WatcherModel)
    requires
        is_sound(watcher),
        watcher.mode == Mode::Background,
    ensures
        watcher.counted_pending is Some ==> closed(watcher).activity == watcher.activity
            && closing_events(watcher).len() == 0,
        watcher.counted_pending is None ==> closed(watcher).activity == match open_entry(watcher) {
            Some(entry) => recorded(watcher.activity, entry.level),
            None => watcher.activity,
        },
{
}

/// Closing the open entry keeps the place in the file and sends no break; doing
/// it again sends nothing more and changes nothing.
pub proof fn closing_twice_sends_nothing_more(watcher: WatcherModel)
    ensures
        closed(watcher).file == watcher.file,
        closed(watcher).offset == watcher.offset,
        open_entry(closed(watcher)) is None,
        closing_events(watcher).len() <= 1,
        forall|i: int|
            0 <= i < closing_events(watcher).len() ==> !(#[trigger] closing_events(watcher)[i]
                is Break),
        open_entry(watcher) is None ==> closing_events(watcher).len() == 0,
        closing_events(closed(watcher)).len() == 0,
        closed(closed(watcher)) == closed(watcher),
{
}

/// The entries that were closed are sent in order as one event, before the open
/// one, which is sent only where it differs from what was sent of it last.
pub proof fn closed_entries_are_sent_in_order(watcher: WatcherModel, bytes: Seq<u8>)
    requires
        watcher.mode == Mode::Selected,
    ensures
        ingesting_events(watcher, bytes) == batch_events(
            all_stamped(newly_closed(watcher, bytes), watcher.generation),
        ) + open_events(parsed_on(watcher, bytes)),
        batch_events(
            all_stamped(newly_closed(watcher, bytes), watcher.generation),
        ).len() <= 1,
        open_events(parsed_on(watcher, bytes)).len() <= 1,
        open_events(ingested(watcher, bytes)).len() == 0,
{
}

/// The first entry that a watcher finds after a window was shown has the id of
/// the last one in the window: it is revised in place.
pub proof fn the_last_entry_shown_is_revised_in_place(
    project_id: Seq<char>,
    file: Seq<char>,
    walk: WalkModel,
    bytes: Seq<u8>,
    generation: nat,
    tail: Seq<u8>,
)
    requires
        bytes.len() > 0,
        tail.len() > 0,
    ensures
        ({
            let window = window_onto(
                walk,
                parsed(project_id, file, walk_start(walk), bytes),
                generation,
            );
            let next = parsed(project_id, file, window.next_offset, tail);
            &&& window.items.len() > 0
            &&& next.len() > 0
            &&& window.items.last() matches ItemModel::Entry(last) && last.id
                == stamped(next[0], generation).id
        }),
{
    let entries = parsed(project_id, file, walk_start(walk), bytes);
    let window = window_onto(walk, entries, generation);
    let shown = shown(walk_start(walk), entries);
    entries_stand_in_order(project_id, file, walk_start(walk), bytes);
    entries_stand_in_order(project_id, file, window.next_offset, tail);
    every_entry_is_whole(project_id, file, walk_start(walk), bytes);
    every_entry_is_whole(project_id, file, window.next_offset, tail);
    assert(shown.last() == entries.last());
    assert(is_whole(entries[entries.len() - 1], project_id, file));
    assert(is_whole(
        parsed(project_id, file, window.next_offset, tail)[0],
        project_id,
        file,
    ));
    assert(window.items.last() == ItemModel::Entry(
        stamped(shown.last(), generation),
    ));
}

/// After an opening window onto a whole file that ends with a newline, the next
/// read of the unchanged file sends exactly one entry, the last one of the
/// window as it was shown there, and ends at the end of the file.
pub proof fn the_first_read_after_a_window_sends_its_last_entry(
    watcher: WatcherModel,
    file: Seq<char>,
    content: Seq<u8>,
    walk: WalkModel,
)
    requires
        watcher.mode == Mode::Selected,
        walk.before == content.len(),
        walk_start(walk) < walk.before,
        content.last() == 10,
    ensures
        ({
            let bytes = content.skip(walk_start(walk) as int);
            let entries = parsed(watcher.project_id, file, walk_start(walk), bytes);
            let window = window_onto(walk, entries, watcher.generation);
            let opened = attached(watcher, file, window.next_offset);
            let tail = content.skip(window.next_offset as int);
            let sent = ingesting_events(opened, tail);
            &&& window.next_offset < content.len()
            &&& whole_lines(tail) == tail.len()
            &&& window.items.len() > 0
            &&& sent.len() == 1
            &&& sent[0] matches Event::Entry(entry) && window.items.last() == ItemModel::Entry(
                entry,
            )
            &&& ingested(opened, tail).offset == content.len()
            &&& ingested(opened, tail).generation == watcher.generation
        }),
{
    let bytes = content.skip(walk_start(walk) as int);
    let entries = parsed(watcher.project_id, file, walk_start(walk), bytes);
    let window = window_onto(walk, entries, watcher.generation);
    let shown = shown(walk_start(walk), entries);
    reading_resumes_at_the_last_entry(watcher.project_id, file, walk_start(walk), bytes);
    every_entry_is_whole(watcher.project_id, file, walk_start(walk), bytes);
    assert(is_whole(entries[entries.len() - 1], watcher.project_id, file));
    let last = entries.last();
    assert(shown.last() == last);
    assert(window.next_offset == last.offset);
    let tail = content.skip(last.offset as int);
    assert(bytes.skip(last.offset - walk_start(walk)) =~= tail);
    assert(tail.last() == content.last());
    let opened = attached(watcher, file, last.offset);
    assert(opened.carry + tail =~= tail);
    let acc = fresh(watcher.project_id, file);
    let lines = lines_of(last.offset, tail);
    lemma_lines_in_order(last.offset, tail);
    lemma_something_is_open(acc, lines);
    let all = parsed(watcher.project_id, file, last.offset, tail);
    assert(all == seq![last]);
    let open = with_lines(acc, lines).pending.unwrap().entry;
    assert(all.last() == open);
    assert(closed_by_lines(acc, lines).len() == 0);
    assert(ingesting_events(opened, tail) =~= seq![
        Event::Entry(sent_as(open, watcher.generation)),
    ]);
    assert(window.items.last() == ItemModel::Entry(stamped(last, watcher.generation)));
}

/// A text takes as many bytes as its parts.
proof fn lemma_bytes_of_parts(a: Seq<char>, b: Seq<char>)
    ensures
        bytes_of(a + b) == bytes_of(a) + bytes_of(b),
    decreases a.len(),
{
    if a.len() == 0 {
        assert(a + b =~= b);
    } else {
        lemma_bytes_of_parts(a.drop_first(), b);
        assert((a + b).drop_first() =~= a.drop_first() + b);
    }
}

/// Between polls a watcher holds on to no text but that of its one open entry,
/// to no more than three times its verbatim length, however much it has read.
pub proof fn only_the_open_entry_is_retained(watcher: WatcherModel, start: nat, data: Seq<u8>)
    requires
        has_read(watcher, start, data),
    ensures
        retained_text(watcher) <= 3 * (match open_entry(watcher) {
            Some(entry) => bytes_of(entry.raw),
            None => 0,
        }),
{
    if let Some(entry) = open_entry(watcher) {
        let acc = fresh(watcher.project_id, watcher.file.unwrap());
        let lines = lines_of(start, data);
        lemma_pending_is_whole(acc, lines);
        let first = choose|first: Seq<char>| #[trigger] starts_with(entry, first);
        a_found_header_is_in_the_line(first);
        if let Some(header) = header_of(first) {
            let (space, gap) = choose|space: char, gap: Seq<char>|
                #[trigger] reads_as(first, header, space, gap);
            let before = first.take(first.len() - header.message.len());
            assert(first =~= before + header.message);
            lemma_bytes_of_parts(before, header.message);
        }
        assert(bytes_of(entry.message) <= bytes_of(first));
        if entry.raw == first && entry.context.len() == 0 {
            assert(bytes_of(entry.context) == 0);
        } else {
            lemma_bytes_of_parts(first + seq!['\n'], entry.context);
            lemma_bytes_of_parts(first, seq!['\n']);
        }
    }
}

/// What a reader holds that keeps entries by their ids, once it was given one
/// more of each of these.
pub open spec fn held_with(
    held: Map<Seq<char>, EntryModel>,
    entries: Seq<EntryModel>,
) -> Map<Seq<char>, EntryModel>
    decreases entries.len(),
{
    if entries.len() == 0 {
        held
    } else {
        held_with(held, entries.drop_last()).insert(entries.last().id, entries.last())
    }
}

/// What such a reader holds after these events: an entry takes the place of an
/// earlier one with its id, and nothing is taken away.
pub open spec fn held_after(
    held: Map<Seq<char>, EntryModel>,
    events: Seq<Event>,
) -> Map<Seq<char>, EntryModel>
    decreases events.len(),
{
    if events.len() == 0 {
        held
    } else {
        let before = held_after(held, events.drop_last());
        match events.last() {
            Event::Entry(entry) => before.insert(entry.id, entry),
            Event::Entries(entries) => held_with(before, entries),
            _ => before,
        }
    }
}

proof fn lemma_held_after_both(held: Map<Seq<char>, EntryModel>, a: Seq<Event>, b: Seq<Event>)
    ensures
        held_after(held, a + b) == held_after(held_after(held, a), b),
    decreases b.len(),
{
    if b.len() == 0 {
        assert(a + b =~= a);
    } else {
        lemma_held_after_both(held, a, b.drop_last());
        assert((a + b).drop_last() =~= a + b.drop_last());
        assert((a + b).last() == b.last());
    }
}

/// Everything that taking in these chunks one after the other sends.
pub open spec fn sent_by_all(watcher: WatcherModel, chunks: Seq<Seq<u8>>) -> Seq<Event>
    decreases chunks.len(),
{
    if chunks.len() == 0 {
        Seq::empty()
    } else {
        sent_by_all(watcher, chunks.drop_last()) + ingesting_events(
            ingested_all(watcher, chunks.drop_last()),
            chunks.last(),
        )
    }
}

/// An entry as it is known in a generation: under the id of its file, that
/// generation and its place.
pub open spec fn known_as(entry: EntryModel, generation: nat) -> EntryModel {
    EntryModel { id: stamped_entry_text(entry.file, entry.offset, generation), ..entry }
}

/// Whether a reader holds these entries as they are known in a generation, and
/// under every other id what it held before.
pub open spec fn holds_exactly(
    after: Map<Seq<char>, EntryModel>,
    held: Map<Seq<char>, EntryModel>,
    entries: Seq<EntryModel>,
    generation: nat,
) -> bool {
    &&& forall|k: int|
        0 <= k < entries.len() ==> holds(after, known_as(#[trigger] entries[k], generation))
    &&& forall|id: Seq<char>|
        is_none_of(id, entries, generation) ==> (#[trigger] after.contains_key(id)
            == held.contains_key(id)) && (held.contains_key(id) ==> after[id] == held[id])
}

/// Whether an entry is held under its id.
pub open spec fn holds(held: Map<Seq<char>, EntryModel>, entry: EntryModel) -> bool {
    held.contains_key(entry.id) && held[entry.id] == entry
}

/// Whether none of these entries has an id in a generation.
pub open spec fn is_none_of(id: Seq<char>, entries: Seq<EntryModel>, generation: nat) -> bool {
    forall|k: int| 0 <= k < entries.len() ==> known_as(#[trigger] entries[k], generation).id != id
}

/// Whether what was last sent of the open entry of a watcher is that entry as it
/// is.
spec fn has_shown_its_open_entry(watcher: WatcherModel) -> bool {
    watcher.emitted_pending == match open_entry(watcher) {
        Some(entry) => Some((entry.id, bytes_of(entry.raw))),
        None => None,
    }
}

/// A line more makes the open entry longer, or opens another one.
proof fn lemma_open_entry_changes(acc: AccumulatorModel, lines: Seq<LineModel>)
    requires
        acc.pending is Some,
        lines.len() > 0,
    ensures
        with_lines(acc, lines).pending is Some,
        ({
            let before = acc.pending.unwrap().entry;
            let after = with_lines(acc, lines).pending.unwrap().entry;
            ||| after.id == before.id && bytes_of(after.raw) > bytes_of(before.raw)
            ||| exists|k: int|
                0 <= k < lines.len() && after.id == entry_id_text(
                    acc.file,
                    (#[trigger] lines[k]).at,
                )
        }),
        with_lines(acc, lines).file == acc.file,
    decreases lines.len(),
{
    let front = lines.drop_last();
    let line = lines.last();
    let mid = with_lines(acc, front);
    if front.len() > 0 {
        lemma_open_entry_changes(acc, front);
    }
    let before = mid.pending.unwrap().entry;
    let after = with_lines(acc, lines).pending.unwrap().entry;
    if header_of(line.text) is Some {
        assert(after.id == entry_id_text(acc.file, lines[lines.len() - 1].at));
    } else {
        lemma_bytes_of_parts(before.raw + seq!['\n'], line.text);
        lemma_bytes_of_parts(before.raw, seq!['\n']);
        assert(is_ascii_chars(seq!['\n']));
        is_ascii_chars_encode_utf8(seq!['\n']);
        assert(bytes_of(after.raw) > bytes_of(before.raw));
        if front.len() > 0 && !(before.id == acc.pending.unwrap().entry.id && bytes_of(before.raw)
            > bytes_of(acc.pending.unwrap().entry.raw)) {
            let k = choose|k: int|
                0 <= k < front.len() && before.id == entry_id_text(acc.file, (#[trigger] front[k]).at);
            assert(lines[k] == front[k]);
        }
    }
}

/// Ids differ where offsets do.
proof fn lemma_ids_differ(token: Seq<char>, a: nat, b: nat)
    requires
        a != b,
    ensures
        entry_id_text(token, a) != entry_id_text(token, b),
{
    let x = entry_id_text(token, a);
    let y = entry_id_text(token, b);
    lemma_decimal(a);
    lemma_decimal(b);
    assert(x.skip(token.len() as int + 1) =~= decimal(a));
    assert(y.skip(token.len() as int + 1) =~= decimal(b));
}

/// What is known of the open entry of a watcher that has read these bytes.
proof fn lemma_open_entry_of_read(watcher: WatcherModel, start: nat, data: Seq<u8>)
    requires
        has_read(watcher, start, data),
    ensures
        data.len() == 0 ==> open_entry(watcher) is None,
        data.len() > 0 ==> open_entry(watcher) is Some,
        open_entry(watcher) matches Some(entry) ==> {
            let entries = parsed(watcher.project_id, watcher.file.unwrap(), start, data);
            &&& entries.len() > 0
            &&& entries.last() == entry
            &&& entry.offset < start + data.len()
            &&& entry.file == watcher.file.unwrap()
            &&& entry.id == entry_id_text(watcher.file.unwrap(), entry.offset)
        },
        watcher.accumulator.unwrap().file == watcher.file.unwrap(),
{
    let file = watcher.file.unwrap();
    let acc = fresh(watcher.project_id, file);
    let lines = lines_of(start, data);
    let entries = parsed(watcher.project_id, file, start, data);
    lemma_lines_in_order(start, data);
    lemma_same_file(acc, lines);
    entries_stand_in_order(watcher.project_id, file, start, data);
    every_entry_is_whole(watcher.project_id, file, start, data);
    if data.len() > 0 {
        lemma_something_is_open(acc, lines);
        assert(is_whole(entries[entries.len() - 1], watcher.project_id, file));
    }
}

/// Taking in whole lines changes the open entry: it grows, or another one is
/// opened.
proof fn lemma_whole_lines_change_the_open_entry(
    watcher: WatcherModel,
    start: nat,
    data: Seq<u8>,
    bytes: Seq<u8>,
)
    requires
        has_read(watcher, start, data),
        bytes.len() > 0,
    ensures
        open_entry(parsed_on(watcher, bytes)) is Some,
        open_entry(watcher) matches Some(before) ==> {
            let after = open_entry(parsed_on(watcher, bytes)).unwrap();
            (after.id, bytes_of(after.raw)) != (before.id, bytes_of(before.raw))
        },
{
    let acc = watcher.accumulator.unwrap();
    let at = (watcher.offset - watcher.carry.len()) as nat;
    let lines = new_lines(watcher, bytes);
    lemma_lines_in_order(at, watcher.carry + bytes);
    lemma_something_is_open(acc, lines);
    lemma_open_entry_of_read(watcher, start, data);
    if let Some(before) = open_entry(watcher) {
        lemma_open_entry_changes(acc, lines);
        let after = open_entry(parsed_on(watcher, bytes)).unwrap();
        if after.id == before.id && bytes_of(after.raw) <= bytes_of(before.raw) {
            let k = choose|k: int|
                0 <= k < lines.len() && after.id == entry_id_text(
                    acc.file,
                    (#[trigger] lines[k]).at,
                );
            assert(lines[k].at >= at);
            lemma_ids_differ(acc.file, before.offset, lines[k].at);
        }
    }
}

/// An entry as it is sent is the one that is known.
proof fn lemma_sent_as_known(entry: EntryModel, file: Seq<char>, generation: nat)
    requires
        entry.file == file,
        entry.id == entry_id_text(file, entry.offset),
    ensures
        sent_as(entry, generation) == known_as(entry, generation),
        stamped(entry, generation) == known_as(entry, generation),
{
}

/// The open entry of a project being read is sent whenever it changes: taking in
/// whole lines after others sends exactly one entry behind those that were
/// closed, and that is the open one as it now is, with all its text. So it is
/// also the first time that a watcher takes in lines after it was selected.
pub proof fn the_open_entry_is_sent_whenever_it_changes(
    watcher: WatcherModel,
    start: nat,
    data: Seq<u8>,
    first: Seq<u8>,
    bytes: Seq<u8>,
)
    requires
        watcher.mode == Mode::Selected,
        has_read(watcher, start, data),
        first.len() > 0,
        first.last() == 10,
        bytes.len() > 0,
        bytes.last() == 10,
    ensures
        ({
            let shown = ingested(watcher, first);
            let after = ingested(shown, bytes);
            &&& open_entry(after) is Some
            &&& open_entry(shown) != open_entry(after)
            &&& open_events(parsed_on(shown, bytes)) == seq![
                Event::Entry(known_as(open_entry(after).unwrap(), watcher.generation)),
            ]
        }),
        watcher.emitted_pending is None ==> open_events(parsed_on(watcher, first)) == seq![
            Event::Entry(known_as(open_entry(ingested(watcher, first)).unwrap(), watcher.generation)),
        ],
{
    let shown = ingested(watcher, first);
    let known = data + (watcher.carry + first);
    reads_are_parsed_as_one_file(watcher, start, data, first);
    lemma_whole_lines_change_the_open_entry(watcher, start, data, first);
    lemma_whole_lines_change_the_open_entry(shown, start, known, bytes);
    reads_are_parsed_as_one_file(shown, start, known, bytes);
    let after = ingested(shown, bytes);
    lemma_open_entry_of_read(shown, start, known);
    lemma_open_entry_of_read(after, start, known + (shown.carry + bytes));
    let file = watcher.file.unwrap();
    lemma_sent_as_known(open_entry(shown).unwrap(), file, watcher.generation);
    lemma_sent_as_known(open_entry(after).unwrap(), file, watcher.generation);
    assert(open_events(parsed_on(shown, bytes)) =~= seq![
        Event::Entry(known_as(open_entry(after).unwrap(), watcher.generation)),
    ]);
}

/// A reader of a project that keeps entries by their ids holds, at any time, what
/// the file holds: after any number of chunks of whole lines, however they are
/// cut, it holds every entry of all of them once and as it is, the open one
/// among them, and what it held under other ids. Leaving the file then has
/// nothing to add.
pub proof fn a_reader_holds_what_the_file_holds(
    watcher: WatcherModel,
    file: Seq<char>,
    offset: nat,
    chunks: Seq<Seq<u8>>,
    held: Map<Seq<char>, EntryModel>,
)
    requires
        watcher.mode == Mode::Selected,
        are_whole_lines(chunks),
    ensures
        ({
            let start = attached(watcher, file, offset);
            let entries = parsed(watcher.project_id, file, offset, joined_bytes(chunks));
            &&& holds_exactly(
                held_after(held, sent_by_all(start, chunks)),
                held,
                entries,
                watcher.generation,
            )
            &&& closing_events(ingested_all(start, chunks)).len() == 0
            &&& ingested_all(start, chunks).offset == offset + joined_bytes(chunks).len()
        }),
{
    lemma_reader_holds(watcher, file, offset, chunks, held);
}

proof fn lemma_reader_holds(
    watcher: WatcherModel,
    file: Seq<char>,
    offset: nat,
    chunks: Seq<Seq<u8>>,
    held: Map<Seq<char>, EntryModel>,
)
    requires
        watcher.mode == Mode::Selected,
        are_whole_lines(chunks),
    ensures
        ({
            let start = attached(watcher, file, offset);
            let data = joined_bytes(chunks);
            let after = ingested_all(start, chunks);
            &&& holds_exactly(
                held_after(held, sent_by_all(start, chunks)),
                held,
                parsed(watcher.project_id, file, offset, data),
                watcher.generation,
            )
            &&& has_read(after, offset, data)
            &&& has_shown_its_open_entry(after)
            &&& after.mode == Mode::Selected
            &&& after.file == Some(file)
            &&& after.project_id == watcher.project_id
            &&& after.generation == watcher.generation
            &&& after.carry.len() == 0
        }),
    decreases chunks.len(),
{
    let start = attached(watcher, file, offset);
    let data = joined_bytes(chunks);
    if chunks.len() == 0 {
        assert(parsed(watcher.project_id, file, offset, data) =~= Seq::<EntryModel>::empty());
    } else {
        let front = chunks.drop_last();
        let chunk = chunks.last();
        assert(chunks[chunks.len() - 1] == chunk);
        assert forall|i: int| 0 <= i < front.len() implies (#[trigger] front[i]).len() > 0
            && front[i].last() == 10 by {
            assert(front[i] == chunks[i]);
        }
        lemma_reader_holds(watcher, file, offset, front, held);
        let before = ingested_all(start, front);
        let known = joined_bytes(front);
        let held_then = held_after(held, sent_by_all(start, front));
        lemma_held_after_both(held, sent_by_all(start, front), ingesting_events(before, chunk));
        lemma_reader_step(before, offset, known, chunk, held, held_then);
        assert(data == known + chunk);
    }
}

/// One more chunk keeps a reader holding what the file holds.
proof fn lemma_reader_step(
    before: WatcherModel,
    offset: nat,
    known: Seq<u8>,
    chunk: Seq<u8>,
    held: Map<Seq<char>, EntryModel>,
    held_then: Map<Seq<char>, EntryModel>,
)
    requires
        before.mode == Mode::Selected,
        has_read(before, offset, known),
        has_shown_its_open_entry(before),
        before.carry.len() == 0,
        chunk.len() > 0,
        chunk.last() == 10,
        holds_exactly(
            held_then,
            held,
            parsed(before.project_id, before.file.unwrap(), offset, known),
            before.generation,
        ),
    ensures
        has_read(ingested(before, chunk), offset, known + chunk),
        has_shown_its_open_entry(ingested(before, chunk)),
        holds_exactly(
            held_after(held_then, ingesting_events(before, chunk)),
            held,
            parsed(before.project_id, before.file.unwrap(), offset, known + chunk),
            before.generation,
        ),
{
    let file = before.file.unwrap();
    let id = before.project_id;
    let acc = fresh(id, file);
    let data = known + chunk;
    assert(before.carry + chunk =~= chunk);
    reads_are_parsed_as_one_file(before, offset, known, chunk);
    let after = ingested(before, chunk);
    lemma_open_entry_of_read(before, offset, known);
    lemma_open_entry_of_read(after, offset, data);
    lemma_whole_lines_change_the_open_entry(before, offset, known, chunk);
    let was_closed = closed_by_lines(acc, lines_of(offset, known));
    let closed_now = newly_closed(before, chunk);
    let was_open = open_entry(before);
    let open = open_entry(after).unwrap();
    let found = closed_now.push(open);
    let now = parsed(id, file, offset, data);
    assert(now =~= was_closed + found);
    assert(parsed(id, file, offset, known) =~= was_closed + listed(was_open));
    every_entry_is_whole(id, file, offset, data);
    entries_stand_in_order(id, file, offset, data);
    assert forall|k: int| 0 <= k < now.len() implies (#[trigger] now[k]).file == file && now[k].id
        == entry_id_text(file, now[k].offset) by {
        assert(is_whole(now[k], id, file));
    }
    assert forall|k: int| 0 <= k < found.len() implies (#[trigger] found[k]).file == file
        && found[k].id == entry_id_text(file, found[k].offset) by {
        assert(found[k] == now[was_closed.len() + k]);
    }
    if was_open is Some {
        lemma_open_entry_comes_first(before.accumulator.unwrap(), new_lines(before, chunk));
        lemma_same_id_same_place(file, was_open.unwrap().offset, found[0].offset);
    }
    lemma_held_by_a_step(before, chunk, held_then, file);
    lemma_held_step(held, held_then, was_closed, was_open, found, file, before.generation);
}

/// What taking in a chunk that changes the open entry gives a reader: each entry
/// that was closed, and then the open one.
proof fn lemma_held_by_a_step(
    before: WatcherModel,
    chunk: Seq<u8>,
    held: Map<Seq<char>, EntryModel>,
    file: Seq<char>,
)
    requires
        before.mode == Mode::Selected,
        has_shown_its_open_entry(before),
        open_entry(parsed_on(before, chunk)) is Some,
        open_entry(before) matches Some(old_open) ==> {
            let open = open_entry(parsed_on(before, chunk)).unwrap();
            (open.id, bytes_of(open.raw)) != (old_open.id, bytes_of(old_open.raw))
        },
        ({
            let found = newly_closed(before, chunk).push(
                open_entry(parsed_on(before, chunk)).unwrap(),
            );
            forall|k: int|
                0 <= k < found.len() ==> (#[trigger] found[k]).file == file && found[k].id
                    == entry_id_text(file, found[k].offset)
        }),
    ensures
        held_after(held, ingesting_events(before, chunk)) == held_with(
            held,
            all_known(
                newly_closed(before, chunk).push(open_entry(parsed_on(before, chunk)).unwrap()),
                before.generation,
            ),
        ),
        has_shown_its_open_entry(ingested(before, chunk)),
{
    let g = before.generation;
    let closed_now = newly_closed(before, chunk);
    let open = open_entry(parsed_on(before, chunk)).unwrap();
    let found = closed_now.push(open);
    assert(found[closed_now.len() as int] == open);
    lemma_sent_as_known(open, file, g);
    let stamped_now = all_stamped(closed_now, g);
    assert forall|k: int| 0 <= k < closed_now.len() implies stamped_now[k] == all_known(
        closed_now,
        g,
    )[k] by {
        assert(found[k] == closed_now[k]);
        lemma_sent_as_known(closed_now[k], file, g);
    }
    assert(stamped_now =~= all_known(closed_now, g));
    let batch = batch_events(stamped_now);
    let one = seq![Event::Entry(known_as(open, g))];
    assert(ingesting_events(before, chunk) =~= batch + one);
    lemma_held_after_both(held, batch, one);
    reveal_with_fuel(held_after, 2);
    if stamped_now.len() > 0 {
        assert(batch.drop_last() =~= Seq::<Event>::empty());
    }
    assert(held_after(held, batch) == held_with(held, stamped_now));
    assert(one.drop_last() =~= Seq::<Event>::empty());
    assert(one.last() == Event::Entry(known_as(open, g)));
    let given = all_known(found, g);
    assert(given.drop_last() =~= stamped_now);
    assert(given.last() == known_as(open, g));
    assert(held_with(held, given) == held_with(held, stamped_now).insert(
        known_as(open, g).id,
        known_as(open, g),
    ));
}

/// These entries as they are known in a generation.
spec fn all_known(entries: Seq<EntryModel>, generation: nat) -> Seq<EntryModel> {
    entries.map_values(|entry: EntryModel| known_as(entry, generation))
}

/// A reader that held exactly some entries, the open one among them, and is
/// given that one as it now is and those after it, holds exactly all of them.
proof fn lemma_held_step(
    held: Map<Seq<char>, EntryModel>,
    held_then: Map<Seq<char>, EntryModel>,
    was_closed: Seq<EntryModel>,
    was_open: Option<EntryModel>,
    found: Seq<EntryModel>,
    file: Seq<char>,
    g: nat,
)
    requires
        holds_exactly(held_then, held, was_closed + listed(was_open), g),
        found.len() > 0,
        forall|k: int|
            0 <= k < (was_closed + found).len() ==> (#[trigger] (was_closed + found)[k]).file
                == file,
        forall|i: int, j: int|
            0 <= i < j < (was_closed + found).len() ==> (#[trigger] (was_closed + found)[i]).offset
                < (#[trigger] (was_closed + found)[j]).offset,
        was_open matches Some(entry) ==> entry.file == file && entry.offset == found[0].offset,
    ensures
        holds_exactly(held_with(held_then, all_known(found, g)), held, was_closed + found, g),
{
    let now = was_closed + found;
    let given = all_known(found, g);
    let after = held_with(held_then, given);
    assert forall|k: int| 0 <= k < now.len() implies holds(after, known_as(#[trigger] now[k], g)) by {
        lemma_held_step_of_one(held, held_then, was_closed, was_open, found, file, g, k);
    }
    assert forall|id: Seq<char>| is_none_of(id, now, g) implies (#[trigger] after.contains_key(id)
        == held.contains_key(id)) && (held.contains_key(id) ==> after[id] == held[id]) by {
        lemma_held_step_of_others(held, held_then, was_closed, was_open, found, file, g, id);
    }
}

proof fn lemma_held_step_of_one(
    held: Map<Seq<char>, EntryModel>,
    held_then: Map<Seq<char>, EntryModel>,
    was_closed: Seq<EntryModel>,
    was_open: Option<EntryModel>,
    found: Seq<EntryModel>,
    file: Seq<char>,
    g: nat,
    k: int,
)
    requires
        holds_exactly(held_then, held, was_closed + listed(was_open), g),
        forall|i: int|
            0 <= i < (was_closed + found).len() ==> (#[trigger] (was_closed + found)[i]).file
                == file,
        forall|i: int, j: int|
            0 <= i < j < (was_closed + found).len() ==> (#[trigger] (was_closed + found)[i]).offset
                < (#[trigger] (was_closed + found)[j]).offset,
        0 <= k < (was_closed + found).len(),
    ensures
        holds(held_with(held_then, all_known(found, g)), known_as((was_closed + found)[k], g)),
{
    let now = was_closed + found;
    let then = was_closed + listed(was_open);
    let given = all_known(found, g);
    let c = was_closed.len() as int;
    let own = known_as(now[k], g);
    if k >= c {
        assert(given[k - c] == own);
        assert forall|j: int| k - c < j < given.len() implies (#[trigger] given[j]).id != given[k
            - c].id by {
            assert(given[j] == known_as(now[c + j], g));
            lemma_ids_differ(token_text(file, g), now[k].offset, now[c + j].offset);
        }
        lemma_held_last(held_then, given, k - c);
    } else {
        assert(then[k] == now[k]);
        assert(holds(held_then, known_as(then[k], g)));
        assert forall|j: int| 0 <= j < given.len() implies (#[trigger] given[j]).id != own.id by {
            assert(given[j] == known_as(now[c + j], g));
            lemma_ids_differ(token_text(file, g), now[k].offset, now[c + j].offset);
        }
        lemma_not_given(held_then, given, own.id);
    }
}

proof fn lemma_held_step_of_others(
    held: Map<Seq<char>, EntryModel>,
    held_then: Map<Seq<char>, EntryModel>,
    was_closed: Seq<EntryModel>,
    was_open: Option<EntryModel>,
    found: Seq<EntryModel>,
    file: Seq<char>,
    g: nat,
    id: Seq<char>,
)
    requires
        holds_exactly(held_then, held, was_closed + listed(was_open), g),
        found.len() > 0,
        (was_closed + found)[was_closed.len() as int].file == file,
        was_open matches Some(entry) ==> entry.file == file && entry.offset == found[0].offset,
        is_none_of(id, was_closed + found, g),
    ensures
        ({
            let after = held_with(held_then, all_known(found, g));
            &&& after.contains_key(id) == held.contains_key(id)
            &&& held.contains_key(id) ==> after[id] == held[id]
        }),
{
    let now = was_closed + found;
    let then = was_closed + listed(was_open);
    let given = all_known(found, g);
    let c = was_closed.len() as int;
    assert forall|j: int| 0 <= j < given.len() implies (#[trigger] given[j]).id != id by {
        assert(given[j] == known_as(now[c + j], g));
        assert(known_as(now[c + j], g).id != id);
    }
    lemma_not_given(held_then, given, id);
    assert forall|k: int| 0 <= k < then.len() implies known_as(#[trigger] then[k], g).id != id by {
        assert(known_as(now[k], g).id != id);
        if k < c {
            assert(then[k] == now[k]);
        } else {
            assert(now[k] == found[0]);
        }
    }
    assert(is_none_of(id, then, g));
    assert(held_then.contains_key(id) == held.contains_key(id));
}

proof fn lemma_same_id_same_place(file: Seq<char>, a: nat, b: nat)
    requires
        entry_id_text(file, a) == entry_id_text(file, b),
    ensures
        a == b,
{
    if a != b {
        lemma_ids_differ(file, a, b);
    }
}

/// What was given last under an id is held.
proof fn lemma_held_last(held: Map<Seq<char>, EntryModel>, entries: Seq<EntryModel>, k: int)
    requires
        0 <= k < entries.len(),
        forall|j: int| k < j < entries.len() ==> (#[trigger] entries[j]).id != entries[k].id,
    ensures
        holds(held_with(held, entries), entries[k]),
    decreases entries.len(),
{
    if k < entries.len() - 1 {
        let front = entries.drop_last();
        assert(entries[entries.len() - 1].id != entries[k].id);
        assert forall|j: int| k < j < front.len() implies (#[trigger] front[j]).id != front[k].id by {
            assert(entries[j].id != entries[k].id);
        }
        lemma_held_last(held, front, k);
    }
}

/// What was given under other ids changes nothing under this one.
proof fn lemma_not_given(held: Map<Seq<char>, EntryModel>, entries: Seq<EntryModel>, id: Seq<char>)
    requires
        forall|k: int| 0 <= k < entries.len() ==> (#[trigger] entries[k]).id != id,
    ensures
        held_with(held, entries).contains_key(id) == held.contains_key(id),
        held.contains_key(id) ==> held_with(held, entries)[id] == held[id],
    decreases entries.len(),
{
    if entries.len() > 0 {
        let front = entries.drop_last();
        assert(entries[entries.len() - 1].id != id);
        assert forall|k: int| 0 <= k < front.len() implies (#[trigger] front[k]).id != id by {
            assert(entries[k].id != id);
        }
        lemma_not_given(held, front, id);
    }
}

/// A poll that looks for the file loses nothing of the activity: it is what it
/// was, and one more of its level only for an entry that was open in the file
/// that is left and not counted yet.
pub proof fn a_poll_keeps_the_activity(
    watcher: WatcherModel,
    found: Result<Option<Located>, String>,
    delivered: bool,
)
    requires
        is_sound(watcher),
        watcher.activity.total < u64::MAX,
    ensures
        ({
            let after = polled(watcher, found, delivered).watcher.activity;
            &&& has_not_fallen(watcher.activity, after)
            &&& is_rotated(watcher, found) && watcher.mode == Mode::Background
                && watcher.counted_pending is None ==> (match open_entry(watcher) {
                Some(entry) => after.total == watcher.activity.total + 1 && count_of(
                    after.counts,
                    entry.level,
                ) == count_of(watcher.activity.counts, entry.level) + 1,
                None => after == watcher.activity,
            })
            &&& !is_rotated(watcher, found) || watcher.mode == Mode::Selected
                || watcher.counted_pending is Some ==> after == watcher.activity
        }),
{
    let after = polled(watcher, found, delivered).watcher.activity;
    if let Some(entry) = open_entry(watcher) {
        recording_loses_nothing(watcher.activity, seq![entry.level]);
        recording_adds_up(watcher.activity, entry.level);
        reveal_with_fuel(recorded_all, 2);
        assert(seq![entry.level].drop_last() =~= Seq::<Level>::empty());
        assert(recorded_all(watcher.activity, seq![entry.level]) == recorded(
            watcher.activity,
            entry.level,
        ));
    }
    recording_loses_nothing(watcher.activity, Seq::empty());
    assert(has_not_fallen(watcher.activity, watcher.activity));
}

/// Neither measuring a file nor reading it loses anything of the activity; a
/// file that was emptied or could not be read leaves it as it was.
pub proof fn reading_keeps_the_activity(
    watcher: WatcherModel,
    path: Seq<char>,
    told: bool,
    length: Result<u64, String>,
    want: nat,
    bytes: Result<Vec<u8>, String>,
    delivered: bool,
)
    requires
        is_sound(watcher),
        watcher.file is Some,
        bytes matches Ok(bytes) ==> watcher.activity.total + watcher.carry.len() + bytes@.len()
            < u64::MAX,
    ensures
        sized(watcher, path, told, length, delivered).watcher.activity == watcher.activity,
        has_not_fallen(
            watcher.activity,
            taken(watcher, path, told, want, bytes, delivered).watcher.activity,
        ),
        bytes is Err || watcher.mode == Mode::Selected ==> taken(
            watcher,
            path,
            told,
            want,
            bytes,
            delivered,
        ).watcher.activity == watcher.activity,
{
    assert(has_not_fallen(watcher.activity, watcher.activity));
    if let Ok(bytes) = bytes {
        let seen = online_once(watcher, told, delivered);
        lemma_whole_lines(bytes@);
        if whole_lines(bytes@) > 0 && watcher.mode == Mode::Background {
            let lines = bytes@.take(whole_lines(bytes@) as int);
            let closed = newly_closed(seen, lines);
            entries_are_no_more_than_bytes(
                seen.accumulator.unwrap(),
                (seen.offset - seen.carry.len()) as nat,
                seen.carry + lines,
            );
            let levels = levels_to_count(
                seen.counted_pending,
                closed,
                open_entry(parsed_on(seen, lines)),
            );
            recording_loses_nothing(seen.activity, levels);
        }
    }
}

/// Only selecting a project spends its activity: leaving a file, following
/// another one or being demoted keeps it.
pub proof fn only_selecting_spends_the_activity(
    watcher: WatcherModel,
    file: Seq<char>,
    offset: nat,
    selected: Seq<char>,
)
    ensures
        detached(watcher).activity == watcher.activity,
        attached(watcher, file, offset).activity == watcher.activity,
        in_mode(watcher, Mode::Background).activity == watcher.activity,
        in_mode(watcher, Mode::Background).counted_pending == watcher.counted_pending,
        in_mode(watcher, Mode::Selected).activity.total == 0,
        in_mode(watcher, Mode::Selected).counted_pending is None,
        watcher.project_id != selected ==> promoted(watcher, selected).activity
            == watcher.activity,
{
}

/// However a log is cut into chunks of whole lines, a watcher that counts counts
/// of each level exactly the entries that have it.
pub proof fn levels_are_counted_by_the_entries_that_have_them(
    watcher: WatcherModel,
    chunks: Seq<Seq<u8>>,
    level: Level,
)
    requires
        is_sound(watcher),
        watcher.mode == Mode::Background,
        watcher.file is Some,
        watcher.accumulator == Some(fresh(watcher.project_id, watcher.file.unwrap())),
        watcher.carry.len() == 0,
        are_whole_lines(chunks),
        watcher.activity.total + parsed(
            watcher.project_id,
            watcher.file.unwrap(),
            watcher.offset,
            joined_bytes(chunks),
        ).len() <= u64::MAX,
    ensures
        ({
            let entries = parsed(
                watcher.project_id,
                watcher.file.unwrap(),
                watcher.offset,
                joined_bytes(chunks),
            );
            let after = ingested_all(watcher, chunks).activity;
            &&& after.total == watcher.activity.total + entries.len()
            &&& count_of(after.counts, level) == count_of(watcher.activity.counts, level)
                + entries.filter(|entry: EntryModel| entry.level == level).len()
            &&& adds_up(after)
        }),
{
    let entries = parsed(
        watcher.project_id,
        watcher.file.unwrap(),
        watcher.offset,
        joined_bytes(chunks),
    );
    counting_does_not_depend_on_chunks(watcher, chunks);
    let levels = levels_of(entries);
    assert(levels.len() == entries.len());
    recording_a_list_adds_up(watcher.activity, levels);
    let after = recorded_all(watcher.activity, levels);
    assert forall|of: Level| #[trigger] count_of(after.counts, of) == count_of(
        watcher.activity.counts,
        of,
    ) + entries.filter(|entry: EntryModel| entry.level == of).len() by {
        let is_level = |other: Level| other == of;
        let has_level = |entry: EntryModel| entry.level == of;
        lemma_levels_are_filtered(entries, has_level, is_level);
        assert(count_of(after.counts, of) == count_of(watcher.activity.counts, of) + levels.filter(
            is_level,
        ).len());
    }
    assert(count_of(after.counts, level) == count_of(watcher.activity.counts, level)
        + entries.filter(|entry: EntryModel| entry.level == level).len());
}

proof fn lemma_levels_are_filtered(
    entries: Seq<EntryModel>,
    has_level: spec_fn(EntryModel) -> bool,
    is_level: spec_fn(Level) -> bool,
)
    requires
        forall|entry: EntryModel| #[trigger] has_level(entry) == is_level(entry.level),
    ensures
        levels_of(entries).filter(is_level).len() == entries.filter(has_level).len(),
    decreases entries.len(),
{
    reveal(Seq::filter);
    if entries.len() > 0 {
        lemma_levels_are_filtered(entries.drop_last(), has_level, is_level);
        assert(levels_of(entries).drop_last() =~= levels_of(entries.drop_last()));
        assert(levels_of(entries).last() == entries.last().level);
        assert(has_level(entries.last()) == is_level(entries.last().level));
    }
}

/// Where another file takes the place of the one that is followed, it is
/// followed from its start, with nothing open and nothing held of the old one;
/// in a project being read the break says so, and names the new file.
pub proof fn a_rotation_starts_the_new_file_afresh(
    watcher: WatcherModel,
    located: Located,
    delivered: bool,
)
    requires
        watcher.file is Some,
        watcher.file != Some(located.name@),
    ensures
        ({
            let turn = polled(watcher, Ok(Some(located)), delivered);
            let name = located.name@;
            &&& turn.watcher.file == Some(name)
            &&& turn.watcher.generation == watcher.generation + 1
            &&& has_read(turn.watcher, 0, Seq::empty())
            &&& turn.watcher.carry.len() == 0
            &&& turn.watcher.counted_pending is None
            &&& turn.watcher.emitted_pending is None
            &&& turn.step == (StepModel::Measure { path: located.path@, told: true })
            &&& watcher.mode == Mode::Selected ==> turn.events.len() > 0 && turn.events.last()
                == Event::Break(
                BreakModel {
                    id: break_id_text(token_text(name, watcher.generation + 1), 0),
                    project_id: watcher.project_id,
                    kind: BreakKind::Rotated,
                    file: name,
                },
            )
        }),
{
    let turn = polled(watcher, Ok(Some(located)), delivered);
    if watcher.mode == Mode::Selected {
        assert(turn.events.last() is Break);
    }
}

/// Where the file that is followed became shorter, it is read from its start
/// again, with nothing open and nothing held of before; in a project being read
/// the break says so and is named by where reading had come to.
pub proof fn an_emptied_file_starts_afresh(
    watcher: WatcherModel,
    path: Seq<char>,
    told: bool,
    length: u64,
    delivered: bool,
)
    requires
        watcher.file is Some,
        length < watcher.offset,
    ensures
        ({
            let turn = sized(watcher, path, told, Ok(length), delivered);
            let name = watcher.file.unwrap();
            &&& turn.watcher.file == watcher.file
            &&& turn.watcher.generation == watcher.generation + 1
            &&& has_read(turn.watcher, 0, Seq::empty())
            &&& turn.watcher.carry.len() == 0
            &&& turn.watcher.counted_pending is None
            &&& turn.watcher.emitted_pending is None
            &&& watcher.mode == Mode::Selected ==> turn.events.len() > 0 && turn.events.last()
                == Event::Break(
                BreakModel {
                    id: break_id_text(
                        token_text(name, watcher.generation + 1),
                        watcher.offset,
                    ),
                    project_id: watcher.project_id,
                    kind: BreakKind::Cleared,
                    file: name,
                },
            )
            &&& forall|i: int|
                0 <= i < turn.events.len() ==> !(#[trigger] turn.events[i] is Entry)
                    && !(turn.events[i] is Entries)
        }),
{
}

/// The first file that is found is followed without a break and without
/// replaying it; where to start is asked for.
pub proof fn a_first_file_is_followed_quietly(
    watcher: WatcherModel,
    located: Located,
    delivered: bool,
)
    requires
        is_sound(watcher),
        watcher.file is None,
    ensures
        ({
            let turn = polled(watcher, Ok(Some(located)), delivered);
            &&& turn.watcher.file == Some(located.name@)
            &&& turn.watcher.generation == watcher.generation
            &&& turn.watcher.activity == watcher.activity
            &&& turn.watcher.accumulator == Some(fresh(watcher.project_id, located.name@))
            &&& turn.step == (StepModel::Attach { path: located.path@ })
            &&& carry_no_text(turn.events)
            &&& carry_no_activity(turn.events)
        }),
{
}

/// Of a file that was measured, all that follows the place reading has come to
/// is read, up to 8 MB of it; a file that became shorter counts from its start,
/// and where nothing follows nothing is read.
pub proof fn all_that_is_new_is_read(
    watcher: WatcherModel,
    path: Seq<char>,
    told: bool,
    length: u64,
    delivered: bool,
)
    ensures
        ({
            let turn = sized(watcher, path, told, Ok(length), delivered);
            let from = if length < watcher.offset {
                0
            } else {
                watcher.offset
            };
            &&& turn.watcher.offset == from
            &&& from == length <==> turn.step is Idle
            &&& from < length ==> (turn.step matches StepModel::Read { path: read, start, end, .. }
                && read == path && start == from && (if length - from <= 8 * 1024 * 1024 {
                end == length
            } else {
                end == from + 8 * 1024 * 1024
            }))
        }),
{
}

/// Of bytes that were read, exactly those up to the last newline are taken in,
/// and the offset moves by as many. Without a newline they are held where the
/// read was as long as one can be, and left to be read again otherwise.
pub proof fn bytes_are_taken_in_up_to_the_last_newline(
    watcher: WatcherModel,
    path: Seq<char>,
    told: bool,
    want: nat,
    bytes: Vec<u8>,
    delivered: bool,
    last: int,
)
    requires
        is_sound(watcher),
        watcher.file is Some,
        -1 <= last < bytes@.len(),
        last >= 0 ==> bytes@[last] == 10,
        forall|i: int| last < i < bytes@.len() ==> bytes@[i] != 10,
    ensures
        ({
            let turn = taken(watcher, path, told, want, Ok(bytes), delivered);
            let after = turn.watcher;
            &&& last >= 0 ==> {
                &&& after.offset == watcher.offset + last + 1
                &&& after.carry.len() == 0
                &&& after == ingested(online_once(watcher, told, delivered), bytes@.take(last + 1))
            }
            &&& last < 0 && want == 8 * 1024 * 1024 ==> after.offset == watcher.offset
                + bytes@.len() && after.carry == watcher.carry + bytes@ && after.accumulator
                == watcher.accumulator
            &&& last < 0 && want != 8 * 1024 * 1024 ==> after.offset == watcher.offset
                && after.carry == watcher.carry && after.accumulator == watcher.accumulator
            &&& last < 0 ==> carry_no_text(turn.events) && carry_no_activity(turn.events)
        }),
{
    lemma_whole_lines(bytes@);
    assert(whole_lines(bytes@) == last + 1);
}

/// A status that is told says of which project it is, what it is and why, and is
/// not told where it is the last one that arrived.
pub proof fn a_status_says_what_was_seen(watcher: WatcherModel, reason: Seq<char>, delivered: bool)
    ensures
        watcher.announced != Some((StatusState::Offline, Some(reason))) ==> offline_events(
            watcher,
            reason,
            delivered,
        ) == seq![
            Event::Status(
                StatusModel {
                    project_id: watcher.project_id,
                    state: StatusState::Offline,
                    reason: Some(reason),
                },
                delivered,
            ),
        ],
        watcher.announced == Some((StatusState::Offline, Some(reason))) ==> offline_events(
            watcher,
            reason,
            delivered,
        ).len() == 0,
        watcher.announced != Some((StatusState::Online, None::<Seq<char>>)) ==> online_events(
            watcher,
            delivered,
        ) == seq![
            Event::Status(
                StatusModel {
                    project_id: watcher.project_id,
                    state: StatusState::Online,
                    reason: None,
                },
                delivered,
            ),
        ],
        watcher.announced == Some((StatusState::Online, None::<Seq<char>>)) ==> online_events(
            watcher,
            delivered,
        ).len() == 0,
        delivered ==> offline(watcher, reason, delivered).announced == Some(
            (StatusState::Offline, Some(reason)),
        ),
        !delivered ==> offline(watcher, reason, delivered).announced == watcher.announced,
        offline(watcher, reason, delivered).reported == Some(StatusState::Offline),
        online(watcher, delivered).reported == Some(StatusState::Online),
{
}

/// A project that cannot be found tells so and nothing else, and keeps its place
/// in the file; one without a log is online.
pub proof fn a_poll_that_finds_nothing_keeps_the_place(
    watcher: WatcherModel,
    reason: String,
    delivered: bool,
)
    ensures
        ({
            let turn = polled(watcher, Err(reason), delivered);
            &&& turn.step is Idle
            &&& turn.events == offline_events(watcher, reason@, delivered)
            &&& same_place(turn.watcher, watcher)
            &&& turn.watcher.reported == Some(StatusState::Offline)
        }),
        ({
            let turn = polled(watcher, Ok(None), delivered);
            &&& turn.step is Idle
            &&& turn.events == online_events(watcher, delivered)
            &&& same_place(turn.watcher, watcher)
            &&& turn.watcher.reported == Some(StatusState::Online)
        }),
{
}

/// Whether two states of a watcher differ in nothing but what was seen and told
/// of its status.
pub open spec fn same_place(a: WatcherModel, b: WatcherModel) -> bool {
    a == WatcherModel { reported: a.reported, announced: a.announced, backoff: a.backoff, ..b }
}

/// Paging back from an entry that was sent reads the file that entry came from,
/// up to where it stands, in the generation it was sent in.
pub proof fn paging_back_reads_the_file_the_entry_came_from(
    file: Seq<char>,
    offset: u64,
    generation: Generation,
    root: String,
    page: Result<Option<Page>, String>,
)
    requires
        names_a_log(file),
        pages_back(
            stamped_entry_text(file, offset as nat, generation as nat),
            Ok(root),
            page,
        ),
    ensures
        offset == 0 ==> page matches Ok(None),
        offset > 0 ==> (page matches Ok(page) ==> (page matches Some(page) && page.name@ == file
            && page.generation == generation && page.walk@.before == offset)),
{
    an_id_decodes_to_what_was_stamped(file, offset, generation);
}

/// From every entry of a plainly named log that is not at the start of its file,
/// paging back finds a page, below every root that begins with a slash.
pub proof fn every_entry_sent_can_be_paged_back_from(
    file: Seq<char>,
    offset: u64,
    generation: Generation,
    root: String,
    page: Result<Option<Page>, String>,
)
    requires
        names_a_log(file),
        is_plain_name(file),
        forall|i: int|
            0 <= i < file.len() ==> #[trigger] file[i] != ':' && file[i] != '\0' && !(file[i] == '.'
                && i + 1 < file.len() && file[i + 1] == '.'),
        root@.len() > 0,
        root@[0] == '/',
        offset > 0,
        pages_back(
            stamped_entry_text(file, offset as nat, generation as nat),
            Ok(root),
            page,
        ),
    ensures
        page matches Ok(Some(page)) && page.name@ == file && page.generation == generation
            && page.walk@.before == offset,
{
    an_id_decodes_to_what_was_stamped(file, offset, generation);
    let found = choose|found: Result<String, String>|
        #[trigger] resolves_log(root@, file, found) && opens_page(
            file,
            generation,
            offset,
            found,
            page,
        );
    let dir = choose|dir: Seq<char>|
        is_logs_dir(root@, dir) && #[trigger] resolves_name(dir, file, found);
    logs_are_in_storage(root@, dir);
    a_plain_log_name_is_accepted(dir, file, found);
}

/// What is sent of lines that follow others is what the file holds from the
/// entry that was open on, in the order of the file: the entries that were
/// closed as one event, where there are any, and then the open one.
pub proof fn entries_are_sent_in_the_order_of_the_file(
    watcher: WatcherModel,
    start: nat,
    data: Seq<u8>,
    first: Seq<u8>,
    bytes: Seq<u8>,
)
    requires
        watcher.mode == Mode::Selected,
        has_read(watcher, start, data),
        watcher.carry.len() == 0,
        first.len() > 0,
        first.last() == 10,
        bytes.len() > 0,
        bytes.last() == 10,
    ensures
        ({
            let file = watcher.file.unwrap();
            let then = parsed(watcher.project_id, file, start, data + first);
            let now = parsed(watcher.project_id, file, start, data + first + bytes);
            let from = then.len() - 1;
            let closed = now.subrange(from, now.len() - 1);
            let sent = ingesting_events(ingested(watcher, first), bytes);
            &&& 0 <= from < now.len()
            &&& sent.last() == Event::Entry(known_as(now[now.len() - 1], watcher.generation))
            &&& closed.len() == 0 ==> sent.len() == 1
            &&& closed.len() > 0 ==> sent.len() == 2 && sent[0] == Event::Entries(
                closed.map_values(|entry: EntryModel| known_as(entry, watcher.generation)),
            )
        }),
{
    let file = watcher.file.unwrap();
    let id = watcher.project_id;
    let g = watcher.generation;
    let shown = ingested(watcher, first);
    let known = data + first;
    assert(watcher.carry + first =~= first);
    reads_are_parsed_as_one_file(watcher, start, data, first);
    assert(shown.carry + bytes =~= bytes);
    reads_are_parsed_as_one_file(shown, start, known, bytes);
    the_open_entry_is_sent_whenever_it_changes(watcher, start, data, first, bytes);
    let after = ingested(shown, bytes);
    let all = known + bytes;
    lemma_open_entry_of_read(shown, start, known);
    lemma_open_entry_of_read(after, start, all);
    let acc = fresh(id, file);
    let was_closed = closed_by_lines(acc, lines_of(start, known));
    let closed_now = newly_closed(shown, bytes);
    let then = parsed(id, file, start, known);
    let now = parsed(id, file, start, all);
    let open = open_entry(after).unwrap();
    assert(then =~= was_closed.push(open_entry(shown).unwrap()));
    assert(now =~= was_closed + closed_now.push(open));
    let closed = now.subrange(then.len() - 1, now.len() - 1);
    assert(closed =~= closed_now);
    every_entry_is_whole(id, file, start, all);
    let stamped_now = all_stamped(closed_now, g);
    let known_now = closed.map_values(|entry: EntryModel| known_as(entry, g));
    assert forall|k: int| 0 <= k < closed.len() implies stamped_now[k] == known_now[k] by {
        assert(is_whole(now[then.len() - 1 + k], id, file));
        lemma_sent_as_known(closed[k], file, g);
    }
    assert(stamped_now =~= known_now);
}

/// Starting over, or following another file, forgets what belongs to the file
/// that is left and nothing else: ids go on from where they were.
pub proof fn starting_over_keeps_the_generation(
    watcher: WatcherModel,
    file: Seq<char>,
    offset: nat,
    mode: Mode,
)
    ensures
        detached(watcher).generation == watcher.generation,
        attached(watcher, file, offset).generation == watcher.generation,
        in_mode(watcher, mode).generation == watcher.generation,
        detached(watcher).file is None && detached(watcher).offset == 0 && detached(
            watcher,
        ).carry.len() == 0 && open_entry(detached(watcher)) is None,
        attached(watcher, file, offset).file == Some(file) && attached(
            watcher,
            file,
            offset,
        ).offset == offset && attached(watcher, file, offset).carry.len() == 0 && open_entry(
            attached(watcher, file, offset),
        ) is None,
        keeps_what_is_told(detached(watcher), watcher),
        keeps_what_is_told(attached(watcher, file, offset), watcher),
        keeps_what_is_told(in_mode(watcher, mode), watcher),
{
}

/// Whether two states of a watcher are of the same project and target, and agree
/// in what was seen and told of its status.
pub open spec fn keeps_what_is_told(a: WatcherModel, b: WatcherModel) -> bool {
    &&& a.project_id == b.project_id
    &&& a.root == b.root
    &&& a.target == b.target
    &&& a.reported == b.reported
    &&& a.announced == b.announced
    &&& a.backoff == b.backoff
}

/// What is sent of activity is the whole of it as it then is, with the project
/// it is of.
pub proof fn activity_is_sent_as_it_is(watcher: WatcherModel, bytes: Seq<u8>)
    requires
        watcher.mode == Mode::Background,
    ensures
        forall|i: int|
            0 <= i < ingesting_events(watcher, bytes).len() ==> #[trigger] ingesting_events(
                watcher,
                bytes,
            )[i] == Event::Activity(
                ActivityPayloadModel {
                    project_id: watcher.project_id,
                    activity: ingested(watcher, bytes).activity,
                },
            ),
        forall|i: int|
            0 <= i < closing_events(watcher).len() ==> #[trigger] closing_events(watcher)[i]
                == Event::Activity(
                ActivityPayloadModel {
                    project_id: watcher.project_id,
                    activity: closed(watcher).activity,
                },
            ),
{
}

/// The entry that is open when a project being read leaves a file is sent in its
/// final form, unless it was sent as it is.
pub proof fn leaving_a_file_sends_its_last_entry(
    watcher: WatcherModel,
    start: nat,
    data: Seq<u8>,
)
    requires
        watcher.mode == Mode::Selected,
        has_read(watcher, start, data),
        watcher.emitted_pending is None,
    ensures
        data.len() == 0 ==> closing_events(watcher).len() == 0,
        data.len() > 0 ==> closing_events(watcher) == seq![
            Event::Entry(
                known_as(
                    parsed(watcher.project_id, watcher.file.unwrap(), start, data).last(),
                    watcher.generation,
                ),
            ),
        ],
{
    lemma_open_entry_of_read(watcher, start, data);
    if let Some(entry) = open_entry(watcher) {
        lemma_sent_as_known(entry, watcher.file.unwrap(), watcher.generation);
        assert(closing_events(watcher) =~= seq![
            Event::Entry(known_as(entry, watcher.generation)),
        ]);
    }
}

/// What a watcher is said to hold on to is all the text of its open entry, the
/// bytes it holds, its file's name and its two bookmarks, and sixteen bytes for
/// each level that was counted.
pub proof fn all_that_is_retained_is_counted(watcher: WatcherModel)
    ensures
        open_entry(watcher) matches Some(entry) ==> retained_text(watcher) == encode_utf8(
            entry.raw,
        ).len() + encode_utf8(entry.context).len() + encode_utf8(entry.message).len(),
        open_entry(watcher) is None ==> retained_text(watcher) == 0,
        retained_state(watcher) >= retained_text(watcher) + watcher.carry.len()
            + watcher.activity.counts.len() * 16,
        watcher.file matches Some(file) ==> retained_state(watcher) >= retained_text(watcher)
            + watcher.carry.len() + watcher.activity.counts.len() * 16 + encode_utf8(file).len(),
{
}

/// Where to look is decided by the target: nowhere below a root that is refused,
/// for the newest log where none was picked, and otherwise for the one that was,
/// under its own name.
pub proof fn the_target_decides_where_to_look(
    target: TargetModel,
    root: Result<String, String>,
    probe: Probe,
)
    requires
        looks_for(target, root, probe),
    ensures
        root matches Err(refused) ==> (probe matches Probe::Refused(reason) && reason@ == refused@),
        root is Ok && target is Latest ==> probe is Newest,
        root is Ok ==> (target matches TargetModel::File(name) ==> {
            ||| probe matches Probe::Named { name: probed, .. } && probed@ == name
            ||| probe is Refused
        }),
        probe is Newest ==> root is Ok && target is Latest,
        probe is Named ==> root is Ok && target is File,
{
}

} // verus!
