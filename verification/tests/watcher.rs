use std::cell::RefCell;
use std::collections::{BTreeSet, HashSet};

use logdeck::activity::ActivityPayload;
use logdeck::files::{
    canonical_root, list_files, newest_log, FileMeta, Listing, Located, Moment,
};
use logdeck::ids::{decode_entry_id, stamped_entry_id};
use logdeck::model::{Break, BreakKind, EntryId, Level, LogEntry, ProjectId, StreamItem};
use logdeck::paths::logs_dir;
use logdeck::sink::{
    Emitted, EventSink, Recorder, StatusPayload, StatusState, EVENT_ACTIVITY, EVENT_BREAK,
    EVENT_ENTRIES, EVENT_ENTRY, EVENT_STATUS,
};
use logdeck::watcher::{
    named_log, Mode, Page, Probe, Step, Target, WatcherState, MAX_BACKOFF, MAX_READ_PER_POLL,
    POLL_INTERVAL,
};
use logdeck::watchers::Watchers;
use logdeck::window::{
    is_headerless, read_window, Window, WindowStep, WindowWalk, WINDOW_ENTRIES, WINDOW_MAX_BYTES,
};

struct LogOnDisk {
    name: String,
    bytes: Vec<u8>,
    modified: i64,
}

/// A project folder held in memory: what its path resolves to, and the files in
/// its logs directory. Every write is a second later than the one before.
struct Disk {
    root: String,
    resolves_to: Option<String>,
    has_logs_dir: bool,
    files: Vec<LogOnDisk>,
    unreadable: bool,
    now: i64,
}

impl Disk {
    fn new(root: &str) -> Disk {
        Disk {
            root: root.to_owned(),
            resolves_to: Some(root.to_owned()),
            has_logs_dir: true,
            files: Vec::new(),
            unreadable: false,
            now: 1_786_000_000,
        }
    }

    fn append(&mut self, name: &str, text: &str) {
        self.now += 1;
        let now = self.now;
        if let Some(file) = self.files.iter_mut().find(|file| file.name == name) {
            file.bytes.extend_from_slice(text.as_bytes());
            file.modified = now;
            return;
        }
        self.files.push(LogOnDisk {
            name: name.to_owned(),
            bytes: text.as_bytes().to_vec(),
            modified: now,
        });
    }

    fn truncate(&mut self, name: &str) {
        self.now += 1;
        let now = self.now;
        for file in &mut self.files {
            if file.name == name {
                file.bytes.clear();
                file.modified = now;
            }
        }
    }

    fn resolved(&self) -> Result<String, String> {
        self.resolves_to
            .clone()
            .ok_or_else(|| "No such file or directory".to_owned())
    }

    fn dir(&self) -> String {
        logs_dir(&self.root)
    }

    fn seen(&self, dir: &str) -> Result<Vec<Listing>, String> {
        if !self.has_logs_dir || dir != self.dir() {
            return Err("No such file or directory".to_owned());
        }
        Ok(self
            .files
            .iter()
            .map(|file| Listing {
                name: file.name.clone(),
                meta: Some(FileMeta {
                    is_file: true,
                    bytes: file.bytes.len() as u64,
                    modified: Some(Moment {
                        seconds: file.modified,
                        nanos: 0,
                    }),
                }),
            })
            .collect())
    }

    fn at(&self, path: &str) -> Option<&LogOnDisk> {
        let dir = self.dir();
        self.files
            .iter()
            .find(|file| path == format!("{dir}/{}", file.name))
    }

    fn length(&self, path: &str) -> Result<u64, String> {
        self.at(path)
            .map(|file| file.bytes.len() as u64)
            .ok_or_else(|| "gone".to_owned())
    }

    fn read(&self, path: &str, start: u64, end: u64) -> Result<Vec<u8>, String> {
        if self.unreadable {
            return Err("Permission denied".to_owned());
        }
        let file = self.at(path).ok_or_else(|| "gone".to_owned())?;
        let end = (end as usize).min(file.bytes.len());
        let start = (start as usize).min(end);
        Ok(file.bytes[start..end].to_vec())
    }

    fn find(&self, state: &WatcherState) -> Result<Option<Located>, String> {
        match state.locate(self.resolved()) {
            Probe::Refused(reason) => Err(reason),
            Probe::Newest { dir } => {
                let seen = self.seen(&dir);
                newest_log(&dir, seen)
            }
            Probe::Named { name, path } => {
                let is_file = self.at(&path).is_some();
                named_log(name, path, is_file)
            }
        }
    }

    fn poll<S: EventSink>(&self, state: &mut WatcherState, sink: &mut S) {
        let found = self.find(state);
        match state.poll(sink, found) {
            Step::Attach { path } => state.start_at(self.length(&path).ok()),
            Step::Measure { path, told } => {
                let length = self.length(&path);
                if let Step::Read {
                    path,
                    told,
                    start,
                    end,
                } = state.measured(sink, path, told, length)
                {
                    let bytes = self.read(&path, start, end);
                    state.received(sink, &path, told, end - start, bytes);
                }
            }
            _ => {}
        }
    }

    fn window(&self, project_id: &ProjectId, page: Page) -> Window {
        let mut walk = page.walk;
        loop {
            let (start, end) = walk.range();
            let bytes = self.read(&page.path, start, end).expect("read");
            match read_window(project_id, &page.name, page.generation, walk, &bytes) {
                WindowStep::Again(longer) => walk = longer,
                WindowStep::Done(window) => return window,
            }
        }
    }

    fn open(&self, state: &mut WatcherState) -> Result<Vec<StreamItem>, String> {
        let found = self.find(state);
        let Some(located) = state.open(found)? else {
            return Ok(Vec::new());
        };
        let length = self.length(&located.path);
        let name = located.name.clone();
        let page = state.opening(located, length)?;
        let window = self.window(state.project_id(), page);
        Ok(state.opened(name, window))
    }

    fn earlier(&self, state: &WatcherState, id: &str) -> Result<Vec<StreamItem>, String> {
        match state.earlier(id, self.resolved())? {
            Some(page) => Ok(self.window(state.project_id(), page).items),
            None => Ok(Vec::new()),
        }
    }
}

/// A page of a file held as text, up to `before`.
fn window_of(text: &str, before: u64, generation: u64) -> Window {
    let project_id = ProjectId::from_canonical("/srv/api");
    let bytes = text.as_bytes();
    let mut walk = WindowWalk::new(before);
    loop {
        let (start, end) = walk.range();
        let part = &bytes[start as usize..end as usize];
        match read_window(&project_id, "laravel.log", generation, walk, part) {
            WindowStep::Again(longer) => walk = longer,
            WindowStep::Done(window) => return window,
        }
    }
}

fn watcher(disk: &Disk, mode: Mode) -> WatcherState {
    WatcherState::new(
        ProjectId::from_canonical(&disk.root),
        disk.root.clone(),
        mode,
    )
}

fn entries(sink: &Recorder) -> Vec<LogEntry> {
    sink.events
        .iter()
        .flat_map(|event| match event {
            Emitted::Entry(entry) => vec![entry.clone()],
            Emitted::Entries(batch) => batch.clone(),
            _ => Vec::new(),
        })
        .collect()
}

/// How many entries each batch carried.
fn batches(sink: &Recorder) -> Vec<usize> {
    sink.events
        .iter()
        .filter_map(|event| match event {
            Emitted::Entries(batch) => Some(batch.len()),
            _ => None,
        })
        .collect()
}

fn breaks(sink: &Recorder) -> Vec<Break> {
    sink.events
        .iter()
        .filter_map(|event| match event {
            Emitted::Break(brk) => Some(brk.clone()),
            _ => None,
        })
        .collect()
}

fn statuses(sink: &Recorder) -> Vec<StatusPayload> {
    sink.events
        .iter()
        .filter_map(|event| match event {
            Emitted::Status(status) => Some(status.clone()),
            _ => None,
        })
        .collect()
}

fn activities(sink: &Recorder) -> Vec<ActivityPayload> {
    sink.events
        .iter()
        .filter_map(|event| match event {
            Emitted::Activity(activity) => Some(activity.clone()),
            _ => None,
        })
        .collect()
}

fn entry_of(item: &StreamItem) -> &LogEntry {
    match item {
        StreamItem::Entry(entry) => entry,
        StreamItem::Break(_) => panic!("windows carry Entries"),
    }
}

fn entry_text(index: usize) -> String {
    format!(
        "[2026-08-14 01:28:{:02}] local.ERROR: boom {index}\n",
        index % 60
    )
}

/// A real Laravel exception as Monolog flattens it: one header, a JSON context
/// on the same line, `[stacktrace]`, and `frames` numbered frames.
fn trace_entry(frames: usize) -> String {
    let mut text = String::from(
        "[2026-08-14 01:28:07] local.ERROR: Undefined variable $user \
         {\"exception\":\"[object] (ErrorException(code: 0): Undefined variable $user \
         at /app/Http/Controllers/UserController.php:42)\"}\n[stacktrace]\n",
    );
    for frame in 0..frames {
        text.push_str(&format!(
            "#{frame} /app/vendor/laravel/framework/src/Illuminate/Routing/Controller.php({frame}): \
             App\\Http\\Controllers\\UserController->show()\n"
        ));
    }
    text
}

#[test]
fn the_offset_advances_only_past_the_last_newline() {
    let mut disk = Disk::new("/srv/api");
    disk.append("laravel.log", "[2026-08-14 01:28:00] local.INFO: seed\n");

    let mut state = watcher(&disk, Mode::Selected);
    let mut sink = Recorder::new();
    disk.poll(&mut state, &mut sink);
    let attached = state.offset();
    sink.take();

    // A record caught mid-write: a whole line, then half of one.
    let whole = "[2026-08-14 01:28:01] local.ERROR: complete\n";
    let half = "[2026-08-14 01:28:02] local.ERROR: torn";
    disk.append("laravel.log", whole);
    disk.append("laravel.log", half);

    disk.poll(&mut state, &mut sink);

    assert_eq!(
        state.offset(),
        attached + whole.len() as u64,
        "the torn line is not consumed"
    );
    let emitted = entries(&sink);
    assert_eq!(emitted.len(), 1, "{emitted:#?}");
    assert_eq!(emitted[0].message, "complete");
    assert!(
        !emitted.iter().any(|entry| entry.raw.contains("torn")),
        "a half-written line must not be parsed as garbage: {emitted:#?}"
    );

    // The rest of the record lands, and the whole line is read again intact.
    sink.take();
    disk.append("laravel.log", " but finished\n");
    disk.poll(&mut state, &mut sink);

    let emitted = entries(&sink);
    assert_eq!(
        emitted.last().map(|entry| entry.message.as_str()),
        Some("torn but finished"),
        "{emitted:#?}"
    );
    assert_eq!(
        state.offset(),
        disk.files[0].bytes.len() as u64,
        "everything through the last newline is now consumed"
    );
}

#[test]
fn a_line_longer_than_one_polls_read_is_not_split_by_a_spurious_newline() {
    let mut disk = Disk::new("/srv/api");
    disk.append("laravel.log", "");

    let mut state = watcher(&disk, Mode::Selected);
    let mut sink = Recorder::new();
    disk.poll(&mut state, &mut sink);
    sink.take();

    // One line larger than the ceiling on how much a single poll takes in.
    let header = "[2026-08-14 01:28:00] local.ERROR: ";
    let blob = "x".repeat(MAX_READ_PER_POLL as usize + 512 * 1024);
    let line = format!("{header}{blob}");
    disk.append("laravel.log", &line);

    // The first poll takes its share but hands the parser nothing.
    disk.poll(&mut state, &mut sink);
    assert!(
        sink.take()
            .iter()
            .all(|event| matches!(event, Emitted::Status(_))),
        "no Entry is emitted from half a line"
    );
    assert_eq!(
        state.offset(),
        MAX_READ_PER_POLL,
        "the ceiling was taken off the file"
    );

    // The remainder is under the ceiling and still has no newline, so it waits.
    disk.poll(&mut state, &mut sink);
    assert!(sink.take().is_empty());

    disk.append("laravel.log", "\n");
    disk.poll(&mut state, &mut sink);

    let found = entries(&sink);
    assert_eq!(found.len(), 1, "one line is one Entry");
    assert!(
        found[0].raw == line,
        "`raw` is the file's bytes verbatim, with no newline the file never held"
    );
    assert!(
        !found[0].raw.contains('\n') && found[0].context.is_empty(),
        "the line was not split across the poll boundary"
    );
    assert_eq!(found[0].offset, 0, "the Entry starts where the line does");
    assert_eq!(
        state.offset(),
        disk.files[0].bytes.len() as u64,
        "the whole line is consumed exactly once"
    );
}

#[test]
fn an_append_larger_than_one_polls_read_resumes_on_the_next_tick() {
    let mut disk = Disk::new("/srv/api");
    disk.append("laravel.log", "");

    let mut state = watcher(&disk, Mode::Selected);
    let mut sink = Recorder::new();
    disk.poll(&mut state, &mut sink);
    sink.take();

    let padding = "y".repeat(100 * 1024);
    let count = 100usize;
    let mut batch = String::new();
    for index in 0..count {
        batch.push_str(&entry_text(index));
        batch.push_str(&padding);
        batch.push('\n');
    }
    assert!(batch.len() > MAX_READ_PER_POLL as usize);
    disk.append("laravel.log", &batch);

    let mut polls = 0;
    while state.offset() < disk.files[0].bytes.len() as u64 {
        disk.poll(&mut state, &mut sink);
        polls += 1;
        assert!(polls < 10, "the tail is making progress");
    }
    assert!(polls > 1, "the append really did span more than one poll");

    let mut seen: Vec<(EntryId, String)> = Vec::new();
    for entry in entries(&sink) {
        // The pending Entry is sent again as it grows, so identity is what must
        // be unique, not the number of events.
        if !seen.iter().any(|(id, _)| *id == entry.id) {
            seen.push((entry.id.clone(), entry.message.clone()));
        }
    }
    assert_eq!(seen.len(), count, "every Entry arrived exactly once");
    for (index, (_, message)) in seen.iter().enumerate() {
        assert_eq!(message, &format!("boom {index}"), "in order, none lost");
    }
}

#[test]
fn the_pending_entry_is_emitted_immediately_and_revised_under_one_id() {
    let mut disk = Disk::new("/srv/api");
    disk.append("laravel.log", "");

    let mut state = watcher(&disk, Mode::Selected);
    let mut sink = Recorder::new();
    disk.poll(&mut state, &mut sink);
    sink.take();

    disk.append("laravel.log", "[2026-08-14 01:28:00] local.ERROR: boom\n");
    disk.poll(&mut state, &mut sink);
    let first = sink.take();
    let opened = match first.first() {
        Some(Emitted::Entry(entry)) => entry.clone(),
        other => panic!("expected the pending Entry immediately, got {other:#?}"),
    };
    assert_eq!(opened.context, "");

    disk.append("laravel.log", "#0 /app/x.php(42)\n");
    disk.poll(&mut state, &mut sink);
    let revised = entries(&sink);
    assert_eq!(revised.len(), 1, "{revised:#?}");
    assert_eq!(revised[0].id, opened.id, "revised in place");
    assert_eq!(revised[0].context, "#0 /app/x.php(42)");
}

#[test]
fn a_burst_of_entries_crosses_the_boundary_as_one_batched_event() {
    let mut disk = Disk::new("/srv/api");
    disk.append("laravel.log", "");

    let mut state = watcher(&disk, Mode::Selected);
    let mut sink = Recorder::new();
    disk.poll(&mut state, &mut sink);
    sink.take();

    let count = 2_000usize;
    let burst: String = (0..count).map(entry_text).collect();
    assert!(burst.len() < MAX_READ_PER_POLL as usize);
    disk.append("laravel.log", &burst);

    disk.poll(&mut state, &mut sink);

    assert_eq!(
        batches(&sink),
        vec![count - 1],
        "one event carried the whole tick's closed Entries; the last one is \
         still pending and is emitted on its own"
    );
    let found = entries(&sink);
    assert_eq!(found.len(), count, "nothing was lost to the batching");
    assert_eq!(found[0].message, "boom 0");
    assert_eq!(found[count - 1].message, format!("boom {}", count - 1));
    assert!(
        found.windows(2).all(|pair| pair[0].offset < pair[1].offset),
        "the batch preserves file order"
    );
}

#[test]
fn an_idle_file_re_emits_nothing() {
    let mut disk = Disk::new("/srv/api");
    disk.append("laravel.log", "");

    let mut state = watcher(&disk, Mode::Selected);
    let mut sink = Recorder::new();
    disk.poll(&mut state, &mut sink);
    disk.append("laravel.log", "[2026-08-14 01:28:00] local.ERROR: boom\n");
    disk.poll(&mut state, &mut sink);
    sink.take();

    disk.poll(&mut state, &mut sink);
    disk.poll(&mut state, &mut sink);

    assert!(
        sink.events.is_empty(),
        "an unchanged pending Entry must not be re-sent every tick: {:#?}",
        sink.events
    );
}

#[test]
fn the_event_names_match_the_frozen_ipc_contract() {
    assert_eq!(EVENT_ENTRY, "log:entry");
    assert_eq!(EVENT_ENTRIES, "log:entries");
    assert_eq!(EVENT_BREAK, "log:break");
    assert_eq!(EVENT_ACTIVITY, "project:activity");
    assert_eq!(EVENT_STATUS, "project:status");
}

#[test]
fn truncation_breaks_the_record_without_clearing_the_client() {
    let mut disk = Disk::new("/srv/api");
    disk.append("laravel.log", "[2026-08-14 01:28:00] local.ERROR: before\n");

    let mut state = watcher(&disk, Mode::Selected);
    let mut sink = Recorder::new();
    disk.poll(&mut state, &mut sink);
    let before_offset = state.offset();
    assert!(before_offset > 0);
    sink.take();

    disk.truncate("laravel.log");
    disk.poll(&mut state, &mut sink);

    let found = breaks(&sink);
    assert_eq!(found.len(), 1, "{found:#?}");
    assert_eq!(found[0].kind, BreakKind::Cleared);
    assert_eq!(found[0].file, "laravel.log");
    assert_eq!(
        found[0].id.as_str(),
        format!("laravel.log@1:{before_offset}:break")
    );
    assert_eq!(state.offset(), 0, "the offset resets to 0");

    // The only event is the Break. Nothing instructs the client to discard what
    // it already holds.
    let events = sink.take();
    assert_eq!(events.len(), 1, "{events:#?}");

    disk.append("laravel.log", "[2026-08-14 01:28:01] local.INFO: after\n");
    disk.poll(&mut state, &mut sink);
    let found = entries(&sink);
    assert_eq!(found.len(), 1, "{found:#?}");
    assert_eq!(found[0].message, "after");
    assert_eq!(found[0].offset, 0, "the new file starts at 0");
    assert_eq!(found[0].id.as_str(), "laravel.log@1:0");
}

#[test]
fn a_newer_dated_file_breaks_the_record_and_is_followed() {
    let mut disk = Disk::new("/srv/api");
    disk.append(
        "laravel-2026-08-13.log",
        "[2026-08-13 23:59:59] local.INFO: yesterday\n",
    );

    let mut state = watcher(&disk, Mode::Selected);
    let mut sink = Recorder::new();
    disk.poll(&mut state, &mut sink);
    assert_eq!(state.file(), Some("laravel-2026-08-13.log"));
    sink.take();

    disk.append(
        "laravel-2026-08-14.log",
        "[2026-08-14 00:00:00] local.ERROR: today\n",
    );
    disk.poll(&mut state, &mut sink);

    let found = breaks(&sink);
    assert_eq!(found.len(), 1, "{found:#?}");
    assert_eq!(found[0].kind, BreakKind::Rotated);
    assert_eq!(
        found[0].file, "laravel-2026-08-14.log",
        "the Break names the file in effect after it"
    );
    assert_eq!(state.file(), Some("laravel-2026-08-14.log"));

    let found = entries(&sink);
    assert_eq!(found.len(), 1, "{found:#?}");
    assert_eq!(found[0].message, "today", "the new file is read from 0");
    assert_eq!(found[0].file, "laravel-2026-08-14.log");
}

#[test]
fn the_backward_window_stops_at_five_hundred_entries() {
    let mut text = String::new();
    for index in 0..2_000 {
        text.push_str(&entry_text(index));
    }
    let window = window_of(&text, text.len() as u64, 0);

    assert_eq!(window.items.len(), WINDOW_ENTRIES, "500 Entries, no more");
    let first = entry_of(&window.items[0]);
    assert!(
        !is_headerless(first),
        "the leading partial Entry is discarded: {first:#?}"
    );
    assert_eq!(first.message, "boom 1500");
    assert_eq!(window.first_offset, first.offset);
}

#[test]
fn the_backward_window_stops_at_two_megabytes() {
    // Entries far larger than 2 MB / 500, so the byte cap binds first.
    let frames = "#0 /var/www/app/Http/Controllers/UserController.php(42)\n".repeat(200);
    let mut text = String::new();
    for index in 0..700 {
        text.push_str(&entry_text(index));
        text.push_str(&frames);
    }
    let len = text.len() as u64;
    assert!(
        len > 2 * WINDOW_MAX_BYTES,
        "the fixture must exceed the cap, got {len} bytes"
    );

    let window = window_of(&text, len, 0);

    assert!(
        window.items.len() < WINDOW_ENTRIES,
        "the byte cap bound first, so fewer than 500 Entries came back"
    );
    assert!(
        len - window.first_offset <= WINDOW_MAX_BYTES,
        "no more than 2 MB is read"
    );
    let first = entry_of(&window.items[0]);
    assert!(
        !is_headerless(first),
        "the window never opens mid-trace: {:?}",
        first.message
    );
}

#[test]
fn a_short_file_is_returned_whole_from_its_first_byte() {
    let text = (0..3).map(entry_text).collect::<String>();
    let window = window_of(&text, text.len() as u64, 0);

    assert_eq!(window.items.len(), 3, "{:#?}", window.items);
    assert_eq!(window.first_offset, 0, "the start of file is reached");
}

#[test]
fn load_earlier_pages_back_from_a_supplied_offset() {
    let text = (0..1_200).map(entry_text).collect::<String>();
    let first = window_of(&text, text.len() as u64, 0);
    let earlier = window_of(&text, first.first_offset, 0);

    let last_earlier = entry_of(earlier.items.last().expect("entries"));
    assert!(
        last_earlier.offset < first.first_offset,
        "the earlier page ends where the first began, with no overlap"
    );
    assert_eq!(last_earlier.message, "boom 699");
    assert_eq!(earlier.items.len(), WINDOW_ENTRIES);
}

#[test]
fn an_entry_id_decodes_back_into_the_file_generation_and_offset_it_was_stamped_from() {
    for (file, generation, offset) in [
        ("laravel.log", 0u64, 0u64),
        ("laravel.log", 0, 4_096),
        ("laravel-2026-08-14.log", 3, 184_320),
        // A file the user's channel named with the salt's own separator.
        ("laravel@2.log", 0, 12),
        ("laravel@2.log", 7, 12),
    ] {
        let id = stamped_entry_id(file, offset, generation);
        assert_eq!(
            decode_entry_id(id.as_str()).expect("decode"),
            (file.to_owned(), generation, offset),
            "round trip failed for {}",
            id.as_str()
        );
    }

    assert!(decode_entry_id("laravel.log").is_err(), "no offset");
    assert!(decode_entry_id("laravel.log:nope").is_err(), "not a number");
}

#[test]
fn load_earlier_pages_the_file_the_entry_came_from_not_the_one_being_tailed() {
    let mut disk = Disk::new("/srv/api");
    let history: String = (0..1_200)
        .map(|index| format!("[2026-08-13 23:59:59] local.INFO: old {index}\n"))
        .collect();
    disk.append("laravel-2026-08-13.log", &history);

    let mut state = watcher(&disk, Mode::Selected);
    let mut sink = Recorder::new();
    let opening = disk.open(&mut state).expect("opening window");
    let oldest_held = entry_of(opening.first().expect("a window")).clone();
    assert_eq!(oldest_held.file, "laravel-2026-08-13.log");

    // Midnight: the log rotates, and the record breaks.
    disk.append(
        "laravel-2026-08-14.log",
        "[2026-08-14 00:00:00] local.ERROR: today\n",
    );
    disk.poll(&mut state, &mut sink);
    assert_eq!(breaks(&sink).len(), 1, "the record broke");
    assert_eq!(state.file(), Some("laravel-2026-08-14.log"));

    // Now page back above the Break, from the oldest Entry actually held.
    let earlier = disk
        .earlier(&state, oldest_held.id.as_str())
        .expect("page earlier across the Break");

    assert!(!earlier.is_empty(), "the page must not come back empty");
    for item in &earlier {
        let entry = entry_of(item);
        assert_eq!(
            entry.file, "laravel-2026-08-13.log",
            "the page comes from the file the Entry came from"
        );
        assert!(
            entry.offset < oldest_held.offset,
            "and sits strictly above what is already held"
        );
        assert!(
            entry.message.starts_with("old "),
            "not a line from today's file: {}",
            entry.message
        );
        assert_ne!(
            entry.id, oldest_held.id,
            "and cannot collide with what is held"
        );
    }
}

#[test]
fn a_second_truncation_of_the_same_file_cannot_reuse_the_first_ones_ids() {
    let mut disk = Disk::new("/srv/api");
    disk.append(
        "laravel.log",
        "[2026-08-14 01:28:00] local.ERROR: original\n",
    );

    let mut state = watcher(&disk, Mode::Selected);
    let mut sink = Recorder::new();
    disk.poll(&mut state, &mut sink);
    sink.take();

    let mut ids = Vec::new();
    for round in 0..3 {
        disk.truncate("laravel.log");
        disk.poll(&mut state, &mut sink);
        disk.append(
            "laravel.log",
            &format!("[2026-08-14 01:28:0{round}] local.ERROR: round {round}\n"),
        );
        disk.poll(&mut state, &mut sink);

        let entry = entries(&sink)
            .into_iter()
            .find(|entry| entry.message == format!("round {round}"))
            .unwrap_or_else(|| panic!("round {round} was emitted"));
        assert_eq!(entry.offset, 0, "every clear restarts the file at 0");
        ids.push(entry.id.clone());

        let brk = breaks(&sink)
            .pop()
            .unwrap_or_else(|| panic!("round {round} broke the record"));
        assert_eq!(brk.kind, BreakKind::Cleared);
        sink.take();
    }

    let unique: HashSet<_> = ids.iter().collect();
    assert_eq!(
        unique.len(),
        ids.len(),
        "the first Entry after each clear must be distinct from the first \
         Entry after every earlier one: {ids:?}"
    );
}

#[test]
fn a_project_root_replaced_by_a_symlink_is_refused_rather_than_read() {
    let mut disk = Disk::new("/srv/api");

    let mut state = watcher(&disk, Mode::Selected);
    let mut sink = Recorder::new();
    disk.poll(&mut state, &mut sink);
    sink.take();

    // The root now leads somewhere the user never chose.
    disk.resolves_to = Some("/srv/elsewhere".to_owned());
    disk.append(
        "laravel.log",
        "[2026-08-14 01:28:00] local.ERROR: not yours\n",
    );
    disk.poll(&mut state, &mut sink);

    assert!(
        entries(&sink).is_empty(),
        "nothing from outside the registered folder is read: {:#?}",
        entries(&sink)
    );
    let found = statuses(&sink);
    assert_eq!(found.len(), 1, "{found:#?}");
    assert_eq!(found[0].state, StatusState::Offline);
    assert_eq!(
        found[0].reason.as_deref(),
        Some("/srv/api no longer resolves to itself"),
        "the confinement failure is named"
    );
    let root = canonical_root("/srv/api", disk.resolved());
    assert!(
        list_files(root, disk.seen("/srv/elsewhere/storage/logs")).is_err(),
        "listing is confined by the same check as tailing"
    );
}

#[test]
fn an_unavailable_path_goes_offline_backs_off_and_reattaches_unaided() {
    let mut disk = Disk::new("/srv/api");
    disk.append("laravel.log", "[2026-08-14 01:28:00] local.INFO: before\n");

    let mut state = watcher(&disk, Mode::Selected);
    let mut sink = Recorder::new();
    disk.poll(&mut state, &mut sink);
    assert_eq!(state.interval(), POLL_INTERVAL);
    sink.take();

    disk.resolves_to = None;
    disk.poll(&mut state, &mut sink);

    let found = sink.take();
    assert_eq!(found.len(), 1, "{found:#?}");
    let status = match &found[0] {
        Emitted::Status(status) => status,
        other => panic!("expected a status event, got {other:#?}"),
    };
    assert_eq!(status.state, StatusState::Offline);
    assert_eq!(
        status.reason.as_deref(),
        Some("cannot resolve /srv/api: No such file or directory"),
        "offline says why"
    );
    assert_eq!(state.interval(), POLL_INTERVAL, "the first retry is prompt");

    // It keeps retrying, backing off toward 5 s and never giving up.
    let mut intervals = Vec::new();
    for _ in 0..8 {
        disk.poll(&mut state, &mut sink);
        intervals.push(state.interval());
    }
    assert!(
        intervals.windows(2).all(|pair| pair[1] >= pair[0]),
        "the backoff never shortens while offline: {intervals:?}"
    );
    assert_eq!(
        intervals,
        vec![600, 1200, 2400, 4800, 5000, 5000, 5000, 5000]
    );
    assert_eq!(
        intervals.last(),
        Some(&MAX_BACKOFF),
        "it walks up to 5 s: {intervals:?}"
    );
    assert!(
        sink.take().is_empty(),
        "offline is reported on the transition, not every retry"
    );

    // It comes back. Nothing asks it to reattach.
    disk.resolves_to = Some("/srv/api".to_owned());
    disk.append("laravel.log", "[2026-08-14 01:28:01] local.ERROR: after\n");
    disk.poll(&mut state, &mut sink);

    let found = statuses(&sink);
    assert_eq!(found.len(), 1, "{found:#?}");
    assert_eq!(found[0].state, StatusState::Online);
    assert_eq!(state.interval(), POLL_INTERVAL, "the backoff is spent");
    let found = entries(&sink);
    assert_eq!(
        found.last().map(|entry| entry.message.as_str()),
        Some("after"),
        "tailing resumes where it left off: {found:#?}"
    );
}

#[test]
fn an_empty_logs_directory_is_online_with_nothing_to_read() {
    let disk = Disk::new("/srv/api");

    let mut state = watcher(&disk, Mode::Selected);
    let mut sink = Recorder::new();
    disk.poll(&mut state, &mut sink);

    let found = statuses(&sink);
    assert_eq!(found.len(), 1, "{found:#?}");
    assert_eq!(found[0].state, StatusState::Online);
    assert_eq!(state.file(), None);
}

#[test]
fn a_pinned_target_that_escapes_the_logs_directory_is_refused() {
    let disk = Disk::new("/srv/api");
    let mut state = watcher(&disk, Mode::Selected);
    let mut sink = Recorder::new();

    state.set_target(Target::File("../../../etc/passwd.log".into()));
    disk.poll(&mut state, &mut sink);

    let found = statuses(&sink);
    assert_eq!(found.len(), 1, "{found:#?}");
    assert_eq!(found[0].state, StatusState::Offline);
    assert_eq!(
        found[0].reason.as_deref(),
        Some("`../../../etc/passwd.log` is not a log file name")
    );
    assert_eq!(state.file(), None, "nothing outside storage/logs is opened");
}

#[test]
fn a_background_watcher_retains_no_entry_text() {
    let mut disk = Disk::new("/srv/api");
    disk.append("laravel.log", "");

    let mut state = watcher(&disk, Mode::Background);
    let mut sink = Recorder::new();
    disk.poll(&mut state, &mut sink);
    sink.take();

    // ~10 MB, in the chunks a live tail would see it.
    let frames = "#0 /var/www/app/Http/Controllers/UserController.php(42)\n".repeat(20);
    let mut written = 0usize;
    let mut appended = 0u64;
    let mut index = 0usize;
    while written < 10 * 1024 * 1024 {
        let mut batch = String::new();
        while batch.len() < 512 * 1024 {
            batch.push_str(&entry_text(index));
            batch.push_str(&frames);
            index += 1;
            appended += 1;
        }
        written += batch.len();
        disk.append("laravel.log", &batch);
        disk.poll(&mut state, &mut sink);

        assert!(
            state.retained_text_bytes() < 8 * 1024,
            "a background watcher must retain no Entry text beyond the one \
             still open: {} bytes retained after {written} bytes of log",
            state.retained_text_bytes()
        );
    }

    assert!(written >= 10 * 1024 * 1024, "the fixture really was 10 MB");
    assert!(
        entries(&sink).is_empty(),
        "a background watcher emits no Entry text"
    );
    assert!(breaks(&sink).is_empty());

    // What it *did* grow is counts.
    let activity = state.activity();
    assert_eq!(activity.total, appended, "every Entry was counted");
    assert_eq!(activity.max_level, Some(Level::Error));
    assert_eq!(activity.counts.get(&Level::Error), Some(&appended));
    assert_eq!(
        activity.counts.len(),
        1,
        "counts are one number per Level, not per Entry"
    );
    let last = activities(&sink).pop().expect("activity was emitted");
    assert_eq!(last.total, appended);
    assert_eq!(last.max_level, Some(Level::Error));
}

#[test]
fn background_counting_counts_each_entry_exactly_once() {
    let mut disk = Disk::new("/srv/api");
    disk.append("laravel.log", "");

    let mut state = watcher(&disk, Mode::Background);
    let mut sink = Recorder::new();
    disk.poll(&mut state, &mut sink);

    // The newest Entry is still pending: counted now, not counted again when
    // the next header closes it.
    disk.append("laravel.log", "[2026-08-14 01:28:00] local.WARNING: one\n");
    disk.poll(&mut state, &mut sink);
    assert_eq!(state.activity().total, 1);
    assert_eq!(state.activity().max_level, Some(Level::Warning));

    disk.append("laravel.log", "#0 /app/x.php(42)\n");
    disk.poll(&mut state, &mut sink);
    assert_eq!(state.activity().total, 1, "a continuation is not an Entry");

    disk.append("laravel.log", "[2026-08-14 01:28:01] local.ERROR: two\n");
    disk.poll(&mut state, &mut sink);
    assert_eq!(state.activity().total, 2);
    assert_eq!(state.activity().max_level, Some(Level::Error));
    assert_eq!(state.activity().counts.get(&Level::Warning), Some(&1));
    assert_eq!(state.activity().counts.get(&Level::Error), Some(&1));

    state.clear_activity();
    assert_eq!(state.activity().total, 0);
    assert_eq!(state.activity().max_level, None);
}

#[test]
fn promotion_and_demotion_change_mode_without_restarting_the_tail() {
    let mut disk = Disk::new("/srv/api");
    disk.append("laravel.log", "");

    let mut state = watcher(&disk, Mode::Background);
    let mut sink = Recorder::new();
    disk.poll(&mut state, &mut sink);
    disk.append(
        "laravel.log",
        "[2026-08-14 01:28:00] local.ERROR: unwatched\n",
    );
    disk.poll(&mut state, &mut sink);
    let offset = state.offset();
    assert_eq!(state.activity().total, 1);
    sink.take();

    state.set_mode(Mode::Selected);

    assert_eq!(state.offset(), offset, "the tail keeps its place");
    assert_eq!(state.file(), Some("laravel.log"));
    assert_eq!(
        state.activity().total,
        0,
        "selection spends the Activity it accrued"
    );

    disk.append("laravel.log", "[2026-08-14 01:28:01] local.INFO: watched\n");
    disk.poll(&mut state, &mut sink);
    let found = entries(&sink);
    assert_eq!(
        found.last().map(|entry| entry.message.as_str()),
        Some("watched"),
        "{found:#?}"
    );
}

#[test]
fn a_background_watcher_emits_no_break_when_its_file_rotates() {
    let mut disk = Disk::new("/srv/api");
    disk.append(
        "laravel-2026-08-13.log",
        "[2026-08-13 23:59:59] local.INFO: yesterday\n",
    );

    let mut state = watcher(&disk, Mode::Background);
    let mut sink = Recorder::new();
    disk.poll(&mut state, &mut sink);
    sink.take();

    disk.append(
        "laravel-2026-08-14.log",
        "[2026-08-14 00:00:00] local.ERROR: today\n",
    );
    disk.poll(&mut state, &mut sink);

    assert!(breaks(&sink).is_empty(), "{:#?}", breaks(&sink));
    assert!(entries(&sink).is_empty());
    assert_eq!(state.activity().total, 1, "it is still counted");
}

#[test]
fn list_files_reports_bytes_and_epoch_seconds_newest_first() {
    let mut disk = Disk::new("/srv/api");
    disk.append(".gitignore", "*\n");
    disk.append("notes.txt", "not a log\n");
    disk.append(
        "laravel-2026-08-13.log",
        "[2026-08-13 23:59:59] local.INFO: yesterday\n",
    );
    disk.append(
        "laravel-2026-08-14.log",
        "[2026-08-14 00:00:00] local.INFO: today\n",
    );

    let root = canonical_root("/srv/api", disk.resolved());
    let files = list_files(root, disk.seen(&disk.dir())).expect("list");

    assert_eq!(
        files.len(),
        2,
        "only .log files, and no dotfiles: {files:#?}"
    );
    assert_eq!(files[0].name, "laravel-2026-08-14.log", "newest first");
    assert_eq!(files[0].bytes, disk.files[3].bytes.len() as u64);
    assert!(
        files[0].modified > 1_600_000_000,
        "modified is epoch seconds, not a formatted string: {}",
        files[0].modified
    );
    assert!(files[0].modified >= files[1].modified);
}

#[test]
fn a_pinned_target_is_followed_instead_of_the_newest_file() {
    let mut disk = Disk::new("/srv/api");
    disk.append(
        "laravel-2026-08-13.log",
        "[2026-08-13 23:59:59] local.INFO: yesterday\n",
    );
    disk.append(
        "laravel-2026-08-14.log",
        "[2026-08-14 00:00:00] local.INFO: today\n",
    );

    let mut state = watcher(&disk, Mode::Selected);
    let mut sink = Recorder::new();
    state.set_target(Target::File("laravel-2026-08-13.log".into()));
    disk.poll(&mut state, &mut sink);
    sink.take();

    disk.append(
        "laravel-2026-08-13.log",
        "[2026-08-13 23:59:59] local.ERROR: followed\n",
    );
    disk.append(
        "laravel-2026-08-14.log",
        "[2026-08-14 00:00:01] local.ERROR: ignored\n",
    );
    disk.poll(&mut state, &mut sink);

    assert_eq!(state.file(), Some("laravel-2026-08-13.log"));
    let found = entries(&sink);
    assert_eq!(found.len(), 1, "{found:#?}");
    assert_eq!(found[0].message, "followed");
    assert!(breaks(&sink).is_empty(), "a pin does not rotate");
}

#[test]
fn selecting_a_project_promotes_it_and_demotes_the_previous_one() {
    let first = Disk::new("/srv/first");
    let second = Disk::new("/srv/second");
    let mut watchers: Watchers<RefCell<WatcherState>> = Watchers::new();

    let first_id = ProjectId::from_canonical(&first.root);
    let second_id = ProjectId::from_canonical(&second.root);
    watchers.ensure(&first_id, Ok(RefCell::new(watcher(&first, Mode::Background))));
    watchers.ensure(&second_id, Ok(RefCell::new(watcher(&second, Mode::Background))));

    let promote = |watchers: &Watchers<RefCell<WatcherState>>, id: &ProjectId| {
        for i in 0..watchers.len() {
            watchers.at(i).borrow_mut().promote(id);
        }
    };
    let mode = |watchers: &Watchers<RefCell<WatcherState>>, id: &ProjectId| {
        watchers.get(id).map(|state| state.borrow().mode())
    };

    promote(&watchers, &first_id);
    assert_eq!(mode(&watchers, &first_id), Some(Mode::Selected));
    assert_eq!(mode(&watchers, &second_id), Some(Mode::Background));

    promote(&watchers, &second_id);
    assert_eq!(
        mode(&watchers, &first_id),
        Some(Mode::Background),
        "selecting demotes the previous one; it does not stop watching"
    );
    assert_eq!(mode(&watchers, &second_id), Some(Mode::Selected));

    // Both are still being watched.
    assert!(watchers
        .get(&first_id)
        .map(|state| state.borrow().offset())
        .is_some());

    watchers.stop(&first_id);
    assert!(mode(&watchers, &first_id).is_none());
    watchers.stop_all();
    assert_eq!(watchers.len(), 0);
}

#[test]
fn ensure_is_idempotent_and_keeps_the_running_watcher() {
    let disk = Disk::new("/srv/api");
    let mut watchers: Watchers<RefCell<WatcherState>> = Watchers::new();
    let id = ProjectId::from_canonical(&disk.root);

    watchers.ensure(&id, Ok(RefCell::new(watcher(&disk, Mode::Background))));
    watchers.at(0).borrow_mut().promote(&id);
    watchers.ensure(&id, Ok(RefCell::new(watcher(&disk, Mode::Background))));

    assert_eq!(
        watchers.get(&id).map(|state| state.borrow().mode()),
        Some(Mode::Selected),
        "a second ensure must not replace a running watcher"
    );
    assert_eq!(watchers.len(), 1);
    watchers.stop_all();
}

#[test]
fn a_watcher_the_os_refuses_to_start_is_reported_offline_and_retried() {
    let disk = Disk::new("/srv/api");
    let mut watchers: Watchers<RefCell<WatcherState>> = Watchers::new();
    let id = ProjectId::from_canonical(&disk.root);

    let told = watchers
        .ensure(&id, Err("cannot create a thread".to_owned()))
        .expect("the refusal is told");

    assert!(
        watchers.get(&id).is_none(),
        "a Project with no thread must not be registered as watched"
    );
    assert_eq!(told.state, StatusState::Offline);
    assert_eq!(
        told.reason.as_deref(),
        Some("could not start a watcher: cannot create a thread"),
        "the sidebar is told why"
    );

    // The failure is not permanent: the next ensure tries again.
    assert!(watchers
        .ensure(&id, Ok(RefCell::new(watcher(&disk, Mode::Background))))
        .is_none());
    assert!(watchers.get(&id).is_some());
}

/// A sink at which no status arrives. Everything else does.
struct StatusDropping {
    attempts: Vec<StatusPayload>,
}

impl EventSink for StatusDropping {
    fn entry(&mut self, _entry: &LogEntry) {}
    fn entries(&mut self, _entries: &[LogEntry]) {}
    fn brk(&mut self, _brk: &Break) {}
    fn activity(&mut self, _payload: &ActivityPayload) {}
    fn status(&mut self, payload: &StatusPayload) -> bool {
        self.attempts.push(payload.clone());
        false
    }
}

#[test]
fn a_status_whose_emit_failed_is_retried_until_it_lands() {
    let disk = Disk::new("/srv/api");
    let mut state = watcher(&disk, Mode::Selected);

    let mut dropping = StatusDropping {
        attempts: Vec::new(),
    };
    disk.poll(&mut state, &mut dropping);
    disk.poll(&mut state, &mut dropping);
    let attempts = dropping.attempts;
    assert_eq!(
        attempts.len(),
        2,
        "an undelivered transition is retried: {attempts:#?}"
    );
    assert!(attempts.iter().all(|a| a.state == StatusState::Online));

    // Once it lands, it stops repeating.
    let mut sink = Recorder::new();
    disk.poll(&mut state, &mut sink);
    disk.poll(&mut state, &mut sink);
    let found = statuses(&sink);
    assert_eq!(found.len(), 1, "{found:#?}");
    assert_eq!(found[0].state, StatusState::Online);
}

#[test]
fn row_02_an_appended_entry_appears_with_no_interaction() {
    let mut disk = Disk::new("/srv/api");
    disk.append("laravel.log", "[2026-08-14 01:28:00] local.INFO: booted\n");

    let id = ProjectId::from_canonical(&disk.root);
    let mut state = watcher(&disk, Mode::Background);
    let mut sink = Recorder::new();
    state.promote(&id);
    disk.poll(&mut state, &mut sink);
    assert!(state.file().is_some(), "the watcher attached");
    sink.take();

    disk.append(
        "laravel.log",
        "[2026-08-14 01:28:01] local.ERROR: queue worker died\n",
    );
    assert_eq!(state.interval(), POLL_INTERVAL, "the next poll is prompt");
    disk.poll(&mut state, &mut sink);

    let arrived = entries(&sink)
        .into_iter()
        .find(|entry| entry.message == "queue worker died")
        .expect("the Entry arrived");
    assert_eq!(arrived.level, Level::Error);
    assert_eq!(arrived.env, "local");
}

#[test]
fn row_03_a_forty_seven_line_trace_forms_exactly_one_entry() {
    let mut disk = Disk::new("/srv/api");
    disk.append("laravel.log", "[2026-08-14 01:28:00] local.INFO: booted\n");

    let mut sink = Recorder::new();
    let mut state = watcher(&disk, Mode::Selected);
    disk.poll(&mut state, &mut sink);
    sink.take();

    // The header, `[stacktrace]`, and 45 frames: 47 lines.
    let trace = trace_entry(45);
    assert_eq!(trace.lines().count(), 47, "the fixture really is 47 lines");
    disk.append("laravel.log", &trace);
    // A following header, so the trace Entry closes rather than staying pending.
    disk.append("laravel.log", "[2026-08-14 01:28:08] local.INFO: recovered\n");
    disk.poll(&mut state, &mut sink);

    let found = entries(&sink);
    let trace_entries: Vec<_> = found
        .iter()
        .filter(|entry| entry.raw.contains("Undefined variable $user"))
        .collect();

    // Revisions share an id, so "exactly one Entry" is one *identity*.
    let ids: BTreeSet<_> = trace_entries
        .iter()
        .map(|entry| entry.id.as_str())
        .collect();
    assert_eq!(
        ids.len(),
        1,
        "the whole trace is one Entry, not one per line: {ids:#?}"
    );

    let final_form = trace_entries.last().expect("the trace was emitted");
    assert_eq!(final_form.level, Level::Error);
    assert_eq!(
        final_form.raw,
        trace.trim_end_matches('\n'),
        "`raw` is the file's bytes verbatim"
    );
    assert_eq!(final_form.raw.lines().count(), 47);
    assert_eq!(
        final_form.context.lines().count(),
        46,
        "the header stays the message; the other 46 lines are context"
    );
    assert!(final_form.context.contains("[stacktrace]"));
    assert!(
        final_form.context.contains("#44 "),
        "the last frame is there"
    );
    assert_eq!(final_form.message, {
        let header = trace.lines().next().expect("header");
        header[header.find("local.ERROR: ").expect("level") + "local.ERROR: ".len()..].to_owned()
    });
}

#[test]
fn row_04_truncation_breaks_the_record_and_nothing_above_it_is_retracted() {
    let mut disk = Disk::new("/srv/api");
    disk.append("laravel.log", "[2026-08-14 01:28:00] local.INFO: booted\n");

    let mut sink = Recorder::new();
    let mut state = watcher(&disk, Mode::Selected);
    disk.poll(&mut state, &mut sink);
    sink.take();

    disk.append(
        "laravel.log",
        "[2026-08-14 01:28:01] local.ERROR: before the clear\n",
    );
    disk.poll(&mut state, &mut sink);
    let above: Vec<_> = entries(&sink)
        .into_iter()
        .map(|entry| entry.id.as_str().to_owned())
        .collect();
    assert!(!above.is_empty(), "there is something above the Break");
    sink.take();

    disk.truncate("laravel.log");
    disk.append(
        "laravel.log",
        "[2026-08-14 01:28:02] local.WARNING: after the clear\n",
    );
    disk.poll(&mut state, &mut sink);

    let found = breaks(&sink);
    assert_eq!(found.len(), 1, "{found:#?}");
    assert_eq!(found[0].kind, BreakKind::Cleared);
    assert_eq!(found[0].file, "laravel.log");
    assert_eq!(state.offset(), disk.files[0].bytes.len() as u64);

    // Everything above survives because nothing ever tells the client to drop
    // it: none of the events is a clear.
    for event in [EVENT_ENTRY, EVENT_BREAK, EVENT_ACTIVITY, EVENT_STATUS] {
        assert!(
            !event.contains("clear") && !event.contains("reset"),
            "{event} would be a way to wipe the record"
        );
    }

    // The ids below the Break cannot collide with the ids above it.
    let below: Vec<_> = entries(&sink)
        .into_iter()
        .map(|entry| entry.id.as_str().to_owned())
        .collect();
    assert!(!below.is_empty(), "the post-clear Entry arrived");
    for id in &below {
        assert!(
            !above.contains(id),
            "id {id} below the Break would overwrite an Entry above it"
        );
    }
}

#[test]
fn row_05_the_target_follows_a_newer_dated_file_across_a_break() {
    let mut disk = Disk::new("/srv/api");
    disk.append(
        "laravel-2026-08-13.log",
        "[2026-08-13 23:59:00] local.INFO: yesterday\n",
    );

    let mut sink = Recorder::new();
    let mut state = watcher(&disk, Mode::Selected);
    disk.poll(&mut state, &mut sink);
    assert_eq!(state.file(), Some("laravel-2026-08-13.log"));
    disk.append(
        "laravel-2026-08-13.log",
        "[2026-08-13 23:59:30] local.INFO: still yesterday\n",
    );
    disk.poll(&mut state, &mut sink);
    sink.take();

    // Midnight: the log rolls over.
    disk.append(
        "laravel-2026-08-14.log",
        "[2026-08-14 00:00:01] local.ERROR: today\n",
    );
    disk.poll(&mut state, &mut sink);

    let found = breaks(&sink);
    assert_eq!(found.len(), 1, "{found:#?}");
    assert_eq!(found[0].kind, BreakKind::Rotated);
    assert_eq!(
        found[0].file, "laravel-2026-08-14.log",
        "the Break names the file in effect *after* it"
    );
    assert_eq!(
        state.file(),
        Some("laravel-2026-08-14.log"),
        "the Target followed the newest file"
    );

    let found = entries(&sink);
    assert!(
        found.iter().any(|entry| entry.message == "today"),
        "and is tailing it: {found:#?}"
    );
    assert!(
        found
            .iter()
            .all(|entry| entry.file == "laravel-2026-08-14.log"),
        "everything after the Break belongs to the new file: {found:#?}"
    );

    // Pinning overrides the follow, and gives the pinned file back.
    state.set_target(Target::File("laravel-2026-08-13.log".into()));
    disk.poll(&mut state, &mut sink);
    assert_eq!(state.file(), Some("laravel-2026-08-13.log"));
}

#[test]
fn row_06_a_second_project_reports_activity_count_and_highest_level() {
    let reading = Disk::new("/srv/reading");
    let mut other = Disk::new("/srv/other");
    other.append("laravel.log", "[2026-08-14 01:00:00] local.INFO: seed\n");

    let mut sink = Recorder::new();
    let mut selected = watcher(&reading, Mode::Selected);
    let mut background = watcher(&other, Mode::Background);
    reading.poll(&mut selected, &mut sink);
    other.poll(&mut background, &mut sink);
    sink.take();

    // The Project the user is *not* looking at throws.
    other.append(
        "laravel.log",
        "[2026-08-14 01:28:00] local.DEBUG: cache hit\n",
    );
    other.append(
        "laravel.log",
        "[2026-08-14 01:28:01] local.WARNING: slow query\n",
    );
    other.append("laravel.log", &trace_entry(45));
    other.append(
        "laravel.log",
        "[2026-08-14 01:28:09] local.INFO: recovered\n",
    );
    other.poll(&mut background, &mut sink);

    let activity = activities(&sink);
    let latest = activity.last().expect("Activity was reported");
    assert_eq!(latest.project_id, ProjectId::from_canonical(&other.root));
    assert_eq!(
        latest.total, 4,
        "count of Entries, not of lines: {latest:#?}"
    );
    assert_eq!(
        latest.max_level,
        Some(Level::Error),
        "the badge shows the highest Level, not the last one"
    );
    assert_eq!(latest.counts.get(&Level::Debug), Some(&1));
    assert_eq!(latest.counts.get(&Level::Warning), Some(&1));
    assert_eq!(latest.counts.get(&Level::Error), Some(&1));
    assert_eq!(latest.counts.get(&Level::Info), Some(&1));

    // "How much and how bad, never what": no Entry text was emitted, and the
    // 47-line trace left nothing behind.
    assert!(
        entries(&sink).is_empty(),
        "a background Project emits counts only"
    );
    assert!(
        breaks(&sink).is_empty(),
        "and has no record to break"
    );
    assert!(
        background.retained_text_bytes() < 4096,
        "retained {} bytes after a 47-line trace",
        background.retained_text_bytes()
    );

    // Selecting it spends the Activity: the badge clears, the text starts.
    background.set_mode(Mode::Selected);
    assert_eq!(background.activity().total, 0);
    assert_eq!(background.activity().max_level, None);
}

#[test]
fn row_07_a_moved_project_goes_offline_and_reattaches_unaided() {
    let mut disk = Disk::new("/srv/api");
    disk.append("laravel.log", "[2026-08-14 01:28:00] local.INFO: booted\n");

    let mut sink = Recorder::new();
    let mut state = watcher(&disk, Mode::Selected);
    disk.poll(&mut state, &mut sink);
    assert!(statuses(&sink)
        .iter()
        .any(|status| status.state == StatusState::Online));
    sink.take();

    disk.resolves_to = None;
    disk.poll(&mut state, &mut sink);
    let offline = statuses(&sink)
        .into_iter()
        .find(|status| status.state == StatusState::Offline)
        .expect("offline");
    assert!(
        offline.reason.is_some(),
        "the sidebar is told why: {offline:#?}"
    );

    // The retry interval backs off rather than spinning.
    disk.poll(&mut state, &mut sink);
    assert!(state.interval() > 300);

    // It is moved back. Nothing else is touched: no re-add, no reselect.
    sink.take();
    disk.resolves_to = Some(disk.root.clone());
    disk.append(
        "laravel.log",
        "[2026-08-14 01:29:00] local.ERROR: back from the dead\n",
    );
    disk.poll(&mut state, &mut sink);
    assert!(statuses(&sink)
        .iter()
        .any(|status| status.state == StatusState::Online));
    assert!(entries(&sink)
        .iter()
        .any(|entry| entry.message == "back from the dead"));
    assert_eq!(
        state.interval(),
        300,
        "the backoff resets once the path returns"
    );
}

#[test]
fn row_08_a_string_only_inside_a_trace_is_present_in_the_searchable_raw() {
    let mut disk = Disk::new("/srv/api");
    disk.append("laravel.log", "[2026-08-14 01:28:00] local.INFO: booted\n");

    let mut sink = Recorder::new();
    let mut state = watcher(&disk, Mode::Selected);
    disk.poll(&mut state, &mut sink);
    sink.take();

    disk.append("laravel.log", &trace_entry(45));
    disk.append("laravel.log", "[2026-08-14 01:28:09] local.INFO: recovered\n");
    disk.poll(&mut state, &mut sink);

    let needle = "Illuminate/Routing/Controller.php(31)";
    let hit = entries(&sink)
        .into_iter()
        .rfind(|entry| entry.raw.contains(needle))
        .expect("an Entry matches on text only its trace contains");

    assert!(
        !hit.message.contains(needle),
        "the needle is not on the visible line"
    );
    assert!(
        hit.context.contains(needle),
        "it is down in the collapsed context"
    );
    assert_eq!(hit.level, Level::Error);
}

#[test]
fn row_09_the_bytes_copy_sends_are_the_whole_entry_verbatim() {
    let mut disk = Disk::new("/srv/api");
    disk.append("laravel.log", "[2026-08-14 01:28:00] local.INFO: booted\n");

    let mut sink = Recorder::new();
    let mut state = watcher(&disk, Mode::Selected);
    disk.poll(&mut state, &mut sink);
    sink.take();

    let trace = trace_entry(45);
    disk.append("laravel.log", &trace);
    disk.append("laravel.log", "[2026-08-14 01:28:09] local.INFO: recovered\n");
    disk.poll(&mut state, &mut sink);

    let entry = entries(&sink)
        .into_iter()
        .rfind(|entry| entry.raw.contains("Undefined variable $user"))
        .expect("the trace Entry");

    assert_eq!(
        entry.raw,
        trace.trim_end_matches('\n'),
        "verbatim, not reassembled from the parts: only the record separator is dropped"
    );
    assert!(entry.raw.starts_with("[2026-08-14 01:28:07] local.ERROR:"));
    assert!(entry.raw.contains("[stacktrace]"));
    for frame in 0..45 {
        assert!(
            entry.raw.contains(&format!("#{frame} /app/vendor/laravel")),
            "frame #{frame} is in what Copy sends"
        );
    }
    assert_eq!(
        entry.raw.lines().count(),
        47,
        "all 47 lines reach the clipboard, not just the visible one"
    );
}

#[test]
fn soak_a_background_watcher_stays_bounded_over_many_poll_cycles() {
    const CYCLES: usize = 750;
    // Every cycle writes one full 47-line exception plus three short Entries.
    const ENTRIES_PER_CYCLE: u64 = 4;

    let mut disk = Disk::new("/srv/noisy");
    disk.append("laravel.log", "[2026-08-14 00:00:00] local.INFO: seed\n");

    let mut sink = Recorder::new();
    let mut state = watcher(&disk, Mode::Background);
    disk.poll(&mut state, &mut sink);

    let mut peak = 0u128;
    let mut peak_at = 0usize;
    let mut peak_buckets = 0usize;

    for cycle in 0..CYCLES {
        disk.append(
            "laravel.log",
            &format!("[2026-08-14 01:28:00] local.DEBUG: cache hit {cycle}\n"),
        );
        disk.append(
            "laravel.log",
            &format!("[2026-08-14 01:28:01] local.WARNING: slow query {cycle}\n"),
        );
        disk.append("laravel.log", &trace_entry(45));
        disk.append(
            "laravel.log",
            &format!("[2026-08-14 01:28:09] local.INFO: recovered {cycle}\n"),
        );
        disk.poll(&mut state, &mut sink);

        let retained = state.retained_state_bytes();
        if retained > peak {
            peak = retained;
            peak_at = cycle;
        }
        peak_buckets = peak_buckets.max(state.activity_bucket_count());
    }

    let grew_to = disk.files[0].bytes.len() as u64;
    assert!(
        grew_to > 4 * 1024 * 1024,
        "the file only reached {grew_to} bytes: the soak is not exercising anything"
    );

    assert!(
        peak < 16 * 1024,
        "a background watcher retained {peak} bytes at cycle {peak_at} after {grew_to} bytes of \
         log across {CYCLES} polls"
    );
    assert!(
        peak_buckets <= 9,
        "the Activity histogram grew to {peak_buckets} buckets; it is bounded by the 9 Levels"
    );

    // Counts are the only thing that grows, and they grow as integers.
    let total = state.activity().total;
    assert_eq!(
        total,
        CYCLES as u64 * ENTRIES_PER_CYCLE,
        "every Entry was counted exactly once across {CYCLES} polls"
    );
    assert_eq!(state.activity().max_level, Some(Level::Error));

    // And the watcher is still correct at the end, not merely small.
    assert_eq!(state.offset(), grew_to);
    assert!(
        entries(&sink).is_empty(),
        "no Entry text ever left the watcher"
    );
}

#[test]
fn soak_a_selected_watcher_holds_only_the_open_entry() {
    const CYCLES: usize = 750;

    let mut disk = Disk::new("/srv/noisy");
    disk.append("laravel.log", "[2026-08-14 00:00:00] local.INFO: seed\n");

    let mut sink = Recorder::new();
    let mut state = watcher(&disk, Mode::Selected);
    disk.poll(&mut state, &mut sink);

    let mut peak = 0u128;
    for cycle in 0..CYCLES {
        disk.append("laravel.log", &trace_entry(45));
        disk.append(
            "laravel.log",
            &format!("[2026-08-14 01:28:09] local.INFO: recovered {cycle}\n"),
        );
        disk.poll(&mut state, &mut sink);
        // Drained, so that the test measures what the watcher holds.
        sink.take();
        peak = peak.max(state.retained_state_bytes());
    }

    let grew_to = disk.files[0].bytes.len() as u64;
    assert!(
        peak < 16 * 1024,
        "a selected watcher retained {peak} bytes after {grew_to} bytes across {CYCLES} polls"
    );
}

#[test]
fn a_session_record_spans_both_kinds_of_break() {
    let mut disk = Disk::new("/srv/api");
    let today = "laravel-2026-08-14.log";
    disk.append(today, "[2026-08-14 01:00:00] local.INFO: one\n");

    let mut sink = Recorder::new();
    let mut state = watcher(&disk, Mode::Selected);
    // The opening window is the start of the record.
    let opening = disk.open(&mut state).expect("the opening window");
    disk.append(today, "[2026-08-14 01:00:01] local.INFO: two\n");
    disk.poll(&mut state, &mut sink);

    // Cleared,
    disk.truncate(today);
    disk.append(today, "[2026-08-14 01:00:02] local.INFO: three\n");
    disk.poll(&mut state, &mut sink);

    // then rotated.
    disk.append(
        "laravel-2026-08-15.log",
        "[2026-08-15 00:00:00] local.INFO: four\n",
    );
    disk.poll(&mut state, &mut sink);

    let kinds: Vec<_> = breaks(&sink).into_iter().map(|brk| brk.kind).collect();
    assert_eq!(kinds, vec![BreakKind::Cleared, BreakKind::Rotated]);

    // Every Entry in the record is still separately addressable across both.
    let record: Vec<StreamItem> = opening
        .into_iter()
        .chain(sink.take().into_iter().flat_map(|event| match event {
            Emitted::Entry(entry) => vec![StreamItem::Entry(entry)],
            Emitted::Entries(batch) => batch.into_iter().map(StreamItem::Entry).collect(),
            Emitted::Break(brk) => vec![StreamItem::Break(brk)],
            _ => Vec::new(),
        }))
        .collect();
    let ids: BTreeSet<String> = record
        .iter()
        .map(|item| match item {
            StreamItem::Entry(entry) => entry.id.as_str().to_owned(),
            StreamItem::Break(brk) => brk.id.as_str().to_owned(),
        })
        .collect();
    let messages: BTreeSet<&str> = record
        .iter()
        .filter_map(|item| match item {
            StreamItem::Entry(entry) => Some(entry.message.as_str()),
            StreamItem::Break(_) => None,
        })
        .collect();
    assert_eq!(
        messages,
        ["four", "one", "three", "two"].into_iter().collect(),
        "nothing above either Break was lost"
    );
    assert_eq!(
        ids.len(),
        6,
        "four Entries and two Breaks, all distinctly addressable: {ids:#?}"
    );
}

#[test]
fn the_last_entry_of_the_window_is_revised_by_the_first_poll() {
    let mut disk = Disk::new("/srv/api");
    disk.append("laravel.log", &entry_text(0));
    disk.append("laravel.log", &entry_text(1));
    let mut state = watcher(&disk, Mode::Selected);
    let mut sink = Recorder::new();

    let opening = disk.open(&mut state).expect("the opening window");
    let last = entry_of(opening.last().expect("entries")).clone();
    assert_eq!(state.offset(), last.offset);

    disk.append("laravel.log", "#0 /app/x.php(42)\n");
    disk.poll(&mut state, &mut sink);
    let found = entries(&sink);
    assert_eq!(found.len(), 1);
    assert_eq!(found[0].id, last.id);
    assert_eq!(found[0].context, "#0 /app/x.php(42)");
}

#[test]
fn an_empty_project_opens_with_an_empty_window() {
    let disk = Disk::new("/srv/api");
    let mut state = watcher(&disk, Mode::Selected);
    assert_eq!(disk.open(&mut state), Ok(Vec::new()));
    assert_eq!(state.file(), None);
}

#[test]
fn a_file_that_cannot_be_measured_takes_the_project_offline() {
    let mut disk = Disk::new("/srv/api");
    disk.append("laravel.log", &entry_text(0));
    let mut state = watcher(&disk, Mode::Selected);
    let mut sink = Recorder::new();
    disk.poll(&mut state, &mut sink);
    sink.take();

    let step = state.measured(&mut sink, "/p".to_owned(), false, Err("denied".to_owned()));
    assert_eq!(step, Step::Idle);
    assert_eq!(
        statuses(&sink)[0].reason.as_deref(),
        Some("cannot stat /p: denied")
    );
    sink.take();

    state.received(&mut sink, "/p", false, 8, Err("torn".to_owned()));
    assert_eq!(
        statuses(&sink)[0].reason.as_deref(),
        Some("cannot read /p: torn")
    );
    assert_eq!(state.interval(), 2 * POLL_INTERVAL);
}

#[test]
fn opening_reports_why_a_file_cannot_be_measured() {
    let disk = Disk::new("/srv/api");
    let state = watcher(&disk, Mode::Selected);
    let located = Located {
        name: "laravel.log".to_owned(),
        path: "/srv/api/storage/logs/laravel.log".to_owned(),
    };
    assert_eq!(
        state.opening(located, Err("denied".to_owned())),
        Err("cannot stat /srv/api/storage/logs/laravel.log: denied".to_owned())
    );
}

#[test]
fn paging_back_refuses_what_is_not_an_id_and_what_is_not_a_log() {
    let disk = Disk::new("/srv/api");
    let state = watcher(&disk, Mode::Selected);
    assert_eq!(
        state.earlier("laravel.log", disk.resolved()),
        Err("`laravel.log` is not an Entry id".to_owned())
    );
    assert_eq!(state.earlier("laravel.log:0", disk.resolved()), Ok(None));
    assert_eq!(
        state.earlier("../secret.log:12", disk.resolved()),
        Err("`../secret.log` is not a log file name".to_owned())
    );
    assert_eq!(
        state.earlier("laravel.log:12", Err("gone".to_owned())),
        Err("cannot resolve /srv/api: gone".to_owned())
    );
    let page = state
        .earlier("laravel.log@3:12", disk.resolved())
        .expect("a page")
        .expect("something before");
    assert_eq!(page.name, "laravel.log");
    assert_eq!(page.generation, 3);
    assert_eq!(page.path, "/srv/api/storage/logs/laravel.log");
    assert_eq!(page.walk.range(), (0, 12));
}

#[test]
fn a_pinned_file_that_is_not_there_is_not_readable() {
    let disk = Disk::new("/srv/api");
    let mut state = watcher(&disk, Mode::Selected);
    state.set_target(Target::File("laravel.log".to_owned()));
    assert_eq!(
        disk.find(&state),
        Err("/srv/api/storage/logs/laravel.log is not readable".to_owned())
    );
    assert_eq!(state.target(), &Target::File("laravel.log".to_owned()));
    assert_eq!(Target::default(), Target::Latest);
}

#[test]
fn leaving_a_file_sends_the_final_form_of_its_last_entry_once() {
    let mut disk = Disk::new("/srv/api");
    disk.append("a.log", "");
    let mut state = watcher(&disk, Mode::Selected);
    let mut sink = Recorder::new();
    disk.poll(&mut state, &mut sink);
    disk.append("a.log", &entry_text(7));
    disk.poll(&mut state, &mut sink);
    sink.take();

    // Already sent as it is: the rotation sends only the break.
    disk.append("b.log", "");
    disk.poll(&mut state, &mut sink);
    assert_eq!(entries(&sink).len(), 0);
    assert_eq!(breaks(&sink).len(), 1);
    assert_eq!(breaks(&sink)[0].id.as_str(), "b.log@1:0:break");
    assert_eq!(state.generation(), 1);
}

#[test]
fn a_window_onto_one_huge_entry_still_shows_it() {
    let mut text = entry_text(0);
    text.push_str(&"#0 frame\n".repeat(300_000));
    let window = window_of(&text, text.len() as u64, 0);
    assert_eq!(window.items.len(), 1);
    assert!(is_headerless(entry_of(&window.items[0])));
    assert_eq!(window.first_offset, text.len() as u64 - WINDOW_MAX_BYTES);
}

#[test]
fn a_window_is_stamped_with_its_generation() {
    let text = entry_text(0) + &entry_text(1);
    let window = window_of(&text, text.len() as u64, 4);
    assert_eq!(entry_of(&window.items[0]).id.as_str(), "laravel.log@4:0");
    assert_eq!(window.next_offset, entry_text(0).len() as u64);
    let empty = window_of("", 0, 4);
    assert!(empty.items.is_empty());
    assert_eq!((empty.first_offset, empty.next_offset), (0, 0));
}

#[test]
fn a_fresh_watcher_starts_quiet_at_the_end_of_the_file() {
    let mut disk = Disk::new("/srv/api");
    disk.append("laravel.log", &entry_text(0));
    disk.append("laravel.log", &entry_text(1));
    let mut state = watcher(&disk, Mode::Background);
    assert!(state.activity().counts.is_empty());
    let mut sink = Recorder::new();
    disk.poll(&mut state, &mut sink);
    assert_eq!(state.activity().total, 0);
    assert_eq!(state.offset(), disk.files[0].bytes.len() as u64);
}

#[test]
fn an_entry_left_open_by_a_demoted_watcher_is_counted_once() {
    let mut disk = Disk::new("/srv/api");
    disk.append("laravel.log", "");
    let mut state = watcher(&disk, Mode::Selected);
    let mut sink = Recorder::new();
    disk.poll(&mut state, &mut sink);
    disk.append("laravel.log", &entry_text(0));
    disk.poll(&mut state, &mut sink);
    state.set_mode(Mode::Background);
    assert_eq!(state.activity().total, 0);

    disk.append("laravel.log", "#0 /app/x.php(42)\n");
    disk.poll(&mut state, &mut sink);
    assert_eq!(state.activity().total, 1);
    disk.append("laravel.log", &entry_text(1));
    disk.poll(&mut state, &mut sink);
    assert_eq!(state.activity().total, 2);
}

#[test]
fn a_file_that_is_found_but_cannot_be_read_backs_off_and_is_told_once() {
    let mut disk = Disk::new("/srv/api");
    disk.append("laravel.log", &entry_text(0));
    let mut state = watcher(&disk, Mode::Selected);
    let mut sink = Recorder::new();
    disk.poll(&mut state, &mut sink);
    let offset = state.offset();
    sink.take();

    disk.unreadable = true;
    disk.append("laravel.log", &entry_text(1));
    let mut intervals = Vec::new();
    for _ in 0..7 {
        disk.poll(&mut state, &mut sink);
        intervals.push(state.interval());
    }
    assert_eq!(intervals, vec![300, 600, 1200, 2400, 4800, 5000, 5000]);
    let told = statuses(&sink);
    assert_eq!(told.len(), 1, "{told:#?}");
    assert_eq!(told[0].state, StatusState::Offline);
    assert_eq!(
        told[0].reason.as_deref(),
        Some("cannot read /srv/api/storage/logs/laravel.log: Permission denied")
    );
    assert_eq!(sink.take().len(), 1);
    assert_eq!(state.file(), Some("laravel.log"));
    assert_eq!(state.offset(), offset);

    disk.unreadable = false;
    disk.poll(&mut state, &mut sink);
    assert_eq!(state.interval(), 300);
    match &sink.events[0] {
        Emitted::Status(status) => assert_eq!(status.state, StatusState::Online),
        other => panic!("online is told first, not {other:#?}"),
    }
    assert_eq!(entries(&sink).len(), 1);
}

#[test]
fn closed_entries_go_out_as_one_event_before_the_open_one() {
    let mut disk = Disk::new("/srv/api");
    disk.append("laravel.log", "");
    let mut state = watcher(&disk, Mode::Selected);
    let mut sink = Recorder::new();
    state.attach("laravel.log".to_owned(), 0);
    disk.append(
        "laravel.log",
        "[2026-08-14 01:28:00] local.ERROR: one\n[2026-08-14 01:28:01] local.INFO: two\n",
    );
    disk.poll(&mut state, &mut sink);
    let events = sink.take();
    assert_eq!(events.len(), 3, "{events:#?}");
    assert!(matches!(&events[0], Emitted::Status(_)));
    match &events[1] {
        Emitted::Entries(batch) => {
            assert_eq!(batch.len(), 1);
            assert_eq!(batch[0].message, "one");
            assert_eq!(batch[0].id.as_str(), "laravel.log:0");
        }
        other => panic!("the closed entries are one event, not {other:#?}"),
    }
    match &events[2] {
        Emitted::Entry(entry) => {
            assert_eq!(entry.message, "two");
            assert_eq!(entry.id.as_str(), "laravel.log:39");
        }
        other => panic!("the open entry is sent on its own, not {other:#?}"),
    }
    assert_eq!(state.offset(), 77);
    assert_eq!(state.activity().total, 0);
}

#[test]
fn an_emptied_file_is_online_and_breaks_the_record() {
    let mut disk = Disk::new("/srv/api");
    disk.append("laravel.log", &entry_text(0));
    let mut state = watcher(&disk, Mode::Selected);
    let mut sink = Recorder::new();
    disk.poll(&mut state, &mut sink);
    disk.resolves_to = None;
    disk.poll(&mut state, &mut sink);
    sink.take();

    disk.resolves_to = Some(disk.root.clone());
    disk.truncate("laravel.log");
    disk.poll(&mut state, &mut sink);
    let events = sink.take();
    assert_eq!(events.len(), 2, "{events:#?}");
    assert!(matches!(&events[0], Emitted::Status(status) if status.state == StatusState::Online));
    assert!(matches!(&events[1], Emitted::Break(_)));
}

#[test]
fn an_unchanged_file_after_its_window_sends_the_last_entry_and_then_nothing() {
    let mut disk = Disk::new("/srv/api");
    disk.append("laravel.log", &(entry_text(0) + &entry_text(1)));
    let mut state = watcher(&disk, Mode::Selected);
    let mut sink = Recorder::new();
    let opening = disk.open(&mut state).expect("the opening window");
    disk.poll(&mut state, &mut sink);
    let found = entries(&sink);
    assert_eq!(found.len(), 1);
    assert_eq!(&found[0], entry_of(opening.last().expect("entries")));
    assert_eq!(state.offset(), disk.files[0].bytes.len() as u64);
    sink.take();
    disk.poll(&mut state, &mut sink);
    disk.poll(&mut state, &mut sink);
    assert!(sink.events.is_empty());
}

#[test]
fn pages_cover_a_file_without_gap_or_overlap() {
    let text = (0..1_300).map(entry_text).collect::<String>();
    let mut before = text.len() as u64;
    let mut messages: Vec<String> = Vec::new();
    while before > 0 {
        let page = window_of(&text, before, 0);
        let mut found: Vec<String> = page
            .items
            .iter()
            .map(|item| entry_of(item).message.clone())
            .collect();
        found.append(&mut messages);
        messages = found;
        before = page.first_offset;
    }
    let expected: Vec<String> = (0..1_300).map(|index| format!("boom {index}")).collect();
    assert_eq!(messages, expected);
}

#[test]
fn counting_is_the_same_however_the_log_is_cut() {
    let lines = [
        entry_text(0),
        "#0 /app/x.php(42)\n".to_owned(),
        entry_text(1),
        "[2026-08-14 01:28:09] local.INFO: three\n".to_owned(),
    ];
    for cut in 1..=lines.len() {
        let mut disk = Disk::new("/srv/api");
        disk.append("laravel.log", "");
        let mut state = watcher(&disk, Mode::Background);
        let mut sink = Recorder::new();
        disk.poll(&mut state, &mut sink);
        for chunk in lines.chunks(cut) {
            disk.append("laravel.log", &chunk.concat());
            disk.poll(&mut state, &mut sink);
        }
        assert_eq!(state.activity().total, 3, "chunks of {cut}");
        assert_eq!(state.activity().counts.get(&Level::Error), Some(&2));
        assert_eq!(state.activity().counts.get(&Level::Info), Some(&1));
    }
}

/// What kind of event each one is, in order.
fn kinds(events: &[Emitted]) -> Vec<&'static str> {
    events
        .iter()
        .map(|event| match event {
            Emitted::Entry(_) => "entry",
            Emitted::Entries(_) => "entries",
            Emitted::Break(_) => "break",
            Emitted::Activity(_) => "activity",
            Emitted::Status(status) if status.state == StatusState::Online => "online",
            Emitted::Status(_) => "offline",
        })
        .collect()
}

#[test]
fn online_is_told_before_the_break_of_a_file_that_shrank() {
    let mut disk = Disk::new("/srv/api");
    disk.append("laravel.log", &(entry_text(0) + &entry_text(1)));
    let mut state = watcher(&disk, Mode::Selected);
    let mut sink = Recorder::new();
    disk.poll(&mut state, &mut sink);
    disk.resolves_to = None;
    disk.poll(&mut state, &mut sink);
    sink.take();

    disk.resolves_to = Some(disk.root.clone());
    disk.truncate("laravel.log");
    disk.append("laravel.log", &entry_text(2));
    disk.poll(&mut state, &mut sink);
    assert_eq!(kinds(&sink.events), vec!["online", "break", "entry"]);
}

#[test]
fn online_is_told_before_the_break_of_a_file_that_was_replaced() {
    let mut disk = Disk::new("/srv/api");
    disk.append("a.log", "");
    let mut state = watcher(&disk, Mode::Selected);
    let mut sink = Recorder::new();
    disk.poll(&mut state, &mut sink);
    disk.append("a.log", &entry_text(0));
    disk.poll(&mut state, &mut sink);
    disk.resolves_to = None;
    disk.poll(&mut state, &mut sink);
    sink.take();

    disk.resolves_to = Some(disk.root.clone());
    disk.append("b.log", &(entry_text(1) + &entry_text(2)));
    disk.poll(&mut state, &mut sink);
    assert_eq!(kinds(&sink.events), vec!["online", "break", "entries", "entry"]);
}

#[test]
fn a_status_that_is_lost_is_tried_once_in_each_poll() {
    let mut disk = Disk::new("/srv/api");
    disk.append("a.log", &(entry_text(0) + &entry_text(1)));
    let mut state = watcher(&disk, Mode::Selected);
    let mut dropping = StatusDropping {
        attempts: Vec::new(),
    };
    disk.poll(&mut state, &mut dropping);
    assert_eq!(dropping.attempts.len(), 1);
    disk.append("a.log", &entry_text(2));
    disk.poll(&mut state, &mut dropping);
    assert_eq!(dropping.attempts.len(), 2, "a read");
    disk.append("b.log", &entry_text(3));
    disk.poll(&mut state, &mut dropping);
    assert_eq!(dropping.attempts.len(), 3, "a rotation");
    disk.truncate("b.log");
    disk.append("b.log", "x\n");
    disk.poll(&mut state, &mut dropping);
    assert_eq!(dropping.attempts.len(), 4, "a truncation");
    disk.poll(&mut state, &mut dropping);
    assert_eq!(dropping.attempts.len(), 5, "nothing new");
    assert!(dropping
        .attempts
        .iter()
        .all(|status| status.state == StatusState::Online));
}

#[test]
fn closing_the_open_entry_twice_sends_it_once() {
    let mut disk = Disk::new("/srv/api");
    disk.append("laravel.log", "");
    let mut state = watcher(&disk, Mode::Selected);
    let mut sink = Recorder::new();
    disk.poll(&mut state, &mut sink);
    disk.append("laravel.log", &entry_text(0));
    disk.poll(&mut state, &mut sink);
    state.set_mode(Mode::Selected);
    sink.take();
    let offset = state.offset();

    state.close_pending(&mut sink);
    assert_eq!(kinds(&sink.take()), vec!["entry"]);
    state.close_pending(&mut sink);
    assert!(sink.take().is_empty());
    assert_eq!(state.offset(), offset);
    assert_eq!(state.file(), Some("laravel.log"));
}
