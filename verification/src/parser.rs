//! Parsing Laravel log text into entries. No I/O.
//!
//! An entry is multi-line: a header line, then the context and stack frames
//! beneath it. A header line closes the pending entry and opens a new one;
//! every other line is appended to the pending entry.
//!
//! Identity is passed in, never discovered here: the caller supplies the
//! project id, the file name, and the byte offset of the text being fed.

use vstd::prelude::*;
use vstd::slice::*;
use vstd::string::*;
use vstd::utf8::*;

use crate::header::{found, header_of, Header, HeaderMatcher, HeaderModel};
use crate::model::{entry_id_text, entry_views, EntryId, EntryModel, Level, LogEntry, ProjectId};
use crate::text::same_text;

verus! {

/// The level of content that arrives before any header: the tail of an entry
/// whose header sits before the text that was given.
///
/// `Unknown` rather than `Info`: an orphaned fragment carries no severity of
/// its own.
pub const HEADERLESS_LEVEL: Level = Level::Unknown;

/// The level of a header whose level text is not one of the eight known ones.
pub const UNKNOWN_LEVEL: Level = Level::Unknown;

/// The level that a header's level text names.
pub open spec fn level_named(text: Seq<char>) -> Level {
    if text == "DEBUG"@ {
        Level::Debug
    } else if text == "INFO"@ {
        Level::Info
    } else if text == "NOTICE"@ {
        Level::Notice
    } else if text == "WARNING"@ {
        Level::Warning
    } else if text == "ERROR"@ {
        Level::Error
    } else if text == "CRITICAL"@ {
        Level::Critical
    } else if text == "ALERT"@ {
        Level::Alert
    } else if text == "EMERGENCY"@ {
        Level::Emergency
    } else {
        Level::Unknown
    }
}

/// The eight levels Laravel writes. Anything else is [`UNKNOWN_LEVEL`].
pub fn level_from(text: &str) -> (level: Level)
    ensures
        level == level_named(text@),
{
    if same_text(text, "DEBUG") {
        Level::Debug
    } else if same_text(text, "INFO") {
        Level::Info
    } else if same_text(text, "NOTICE") {
        Level::Notice
    } else if same_text(text, "WARNING") {
        Level::Warning
    } else if same_text(text, "ERROR") {
        Level::Error
    } else if same_text(text, "CRITICAL") {
        Level::Critical
    } else if same_text(text, "ALERT") {
        Level::Alert
    } else if same_text(text, "EMERGENCY") {
        Level::Emergency
    } else {
        UNKNOWN_LEVEL
    }
}

/// What bytes that are not UTF-8 decode to, each invalid part replaced.
pub uninterp spec fn lossy_text(bytes: Seq<u8>) -> Seq<char>;

/// What bytes decode to: their text where they are UTF-8.
pub open spec fn decoded(bytes: Seq<u8>) -> Seq<char> {
    if valid_utf8(bytes) {
        decode_utf8(bytes)
    } else {
        lossy_text(bytes)
    }
}

/// `String::from_utf8_lossy`.
///
/// Claimed: bytes that are UTF-8 decode to their text, and what other bytes
/// decode to depends on the bytes alone.
#[verifier::external_body]
fn decode_lossy(bytes: &[u8]) -> (text: String)
    ensures
        text@ == lossy_text(bytes@),
        text@ == decoded(bytes@),
{
    String::from_utf8_lossy(bytes).into_owned()
}

/// Where the first line of `bytes` ends: at its first newline, or at the end.
pub open spec fn line_end(bytes: Seq<u8>) -> nat
    decreases bytes.len(),
{
    if bytes.len() == 0 || bytes[0] == 10 {
        0
    } else {
        1 + line_end(bytes.skip(1))
    }
}

/// How many bytes the first line takes, its newline among them.
pub open spec fn line_size(bytes: Seq<u8>) -> nat {
    if line_end(bytes) < bytes.len() {
        line_end(bytes) + 1
    } else {
        line_end(bytes)
    }
}

/// A line without the carriage return at its end.
pub open spec fn without_return(line: Seq<u8>) -> Seq<u8> {
    if line.len() > 0 && line.last() == 13 {
        line.drop_last()
    } else {
        line
    }
}

/// What the first line of `bytes` says. Only a carriage return right before a
/// newline is part of the terminator.
pub open spec fn line_bytes(bytes: Seq<u8>) -> Seq<u8> {
    if line_end(bytes) < bytes.len() {
        without_return(bytes.take(line_end(bytes) as int))
    } else {
        bytes
    }
}

/// A line of a file: where it starts, and what it says.
#[verifier::ext_equal]
pub struct LineModel {
    pub at: nat,
    pub text: Seq<char>,
}

/// The lines of `bytes`, which start at `offset` in their file.
pub open spec fn lines_of(offset: nat, bytes: Seq<u8>) -> Seq<LineModel>
    decreases bytes.len() via lines_of_ends
{
    if bytes.len() == 0 {
        Seq::empty()
    } else {
        seq![LineModel { at: offset, text: decoded(line_bytes(bytes)) }] + lines_of(
            offset + line_size(bytes),
            bytes.skip(line_size(bytes) as int),
        )
    }
}

#[via_fn]
proof fn lines_of_ends(offset: nat, bytes: Seq<u8>) {
    lemma_line_size(bytes);
}

/// An entry still open, and whether any context line has been appended to it:
/// the first context line may be blank.
#[verifier::ext_equal]
pub struct PendingModel {
    pub entry: EntryModel,
    pub has_context: bool,
}

/// An accumulator as text.
#[verifier::ext_equal]
pub struct AccumulatorModel {
    pub project_id: Seq<char>,
    pub file: Seq<char>,
    pub pending: Option<PendingModel>,
}

/// An accumulator to which nothing has been fed.
pub open spec fn fresh(project_id: Seq<char>, file: Seq<char>) -> AccumulatorModel {
    AccumulatorModel { project_id, file, pending: None }
}

/// The entry that a line opens in this accumulator.
pub open spec fn opened(
    acc: AccumulatorModel,
    line: LineModel,
    header: Option<HeaderModel>,
) -> EntryModel {
    EntryModel {
        id: entry_id_text(acc.file, line.at),
        project_id: acc.project_id,
        file: acc.file,
        offset: line.at,
        timestamp: match header {
            Some(header) => header.timestamp,
            None => Seq::empty(),
        },
        env: match header {
            Some(header) => header.env,
            None => Seq::empty(),
        },
        level: match header {
            Some(header) => level_named(header.level),
            None => HEADERLESS_LEVEL,
        },
        message: match header {
            Some(header) => header.message,
            None => line.text,
        },
        context: Seq::empty(),
        raw: line.text,
    }
}

/// A pending entry with one more line.
pub open spec fn extended(pending: PendingModel, line: Seq<char>) -> PendingModel {
    PendingModel {
        entry: EntryModel {
            context: if pending.has_context {
                pending.entry.context + seq!['\n'] + line
            } else {
                pending.entry.context + line
            },
            raw: pending.entry.raw + seq!['\n'] + line,
            ..pending.entry
        },
        has_context: true,
    }
}

/// The accumulator after one more line, of which `header` was read.
///
/// A header opens an entry. Any other line goes to the pending entry, or opens
/// a headerless one where none is pending.
pub open spec fn with_line(
    acc: AccumulatorModel,
    line: LineModel,
    header: Option<HeaderModel>,
) -> AccumulatorModel {
    AccumulatorModel {
        pending: if header is None && acc.pending is Some {
            Some(extended(acc.pending.unwrap(), line.text))
        } else {
            Some(PendingModel { entry: opened(acc, line, header), has_context: false })
        },
        ..acc
    }
}

/// The entry that one more line closes: the pending one, where the line is a
/// header.
pub open spec fn closed_by(
    acc: AccumulatorModel,
    header: Option<HeaderModel>,
) -> Option<EntryModel> {
    if header is Some {
        pending_entry(acc)
    } else {
        None
    }
}

/// The entry still open.
pub open spec fn pending_entry(acc: AccumulatorModel) -> Option<EntryModel> {
    match acc.pending {
        Some(pending) => Some(pending.entry),
        None => None,
    }
}

/// An accumulator whose pending entry has been taken out.
pub open spec fn flushed(acc: AccumulatorModel) -> AccumulatorModel {
    AccumulatorModel { pending: None, ..acc }
}

/// What there is, as a list of at most one.
pub open spec fn listed(entry: Option<EntryModel>) -> Seq<EntryModel> {
    match entry {
        Some(entry) => seq![entry],
        None => Seq::empty(),
    }
}

/// The accumulator after these lines.
pub open spec fn with_lines(acc: AccumulatorModel, lines: Seq<LineModel>) -> AccumulatorModel
    decreases lines.len(),
{
    if lines.len() == 0 {
        acc
    } else {
        with_line(
            with_lines(acc, lines.drop_last()),
            lines.last(),
            header_of(lines.last().text),
        )
    }
}

/// The entries that these lines close, in order.
pub open spec fn closed_by_lines(acc: AccumulatorModel, lines: Seq<LineModel>) -> Seq<EntryModel>
    decreases lines.len(),
{
    if lines.len() == 0 {
        Seq::empty()
    } else {
        closed_by_lines(acc, lines.drop_last()) + listed(
            closed_by(with_lines(acc, lines.drop_last()), header_of(lines.last().text)),
        )
    }
}

/// The entries of a self-contained piece of a log, the last one closed too.
pub open spec fn parsed(
    project_id: Seq<char>,
    file: Seq<char>,
    offset: nat,
    bytes: Seq<u8>,
) -> Seq<EntryModel> {
    let acc = fresh(project_id, file);
    let lines = lines_of(offset, bytes);
    closed_by_lines(acc, lines) + listed(pending_entry(with_lines(acc, lines)))
}

pub proof fn lemma_line_end(bytes: Seq<u8>)
    ensures
        line_end(bytes) <= bytes.len(),
        line_end(bytes) < bytes.len() ==> bytes[line_end(bytes) as int] == 10,
        forall|i: int| 0 <= i < line_end(bytes) ==> bytes[i] != 10,
    decreases bytes.len(),
{
    if bytes.len() == 0 || bytes[0] == 10 {
    } else {
        let rest = bytes.skip(1);
        lemma_line_end(rest);
        assert forall|i: int| 0 <= i < line_end(bytes) implies bytes[i] != 10 by {
            if i > 0 {
                assert(rest[i - 1] == bytes[i]);
            }
        }
    }
}

pub proof fn lemma_line_size(bytes: Seq<u8>)
    ensures
        line_size(bytes) <= bytes.len(),
        bytes.len() > 0 ==> line_size(bytes) > 0,
{
    lemma_line_end(bytes);
}

/// The first newline is where the first line ends.
pub proof fn lemma_line_end_is(bytes: Seq<u8>, end: int)
    requires
        0 <= end <= bytes.len(),
        forall|i: int| 0 <= i < end ==> bytes[i] != 10,
        end < bytes.len() ==> bytes[end] == 10,
    ensures
        line_end(bytes) == end,
{
    lemma_line_end(bytes);
}

/// Where the first newline at or after `from` is, or the end.
fn newline_from(bytes: &[u8], from: usize) -> (end: usize)
    requires
        from <= bytes@.len(),
    ensures
        from <= end <= bytes@.len(),
        forall|i: int| from <= i < end ==> bytes@[i] != 10,
        end < bytes@.len() ==> bytes@[end as int] == 10,
{
    let mut end: usize = from;
    while end < bytes.len() && bytes[end] != 10
        invariant
            from <= end <= bytes@.len(),
            forall|i: int| from <= i < end ==> bytes@[i] != 10,
        decreases bytes@.len() - end,
    {
        end += 1;
    }
    end
}

/// Drop the `\r` of a `\r\n` terminator. Done on bytes, before decoding: `\r`
/// is ASCII and never part of a longer sequence.
pub fn strip_carriage_return(line: &[u8]) -> (stripped: &[u8])
    ensures
        stripped@ == without_return(line@),
{
    if line.len() > 0 && line[line.len() - 1] == 13 {
        let stripped = slice_subrange(line, 0, line.len() - 1);
        assert(stripped@ =~= line@.drop_last());
        stripped
    } else {
        line
    }
}

/// An entry still open: more lines may yet belong to it.
struct Pending {
    entry: LogEntry,
    /// Whether any context line has been appended. A flag rather than whether
    /// `context` is empty, because the first context line may be blank and is
    /// still kept.
    has_context: bool,
}

/// Accumulates lines into entries across as many feeds as the caller makes.
///
/// A file is read in chunks and an entry can span two reads, so the pending
/// entry is held across calls and shown by [`Accumulator::pending`].
pub struct Accumulator {
    project_id: ProjectId,
    file: String,
    pending: Option<Pending>,
    headers: HeaderMatcher,
}

impl View for Accumulator {
    type V = AccumulatorModel;

    closed spec fn view(&self) -> AccumulatorModel {
        AccumulatorModel {
            project_id: self.project_id@,
            file: self.file@,
            pending: match self.pending {
                Some(pending) => Some(
                    PendingModel { entry: pending.entry@, has_context: pending.has_context },
                ),
                None => None,
            },
        }
    }
}

/// An entry that may be there, as text.
pub open spec fn entry_view(entry: Option<LogEntry>) -> Option<EntryModel> {
    match entry {
        Some(entry) => Some(entry@),
        None => None,
    }
}

/// An entry that may be there, behind a reference, as text.
pub open spec fn entry_ref_view(entry: Option<&LogEntry>) -> Option<EntryModel> {
    match entry {
        Some(entry) => Some(entry@),
        None => None,
    }
}

impl Accumulator {
    pub fn new(project_id: ProjectId, file: &str) -> (acc: Self)
        ensures
            acc@ == fresh(project_id@, file@),
    {
        Accumulator {
            project_id,
            file: String::from_str(file),
            pending: None,
            headers: HeaderMatcher::new(),
        }
    }

    /// Feed a chunk of raw bytes that begins at `offset` in the file.
    ///
    /// Decoding is lossy and per line, so invalid UTF-8 never shifts the byte
    /// offsets the ids are built from. Returns the entries this chunk *closed*;
    /// the last one stays pending.
    ///
    /// The chunk is expected to end on a line boundary. A trailing partial line
    /// is treated as a whole line rather than dropped.
    ///
    /// A `\r\n` terminator is a terminator, not content: a log written on
    /// Windows yields the same text as the same log written on Unix. White
    /// space in the content is verbatim.
    pub fn push_bytes(&mut self, offset: u64, bytes: &[u8]) -> (closed: Vec<LogEntry>)
        requires
            offset + bytes@.len() <= u64::MAX,
        ensures
            final(self)@ == with_lines(old(self)@, lines_of(offset as nat, bytes@)),
            entry_views(closed@) == closed_by_lines(
                old(self)@,
                lines_of(offset as nat, bytes@),
            ),
    {
        let ghost start = self@;
        let ghost lines = lines_of(offset as nat, bytes@);
        let mut closed: Vec<LogEntry> = Vec::new();
        let mut pos: usize = 0;
        let ghost mut done: Seq<LineModel> = Seq::empty();
        assert(bytes@.skip(0) =~= bytes@);
        assert(done + lines =~= lines);
        assert(entry_views(closed@) =~= Seq::<EntryModel>::empty());
        while pos < bytes.len()
            invariant
                pos <= bytes@.len(),
                offset + bytes@.len() <= u64::MAX,
                lines == done + lines_of((offset + pos) as nat, bytes@.skip(pos as int)),
                self@ == with_lines(start, done),
                entry_views(closed@) == closed_by_lines(start, done),
            decreases bytes@.len() - pos,
        {
            let end = newline_from(bytes, pos);
            let ghost rest = bytes@.skip(pos as int);
            proof {
                assert forall|i: int| 0 <= i < end - pos implies rest[i] != 10 by {
                    assert(rest[i] == bytes@[pos + i]);
                }
                lemma_line_end_is(rest, end - pos);
                lemma_line_size(rest);
            }
            let held = slice_subrange(bytes, pos, end);
            let line = if end < bytes.len() {
                assert(held@ =~= rest.take(end - pos));
                strip_carriage_return(held)
            } else {
                assert(held@ =~= rest);
                held
            };
            assert(line@ == line_bytes(rest));
            let decoded = decode_lossy(line);
            let ghost read = LineModel { at: (offset + pos) as nat, text: decoded@ };
            let ghost before = closed@;
            if let Some(entry) = self.push_line(offset + pos as u64, decoded.as_str()) {
                closed.push(entry);
                assert(entry_views(closed@) =~= entry_views(before).push(entry@));
            }
            let next: usize = if end < bytes.len() {
                end + 1
            } else {
                end
            };
            proof {
                let after = done.push(read);
                assert(after.drop_last() =~= done);
                assert(bytes@.skip(next as int) =~= rest.skip(line_size(rest) as int));
                assert(lines =~= after + lines_of(
                    (offset + next) as nat,
                    bytes@.skip(next as int),
                ));
                assert(entry_views(closed@) =~= closed_by_lines(start, after));
                done = after;
            }
            pos = next;
        }
        assert(lines =~= done);
        closed
    }

    /// [`Accumulator::push_bytes`] for text that is already valid UTF-8.
    pub fn push_str(&mut self, offset: u64, text: &str) -> (closed: Vec<LogEntry>)
        requires
            offset + encode_utf8(text@).len() <= u64::MAX,
        ensures
            final(self)@ == with_lines(
                old(self)@,
                lines_of(offset as nat, encode_utf8(text@)),
            ),
            entry_views(closed@) == closed_by_lines(
                old(self)@,
                lines_of(offset as nat, encode_utf8(text@)),
            ),
    {
        self.push_bytes(offset, text.as_bytes())
    }

    /// The entry still open, if any.
    pub fn pending(&self) -> (entry: Option<&LogEntry>)
        ensures
            entry_ref_view(entry) == pending_entry(self@),
    {
        match &self.pending {
            Some(pending) => Some(&pending.entry),
            None => None,
        }
    }

    /// Close the pending entry: at the end of the input, or before a break.
    pub fn flush(&mut self) -> (entry: Option<LogEntry>)
        ensures
            final(self)@ == flushed(old(self)@),
            entry_view(entry) == pending_entry(old(self)@),
    {
        match self.pending.take() {
            Some(pending) => Some(pending.entry),
            None => None,
        }
    }

    /// Open a new pending entry. The identity fields are derived here and
    /// nowhere else. `raw` is the line verbatim.
    fn open(
        &mut self,
        offset: u64,
        timestamp: &str,
        env: &str,
        level: Level,
        message: &str,
        line: &str,
    )
        ensures
            final(self)@ == (AccumulatorModel {
                pending: Some(
                    PendingModel {
                        entry: EntryModel {
                            id: entry_id_text(old(self)@.file, offset as nat),
                            project_id: old(self)@.project_id,
                            file: old(self)@.file,
                            offset: offset as nat,
                            timestamp: timestamp@,
                            env: env@,
                            level,
                            message: message@,
                            context: Seq::empty(),
                            raw: line@,
                        },
                        has_context: false,
                    },
                ),
                ..old(self)@
            }),
    {
        let entry = LogEntry {
            id: EntryId::new(self.file.as_str(), offset),
            project_id: self.project_id.clone(),
            file: self.file.clone(),
            offset,
            timestamp: String::from_str(timestamp),
            env: String::from_str(env),
            level,
            message: String::from_str(message),
            context: String::new(),
            raw: String::from_str(line),
        };
        assert(entry.context@ =~= Seq::<char>::empty());
        self.pending = Some(Pending { entry, has_context: false });
    }

    /// One line, at its byte offset in the file. Returns the entry it closed.
    pub fn push_line(&mut self, offset: u64, line: &str) -> (closed: Option<LogEntry>)
        ensures
            final(self)@ == with_line(
                old(self)@,
                (LineModel { at: offset as nat, text: line@ }),
                header_of(line@),
            ),
            entry_view(closed) == closed_by(old(self)@, header_of(line@)),
    {
        let header = self.headers.header(line);
        self.push_read(offset, line, header)
    }

    /// One line of which the header, if it is one, has been read.
    pub fn push_read(&mut self, offset: u64, line: &str, header: Option<Header>) -> (closed: Option<
        LogEntry,
    >)
        ensures
            final(self)@ == with_line(
                old(self)@,
                (LineModel { at: offset as nat, text: line@ }),
                found(header),
            ),
            entry_view(closed) == closed_by(old(self)@, found(header)),
    {
        match header {
            Some(header) => {
                let closed = self.flush();
                let level = level_from(header.level.as_str());
                self.open(
                    offset,
                    header.timestamp.as_str(),
                    header.env.as_str(),
                    level,
                    header.message.as_str(),
                    line,
                );
                closed
            },
            None => {
                match &mut self.pending {
                    Some(pending) => {
                        proof {
                            reveal_strlit("\n");
                            assert("\n"@ =~= seq!['\n']);
                        }
                        if pending.has_context {
                            pending.entry.context.append("\n");
                        }
                        pending.entry.context.append(line);
                        pending.has_context = true;
                        pending.entry.raw.append("\n");
                        pending.entry.raw.append(line);
                    },
                    // Content before any header is kept: its frames are still
                    // what the reader wants to copy.
                    None => {
                        proof {
                            reveal_strlit("");
                            assert(""@ =~= Seq::<char>::empty());
                        }
                        self.open(offset, "", "", HEADERLESS_LEVEL, line, line);
                    },
                }
                None
            },
        }
    }
}

/// Parse a self-contained slice of log text into entries, closing the last one.
/// For incremental feeding use [`Accumulator`].
pub fn parse_entries(project_id: &ProjectId, file: &str, offset: u64, text: &str) -> (entries: Vec<
    LogEntry,
>)
    requires
        offset + encode_utf8(text@).len() <= u64::MAX,
    ensures
        entry_views(entries@) == parsed(
            project_id@,
            file@,
            offset as nat,
            encode_utf8(text@),
        ),
{
    parse_bytes(project_id, file, offset, text.as_bytes())
}

/// [`parse_entries`] over raw bytes; invalid UTF-8 decodes lossily.
pub fn parse_bytes(project_id: &ProjectId, file: &str, offset: u64, bytes: &[u8]) -> (entries: Vec<
    LogEntry,
>)
    requires
        offset + bytes@.len() <= u64::MAX,
    ensures
        entry_views(entries@) == parsed(project_id@, file@, offset as nat, bytes@),
{
    let mut acc = Accumulator::new(project_id.clone(), file);
    let mut entries = acc.push_bytes(offset, bytes);
    let ghost closed = entries@;
    if let Some(entry) = acc.flush() {
        entries.push(entry);
        assert(entry_views(entries@) =~= entry_views(closed).push(entry@));
    }
    assert(entry_views(entries@) =~= parsed(project_id@, file@, offset as nat, bytes@));
    entries
}

} // verus!
