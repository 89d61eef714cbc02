//! The opening window: the last entries of a file, found by reading backwards.

use vstd::prelude::*;
use vstd::string::*;

use crate::ids::{stamped_entry_id, stamped_entry_text, token_text, Generation};
use crate::model::{
    entry_id_text, entry_views, EntryModel, ItemModel, LogEntry, ProjectId, StreamItem,
};
use crate::parser::{parse_bytes, parsed};
use crate::parser_laws::{
    a_tail_has_no_more_entries, entries_stand_in_order, every_entry_is_whole, has_header, is_whole,
    only_the_first_entry_can_lack_a_header, pieces_that_meet_at_a_header_add_up,
    reading_resumes_at_an_entry,
};
use crate::text::{decimal, lemma_decimal};

verus! {

/// The window stops at this many entries,
pub const WINDOW_ENTRIES: usize = 500;

/// or at this many bytes, whichever comes first.
pub const WINDOW_MAX_BYTES: u64 = 2 * 1024 * 1024;

/// The first backward read; doubled until one of the two limits is hit.
pub const WINDOW_CHUNK_BYTES: u64 = 64 * 1024;

/// How far a backward walk has come: it reads `chunk` bytes up to `before`.
#[derive(Debug, Clone, Copy, PartialEq, Eq)]
pub struct WindowWalk {
    before: u64,
    chunk: u64,
}

/// A backward walk, as numbers.
#[verifier::ext_equal]
pub struct WalkModel {
    pub before: nat,
    pub chunk: nat,
}

impl View for WindowWalk {
    type V = WalkModel;

    closed spec fn view(&self) -> WalkModel {
        WalkModel { before: self.before as nat, chunk: self.chunk as nat }
    }
}

/// The walk that ends at `before`, at its first read.
pub open spec fn first_walk(before: nat) -> WalkModel {
    WalkModel { before, chunk: WINDOW_CHUNK_BYTES as nat }
}

/// The same walk at its next read, twice as long.
pub open spec fn longer_walk(walk: WalkModel) -> WalkModel {
    WalkModel { chunk: walk.chunk * 2, ..walk }
}

/// Where a read starts: `chunk` bytes back, or at the start of the file.
pub open spec fn walk_start(walk: WalkModel) -> nat {
    if walk.before >= walk.chunk {
        (walk.before - walk.chunk) as nat
    } else {
        0
    }
}

/// Whether a read that gave this many entries ends the walk.
pub open spec fn is_enough(walk: WalkModel, entries: nat) -> bool {
    entries >= WINDOW_ENTRIES || walk.chunk >= WINDOW_MAX_BYTES || walk_start(walk) == 0
}

/// The lengths a read can have.
pub open spec fn is_chunk(chunk: nat) -> bool {
    ||| chunk == WINDOW_CHUNK_BYTES
    ||| chunk == WINDOW_CHUNK_BYTES * 2
    ||| chunk == WINDOW_CHUNK_BYTES * 4
    ||| chunk == WINDOW_CHUNK_BYTES * 8
    ||| chunk == WINDOW_CHUNK_BYTES * 16
    ||| chunk == WINDOW_CHUNK_BYTES * 32
}

impl WindowWalk {
    #[verifier::type_invariant]
    spec fn inv(&self) -> bool {
        is_chunk(self.chunk as nat)
    }

    /// The walk that ends at `before`, at its first read.
    pub fn new(before: u64) -> (walk: Self)
        ensures
            walk@ == first_walk(before as nat),
    {
        WindowWalk { before, chunk: WINDOW_CHUNK_BYTES }
    }

    /// The bytes to read next: from where, and up to where.
    pub fn range(&self) -> (range: (u64, u64))
        ensures
            range.0 == walk_start(self@),
            range.1 == self@.before,
            range.1 - range.0 <= WINDOW_MAX_BYTES,
    {
        proof {
            use_type_invariant(self);
        }
        (self.before.saturating_sub(self.chunk), self.before)
    }

    fn longer(&self) -> (walk: Self)
        requires
            self@.chunk < WINDOW_MAX_BYTES,
        ensures
            walk@ == longer_walk(self@),
    {
        proof {
            use_type_invariant(self);
        }
        WindowWalk { before: self.before, chunk: self.chunk * 2 }
    }
}

/// The result of a backward walk: what to show, and where it starts.
#[derive(Debug, PartialEq, Eq)]
pub struct Window {
    pub items: Vec<StreamItem>,
    /// Offset of the first entry shown: what paging goes back from.
    pub first_offset: u64,
    /// Where live tailing resumes. This is the *last* entry's offset, not the
    /// end of the file: the entry is read again and shown again under the same
    /// id, so a record still being written is revised in place.
    pub next_offset: u64,
}

/// A window as text.
#[verifier::ext_equal]
pub struct WindowModel {
    pub items: Seq<ItemModel>,
    pub first_offset: nat,
    pub next_offset: nat,
}

/// The items of a list, as text.
pub open spec fn item_views(items: Seq<StreamItem>) -> Seq<ItemModel> {
    items.map_values(|item: StreamItem| item@)
}

impl View for Window {
    type V = WindowModel;

    open spec fn view(&self) -> WindowModel {
        WindowModel {
            items: item_views(self.items@),
            first_offset: self.first_offset as nat,
            next_offset: self.next_offset as nat,
        }
    }
}

/// What a read of a walk comes to: another read, or a window.
#[derive(Debug, PartialEq, Eq)]
pub enum WindowStep {
    Again(WindowWalk),
    Done(Window),
}

/// What a read of a walk comes to, as text.
pub enum StepModel {
    Again(WalkModel),
    Done(WindowModel),
}

impl View for WindowStep {
    type V = StepModel;

    open spec fn view(&self) -> StepModel {
        match self {
            WindowStep::Again(walk) => StepModel::Again(walk@),
            WindowStep::Done(window) => StepModel::Done(window@),
        }
    }
}

/// Whether an entry never carried a header: the tail of one whose header sits
/// before what was read.
pub open spec fn lacks_header(entry: EntryModel) -> bool {
    entry.timestamp.len() == 0 && entry.env.len() == 0
}

/// Whether an entry never carried a header.
pub fn is_headerless(entry: &LogEntry) -> (headerless: bool)
    ensures
        headerless == lacks_header(entry@),
{
    entry.timestamp.as_str().unicode_len() == 0 && entry.env.as_str().unicode_len() == 0
}

/// The entries without the tail of one that began before what was read, where
/// that leaves any.
pub open spec fn tidied(start: nat, entries: Seq<EntryModel>) -> Seq<EntryModel> {
    if start > 0 && entries.len() > 1 && lacks_header(entries[0]) {
        entries.drop_first()
    } else {
        entries
    }
}

/// The last entries that a window has room for.
pub open spec fn last_ones(entries: Seq<EntryModel>) -> Seq<EntryModel> {
    if entries.len() > WINDOW_ENTRIES {
        entries.skip(entries.len() - WINDOW_ENTRIES)
    } else {
        entries
    }
}

/// An entry under the id that a generation gives it.
pub open spec fn stamped(entry: EntryModel, generation: nat) -> EntryModel {
    EntryModel { id: stamped_entry_text(entry.file, entry.offset, generation), ..entry }
}

/// The entries that a window shows.
pub open spec fn shown(start: nat, entries: Seq<EntryModel>) -> Seq<EntryModel> {
    last_ones(tidied(start, entries))
}

/// The window onto these entries of a walk.
pub open spec fn window_onto(
    walk: WalkModel,
    entries: Seq<EntryModel>,
    generation: nat,
) -> WindowModel {
    let shown = shown(walk_start(walk), entries);
    WindowModel {
        items: shown.map_values(
            |entry: EntryModel| ItemModel::Entry(stamped(entry, generation)),
        ),
        first_offset: if shown.len() > 0 {
            shown[0].offset
        } else {
            walk.before
        },
        next_offset: if shown.len() > 0 {
            shown.last().offset
        } else {
            walk.before
        },
    }
}

/// What a read of a walk comes to.
pub open spec fn walked(
    walk: WalkModel,
    entries: Seq<EntryModel>,
    generation: nat,
) -> StepModel {
    if is_enough(walk, entries.len()) {
        StepModel::Done(window_onto(walk, entries, generation))
    } else {
        StepModel::Again(longer_walk(walk))
    }
}

/// One read of a backward walk: `bytes` are what its range holds, or the
/// beginning of it where the file has become shorter.
///
/// Everything before the first header is left out, so the window never opens
/// in the middle of a trace, unless that would leave nothing at all, or the
/// walk reached the start of the file, where a headerless first entry is the
/// file's own content.
pub fn read_window(
    project_id: &ProjectId,
    file: &str,
    generation: Generation,
    walk: WindowWalk,
    bytes: &[u8],
) -> (step: WindowStep)
    requires
        walk_start(walk@) + bytes@.len() <= walk@.before,
    ensures
        step@ == walked(
            walk@,
            parsed(project_id@, file@, walk_start(walk@), bytes@),
            generation as nat,
        ),
{
    let start: u64 = walk.range().0;
    let before: u64 = walk.before;
    let mut entries = parse_bytes(project_id, file, start, bytes);
    let ghost all = entry_views(entries@);
    proof {
        use_type_invariant(&walk);
        assert(all.len() == entries@.len());
    }
    if entries.len() < WINDOW_ENTRIES && walk.chunk < WINDOW_MAX_BYTES && start != 0 {
        return WindowStep::Again(walk.longer());
    }
    // Leaving out the leading partial entry is a courtesy, not a rule: one
    // entry whose context runs past the limit parses as a single headerless
    // entry, and without it the window would be empty.
    if start > 0 && entries.len() > 1 && is_headerless(&entries[0]) {
        entries.remove(0);
        assert(entry_views(entries@) =~= all.drop_first());
    }
    assert(entry_views(entries@) == tidied(start as nat, all));
    if entries.len() > WINDOW_ENTRIES {
        let over: usize = entries.len() - WINDOW_ENTRIES;
        let ghost tidy = entry_views(entries@);
        entries = entries.split_off(over);
        assert(entry_views(entries@) =~= tidy.skip(over as int));
    }
    let ghost shown = shown(start as nat, all);
    assert(entry_views(entries@) == shown);
    let count: usize = entries.len();
    let first_offset: u64 = if count > 0 {
        entries[0].offset
    } else {
        before
    };
    let next_offset: u64 = if count > 0 {
        entries[count - 1].offset
    } else {
        before
    };
    proof {
        if count > 0 {
            assert(shown[0] == entries@[0]@);
            assert(shown.last() == entries@[count - 1]@);
        }
    }
    let items = stamp_all(entries, generation);
    let window = Window { items, first_offset, next_offset };
    assert(window@.items =~= window_onto(walk@, all, generation as nat).items);
    WindowStep::Done(window)
}

/// The items of a window onto these entries, under the ids of a generation.
fn stamp_all(entries: Vec<LogEntry>, generation: Generation) -> (items: Vec<StreamItem>)
    ensures
        item_views(items@) == entry_views(entries@).map_values(
            |entry: EntryModel| ItemModel::Entry(stamped(entry, generation as nat)),
        ),
{
    let ghost models = entry_views(entries@);
    let ghost all = entries@;
    let mut items: Vec<StreamItem> = Vec::new();
    for entry in iter: entries
        invariant
            iter.seq() == all,
            models == entry_views(all),
            items@.len() == iter.index(),
            forall|i: int|
                0 <= i < items@.len() ==> (#[trigger] items@[i])@ == ItemModel::Entry(
                    stamped(models[i], generation as nat),
                ),
    {
        let mut entry = entry;
        let id = stamped_entry_id(entry.file.as_str(), entry.offset, generation);
        entry.id = id;
        items.push(StreamItem::Entry(entry));
    }
    assert(item_views(items@) =~= models.map_values(
        |entry: EntryModel| ItemModel::Entry(stamped(entry, generation as nat)),
    ));
    items
}

/// A window holds no more entries than it has room for, and they are the last
/// ones that were read, in order and before where the walk ends.
pub proof fn a_window_shows_the_last_entries(
    project_id: Seq<char>,
    file: Seq<char>,
    walk: WalkModel,
    bytes: Seq<u8>,
)
    requires
        walk_start(walk) + bytes.len() <= walk.before,
    ensures
        ({
            let entries = parsed(project_id, file, walk_start(walk), bytes);
            let shown = shown(walk_start(walk), entries);
            &&& shown.len() <= WINDOW_ENTRIES
            &&& shown.len() <= entries.len()
            &&& shown == entries.skip(entries.len() - shown.len())
            &&& forall|i: int|
                0 <= i < shown.len() ==> walk_start(walk) <= (#[trigger] shown[i]).offset
                    < walk.before
            &&& forall|i: int, j: int|
                0 <= i < j < shown.len() ==> (#[trigger] shown[i]).offset < (
                #[trigger] shown[j]).offset
        }),
{
    let start = walk_start(walk);
    let entries = parsed(project_id, file, start, bytes);
    let shown = shown(start, entries);
    entries_stand_in_order(project_id, file, start, bytes);
    let left: int = entries.len() - shown.len();
    assert(shown =~= entries.skip(left));
    assert forall|i: int| 0 <= i < shown.len() implies start <= (#[trigger] shown[i]).offset
        < walk.before by {
        assert(shown[i] == entries[i + left]);
    }
    assert forall|i: int, j: int| 0 <= i < j < shown.len() implies (#[trigger] shown[i]).offset < (
    #[trigger] shown[j]).offset by {
        assert(shown[i] == entries[i + left]);
        assert(shown[j] == entries[j + left]);
    }
}

/// A window onto something is not empty: where nothing but the tail of one
/// entry was read, that tail is shown.
pub proof fn a_window_is_never_empty_without_reason(
    project_id: Seq<char>,
    file: Seq<char>,
    walk: WalkModel,
    bytes: Seq<u8>,
)
    ensures
        shown(walk_start(walk), parsed(project_id, file, walk_start(walk), bytes)).len() > 0
            <==> bytes.len() > 0,
{
    entries_stand_in_order(project_id, file, walk_start(walk), bytes);
}

/// A window never opens in the middle of an entry: its first one has a header,
/// unless it is the only one, or the walk reached the start of the file.
pub proof fn a_window_opens_at_a_header(
    project_id: Seq<char>,
    file: Seq<char>,
    walk: WalkModel,
    bytes: Seq<u8>,
)
    requires
        walk_start(walk) > 0,
    ensures
        ({
            let shown = shown(walk_start(walk), parsed(project_id, file, walk_start(walk), bytes));
            shown.len() > 1 ==> !lacks_header(shown[0])
        }),
{
    let start = walk_start(walk);
    let entries = parsed(project_id, file, start, bytes);
    only_the_first_entry_can_lack_a_header(project_id, file, start, bytes);
    let shown = shown(start, entries);
    if shown.len() > 1 {
        let left: int = entries.len() - shown.len();
        assert(shown[0] == entries[left]);
        if left > 0 {
            assert(has_header(entries[left]));
        }
    }
}

/// A walk ends: each read is twice as long as the one before, and one of the
/// longest length is the last.
pub proof fn a_walk_ends(walk: WalkModel, entries: nat)
    requires
        is_chunk(walk.chunk),
    ensures
        walk.chunk <= WINDOW_MAX_BYTES,
        !is_enough(walk, entries) ==> is_chunk(longer_walk(walk).chunk) && longer_walk(walk).chunk
            > walk.chunk,
        walk.chunk == WINDOW_MAX_BYTES ==> is_enough(walk, entries),
{
}

/// An entry of a window is the one that reading found, under the id of its
/// generation; before the first break that is the id it already had.
pub proof fn stamping_changes_only_the_id(
    entry: EntryModel,
    project_id: Seq<char>,
    file: Seq<char>,
    generation: nat,
)
    requires
        is_whole(entry, project_id, file),
    ensures
        stamped(entry, generation) == (EntryModel {
            id: stamped(entry, generation).id,
            ..entry
        }),
        stamped(entry, 0) == entry,
{
}

/// A window shows exactly the entries of the file from its first offset to where
/// the walk ends.
pub proof fn a_window_is_what_its_range_holds(
    project_id: Seq<char>,
    file: Seq<char>,
    content: Seq<u8>,
    walk: WalkModel,
    generation: nat,
)
    requires
        walk_start(walk) < walk.before <= content.len(),
    ensures
        ({
            let bytes = content.subrange(walk_start(walk) as int, walk.before as int);
            let entries = parsed(project_id, file, walk_start(walk), bytes);
            let first = window_onto(walk, entries, generation).first_offset;
            let shown = shown(walk_start(walk), entries);
            &&& shown.len() > 0
            &&& walk_start(walk) <= first < walk.before
            &&& shown[0].offset == first
            &&& parsed(
                project_id,
                file,
                first,
                content.subrange(first as int, walk.before as int),
            ) == shown
        }),
{
    let start = walk_start(walk);
    let bytes = content.subrange(start as int, walk.before as int);
    let entries = parsed(project_id, file, start, bytes);
    let shown = shown(start, entries);
    a_window_shows_the_last_entries(project_id, file, walk, bytes);
    a_window_is_never_empty_without_reason(project_id, file, walk, bytes);
    let left: int = entries.len() - shown.len();
    assert(shown[0] == entries[left]);
    reading_resumes_at_an_entry(project_id, file, start, bytes, left);
    let first = shown[0].offset;
    assert(bytes.skip(first - start) =~= content.subrange(first as int, walk.before as int));
}

/// Two pages of a file that does not change, the second read back from where the
/// first starts, meet without gap or overlap: the one shows exactly what the
/// file holds up to there, the other exactly what it holds from there, and they
/// share no id. Where the first starts with a header on a line of its own, the
/// two together are what the file holds.
pub proof fn pages_meet(
    project_id: Seq<char>,
    file: Seq<char>,
    content: Seq<u8>,
    walk: WalkModel,
    earlier: WalkModel,
    generation: nat,
)
    requires
        walk_start(walk) < walk.before <= content.len(),
        is_chunk(earlier.chunk),
        earlier.before == window_onto(
            walk,
            parsed(
                project_id,
                file,
                walk_start(walk),
                content.subrange(walk_start(walk) as int, walk.before as int),
            ),
            generation,
        ).first_offset,
        earlier.before > 0,
    ensures
        ({
            let entries = parsed(
                project_id,
                file,
                walk_start(walk),
                content.subrange(walk_start(walk) as int, walk.before as int),
            );
            let before = parsed(
                project_id,
                file,
                walk_start(earlier),
                content.subrange(walk_start(earlier) as int, earlier.before as int),
            );
            let page = shown(walk_start(walk), entries);
            let back = shown(walk_start(earlier), before);
            let cut = earlier.before as int;
            let first = window_onto(earlier, before, generation).first_offset;
            &&& back.len() > 0
            &&& first < cut
            &&& back == parsed(project_id, file, first, content.subrange(first as int, cut))
            &&& page == parsed(
                project_id,
                file,
                cut as nat,
                content.subrange(cut, walk.before as int),
            )
            &&& forall|i: int, j: int|
                0 <= i < back.len() && 0 <= j < page.len() ==> (#[trigger] back[i]).offset < cut
                    <= (#[trigger] page[j]).offset && stamped(back[i], generation).id != stamped(
                    page[j],
                    generation,
                ).id
            &&& content[cut - 1] == 10 && has_header(page[0]) ==> parsed(
                project_id,
                file,
                first,
                content.subrange(first as int, walk.before as int),
            ) == back + page
        }),
{
    a_window_is_what_its_range_holds(project_id, file, content, walk, generation);
    a_window_is_what_its_range_holds(project_id, file, content, earlier, generation);
    let entries = parsed(
        project_id,
        file,
        walk_start(walk),
        content.subrange(walk_start(walk) as int, walk.before as int),
    );
    let before = parsed(
        project_id,
        file,
        walk_start(earlier),
        content.subrange(walk_start(earlier) as int, earlier.before as int),
    );
    let page = shown(walk_start(walk), entries);
    let back = shown(walk_start(earlier), before);
    let cut = earlier.before as int;
    let first = window_onto(earlier, before, generation).first_offset;
    let a = content.subrange(first as int, cut);
    let b = content.subrange(cut, walk.before as int);
    entries_stand_in_order(project_id, file, first, a);
    entries_stand_in_order(project_id, file, cut as nat, b);
    every_entry_is_whole(project_id, file, first, a);
    every_entry_is_whole(project_id, file, cut as nat, b);
    assert forall|i: int, j: int| 0 <= i < back.len() && 0 <= j < page.len() implies (
    #[trigger] back[i]).offset < cut <= (#[trigger] page[j]).offset && stamped(
        back[i],
        generation,
    ).id != stamped(page[j], generation).id by {
        assert(is_whole(back[i], project_id, file));
        assert(is_whole(page[j], project_id, file));
        lemma_offsets_tell_ids_apart(
            token_text(file, generation),
            back[i].offset,
            page[j].offset,
        );
    }
    if content[cut - 1] == 10 && has_header(page[0]) {
        assert(a.last() == content[cut - 1]);
        pieces_that_meet_at_a_header_add_up(project_id, file, first, a, b);
        assert(a + b =~= content.subrange(first as int, walk.before as int));
    }
}

/// Ids of one file in one generation differ where their offsets do.
proof fn lemma_offsets_tell_ids_apart(token: Seq<char>, a: nat, b: nat)
    requires
        a != b,
    ensures
        entry_id_text(token, a) != entry_id_text(token, b),
{
    let x = entry_id_text(token, a);
    let y = entry_id_text(token, b);
    lemma_decimal(a);
    lemma_decimal(b);
    assert(x.skip(token.len() as int + 1) =~= decimal(a));
    assert(y.skip(token.len() as int + 1) =~= decimal(b));
}

/// A read reaches back as far as it is long, or to the start of the file.
pub proof fn a_read_reaches_back_by_its_length(walk: WalkModel)
    ensures
        walk_start(walk) + walk.chunk == walk.before || walk_start(walk) == 0 && walk.before
            < walk.chunk,
{
}

/// Whether the first of these entries is the tail of one whose header was not
/// read, where that is to be left out.
pub open spec fn begins_with_a_tail(start: nat, entries: Seq<EntryModel>) -> bool {
    start > 0 && entries.len() > 1 && entries[0].timestamp.len() == 0 && entries[0].env.len() == 0
}

/// A window shows as much as it can: of the entries that were read all, or the
/// last 500, and only the tail of one that began before them is left out.
pub proof fn a_window_shows_as_much_as_it_can(start: nat, entries: Seq<EntryModel>)
    ensures
        ({
            let whole = if begins_with_a_tail(start, entries) {
                entries.skip(1)
            } else {
                entries
            };
            &&& whole.len() <= 500 ==> shown(start, entries) == whole
            &&& whole.len() > 500 ==> shown(start, entries) == whole.skip(whole.len() - 500)
        }),
{
    assert(entries.len() > 0 ==> entries.skip(1) =~= entries.drop_first());
}

/// Each item of a window is the entry that was read, under the id of its file,
/// its generation and its place; the window starts where its first entry does
/// and tailing resumes where its last one does.
pub proof fn a_window_says_where_it_starts_and_resumes(
    walk: WalkModel,
    entries: Seq<EntryModel>,
    generation: nat,
)
    ensures
        ({
            let window = window_onto(walk, entries, generation);
            let shown = shown(walk_start(walk), entries);
            &&& window.items.len() == shown.len()
            &&& forall|k: int|
                0 <= k < shown.len() ==> #[trigger] window.items[k] == ItemModel::Entry(
                    EntryModel {
                        id: stamped_entry_text(shown[k].file, shown[k].offset, generation),
                        ..shown[k]
                    },
                )
            &&& shown.len() > 0 ==> window.first_offset == shown[0].offset && window.next_offset
                == shown[shown.len() - 1].offset
            &&& shown.len() == 0 ==> window.first_offset == walk.before && window.next_offset
                == walk.before
        }),
{
}

/// What a backward walk over a file comes to within this many reads: each read
/// is of what its range holds, and where it is not enough the next one follows.
pub open spec fn walk_over(
    project_id: Seq<char>,
    file: Seq<char>,
    content: Seq<u8>,
    walk: WalkModel,
    generation: nat,
    reads: nat,
) -> Option<WindowModel>
    decreases reads,
{
    if reads == 0 {
        None
    } else {
        match walked(
            walk,
            parsed(
                project_id,
                file,
                walk_start(walk),
                content.subrange(walk_start(walk) as int, walk.before as int),
            ),
            generation,
        ) {
            StepModel::Done(window) => Some(window),
            StepModel::Again(longer) => walk_over(
                project_id,
                file,
                content,
                longer,
                generation,
                (reads - 1) as nat,
            ),
        }
    }
}

/// Whether this many reads are enough for a walk, whatever it finds.
spec fn are_reads_enough(chunk: nat, reads: nat) -> bool {
    ||| chunk == 65536 * 32 && reads >= 1
    ||| chunk == 65536 * 16 && reads >= 2
    ||| chunk == 65536 * 8 && reads >= 3
    ||| chunk == 65536 * 4 && reads >= 4
    ||| chunk == 65536 * 2 && reads >= 5
    ||| chunk == 65536 && reads >= 6
}

/// Whether a window is what a read from `start` shows: the entries from there up
/// to `before`, as many as it can.
pub open spec fn is_window_from(
    window: WindowModel,
    project_id: Seq<char>,
    file: Seq<char>,
    content: Seq<u8>,
    start: nat,
    before: nat,
    generation: nat,
) -> bool {
    let entries = parsed(
        project_id,
        file,
        start,
        content.subrange(start as int, before as int),
    );
    let whole = if begins_with_a_tail(start, entries) {
        entries.skip(1)
    } else {
        entries
    };
    let last = if whole.len() <= 500 {
        whole
    } else {
        whole.skip(whole.len() - 500)
    };
    &&& window.items.len() == last.len()
    &&& forall|k: int|
        0 <= k < last.len() ==> #[trigger] window.items[k] == ItemModel::Entry(
            EntryModel {
                id: stamped_entry_text(last[k].file, last[k].offset, generation),
                ..last[k]
            },
        )
    &&& window.first_offset == if last.len() > 0 {
        last[0].offset
    } else {
        before
    }
    &&& window.next_offset == if last.len() > 0 {
        last[last.len() - 1].offset
    } else {
        before
    }
}

/// Whether a read from `start` up to `before` that shows this many entries may
/// end a walk: it found 500, or 499 once the tail of one is left out, or it was
/// as long as a read can be, or it began at the start of the file.
pub open spec fn may_end(start: nat, before: nat, items: nat) -> bool {
    items >= 499 || before - start == 2 * 1024 * 1024 || start == 0
}

/// Whether a window is what some read that may end a walk shows.
pub open spec fn is_at_a_limit(
    window: WindowModel,
    project_id: Seq<char>,
    file: Seq<char>,
    content: Seq<u8>,
    before: nat,
    generation: nat,
) -> bool {
    exists|start: nat|
        {
            &&& start <= before
            &&& #[trigger] may_end(start, before, window.items.len())
            &&& is_window_from(window, project_id, file, content, start, before, generation)
        }
}

/// A backward walk ends within six reads, and not before it has shown all that
/// it promises: 500 entries, or 2 MB of the file, or the file from its start.
pub proof fn a_walk_goes_on_to_its_limits(
    project_id: Seq<char>,
    file: Seq<char>,
    content: Seq<u8>,
    before: nat,
    generation: nat,
)
    requires
        before <= content.len(),
    ensures
        walk_over(project_id, file, content, first_walk(before), generation, 6) matches Some(window)
            && is_at_a_limit(window, project_id, file, content, before, generation),
{
    lemma_walk_over(project_id, file, content, first_walk(before), generation, 6);
}

proof fn lemma_walk_over(
    project_id: Seq<char>,
    file: Seq<char>,
    content: Seq<u8>,
    walk: WalkModel,
    generation: nat,
    reads: nat,
)
    requires
        walk.before <= content.len(),
        are_reads_enough(walk.chunk, reads),
    ensures
        walk_over(project_id, file, content, walk, generation, reads) matches Some(window)
            && is_at_a_limit(window, project_id, file, content, walk.before, generation),
    decreases reads,
{
    let start = walk_start(walk);
    let entries = parsed(
        project_id,
        file,
        start,
        content.subrange(start as int, walk.before as int),
    );
    match walked(walk, entries, generation) {
        StepModel::Done(window) => {
            a_read_reaches_back_by_its_length(walk);
            a_window_shows_as_much_as_it_can(start, entries);
            a_window_says_where_it_starts_and_resumes(walk, entries, generation);
            assert(may_end(start, walk.before, window.items.len()));
        },
        StepModel::Again(longer) => {
            lemma_walk_over(project_id, file, content, longer, generation, (reads - 1) as nat);
        },
    }
}

/// The beginning of a file of at most 2 MB that holds fewer than 500 entries is
/// shown whole, from its first byte.
pub proof fn a_short_file_is_shown_whole(
    project_id: Seq<char>,
    file: Seq<char>,
    content: Seq<u8>,
    before: nat,
    generation: nat,
)
    requires
        before <= content.len(),
        before <= 2 * 1024 * 1024,
        parsed(project_id, file, 0, content.take(before as int)).len() < 500,
    ensures
        ({
            let entries = parsed(project_id, file, 0, content.take(before as int));
            &&& walk_over(project_id, file, content, first_walk(before), generation, 6) matches Some(
                window,
            )
            &&& window.first_offset == 0
            &&& window.items.len() == entries.len()
            &&& forall|k: int|
                0 <= k < entries.len() ==> #[trigger] window.items[k] == ItemModel::Entry(
                    EntryModel {
                        id: stamped_entry_text(file, entries[k].offset, generation),
                        ..entries[k]
                    },
                )
        }),
{
    let whole = content.take(before as int);
    let entries = parsed(project_id, file, 0, whole);
    lemma_short_walk(project_id, file, content, first_walk(before), generation, 6);
    let window = walk_over(project_id, file, content, first_walk(before), generation, 6).unwrap();
    assert(content.subrange(0, before as int) =~= whole);
    entries_stand_in_order(project_id, file, 0, whole);
    every_entry_is_whole(project_id, file, 0, whole);
    assert forall|k: int| 0 <= k < entries.len() implies #[trigger] window.items[k]
        == ItemModel::Entry(
        EntryModel { id: stamped_entry_text(file, entries[k].offset, generation), ..entries[k] },
    ) by {
        assert(is_whole(entries[k], project_id, file));
    }
}

proof fn lemma_short_walk(
    project_id: Seq<char>,
    file: Seq<char>,
    content: Seq<u8>,
    walk: WalkModel,
    generation: nat,
    reads: nat,
)
    requires
        walk.before <= content.len(),
        walk.before <= 2 * 1024 * 1024,
        parsed(project_id, file, 0, content.take(walk.before as int)).len() < 500,
        are_reads_enough(walk.chunk, reads),
    ensures
        walk_over(project_id, file, content, walk, generation, reads) matches Some(window)
            && is_window_from(window, project_id, file, content, 0, walk.before, generation),
    decreases reads,
{
    let start = walk_start(walk);
    let whole = content.take(walk.before as int);
    let part = content.subrange(start as int, walk.before as int);
    let entries = parsed(project_id, file, start, part);
    assert(whole.skip(start as int) =~= part);
    a_tail_has_no_more_entries(project_id, file, 0, whole, start);
    match walked(walk, entries, generation) {
        StepModel::Done(window) => {
            assert(start == 0);
            a_window_shows_as_much_as_it_can(start, entries);
            a_window_says_where_it_starts_and_resumes(walk, entries, generation);
        },
        StepModel::Again(longer) => {
            lemma_short_walk(project_id, file, content, longer, generation, (reads - 1) as nat);
        },
    }
}

} // verus!
