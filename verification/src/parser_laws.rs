//! What holds of the entries of every log, however it was fed.

use vstd::prelude::*;
use vstd::utf8::*;

use crate::header::{a_found_header_is_in_the_line, header_of};
use crate::model::{entry_id_text, EntryModel, Level};
use crate::parser::{
    closed_by_lines, decoded, fresh, flushed, lemma_line_end, lemma_line_end_is, lemma_line_size,
    level_named, line_bytes, line_end, line_size, lines_of, listed, lossy_text, parsed,
    pending_entry, with_lines, AccumulatorModel, LineModel, HEADERLESS_LEVEL,
};
use crate::text::joined;

verus! {

/// The texts of a list of lines.
pub open spec fn line_texts(lines: Seq<LineModel>) -> Seq<Seq<char>> {
    lines.map_values(|line: LineModel| line.text)
}

/// The verbatim texts of a list of entries.
pub open spec fn raws(entries: Seq<EntryModel>) -> Seq<Seq<char>> {
    entries.map_values(|entry: EntryModel| entry.raw)
}

/// The entries of these lines, the one still open among them.
pub open spec fn entries_of(acc: AccumulatorModel, lines: Seq<LineModel>) -> Seq<EntryModel> {
    closed_by_lines(acc, lines) + listed(pending_entry(with_lines(acc, lines)))
}

/// Whether an entry starts with this line: its fields are what the line says.
pub open spec fn starts_with(entry: EntryModel, first: Seq<char>) -> bool {
    &&& match header_of(first) {
        Some(header) => {
            &&& entry.timestamp == header.timestamp
            &&& entry.env == header.env
            &&& entry.level == level_named(header.level)
            &&& entry.message == header.message
        },
        None => {
            &&& entry.timestamp.len() == 0
            &&& entry.env.len() == 0
            &&& entry.level == HEADERLESS_LEVEL
            &&& entry.message == first
        },
    }
    &&& ({
        ||| entry.raw == first && entry.context.len() == 0
        ||| entry.raw == first + seq!['\n'] + entry.context
    })
}

/// Whether an entry of this project and file is whole: its identity is its
/// place, and its verbatim text is its first line followed by its context.
pub open spec fn is_whole(entry: EntryModel, project_id: Seq<char>, file: Seq<char>) -> bool {
    &&& entry.id == entry_id_text(file, entry.offset)
    &&& entry.project_id == project_id
    &&& entry.file == file
    &&& exists|first: Seq<char>| #[trigger] starts_with(entry, first)
}

/// Whether an entry began with a header.
pub open spec fn has_header(entry: EntryModel) -> bool {
    entry.timestamp.len() > 0
}

/// How one more line changes the entries: it opens one, or extends the last.
proof fn lemma_one_more_line(acc: AccumulatorModel, lines: Seq<LineModel>)
    requires
        acc.pending is None,
        lines.len() > 0,
    ensures
        with_lines(acc, lines).file == acc.file,
        with_lines(acc, lines).project_id == acc.project_id,
        with_lines(acc, lines).pending is Some,
        with_lines(acc, lines.drop_last()).file == acc.file,
        with_lines(acc, lines.drop_last()).project_id == acc.project_id,
        with_lines(acc, lines.drop_last()).pending is Some <==> lines.len() > 1,
        lines.len() == 1 ==> entries_of(acc, lines.drop_last()).len() == 0,
        lines.len() > 1 ==> entries_of(acc, lines.drop_last()).len() > 0,
        lines.len() == 1 || header_of(lines.last().text) is Some ==> entries_of(acc, lines)
            == entries_of(acc, lines.drop_last()).push(
            crate::parser::opened(acc, lines.last(), header_of(lines.last().text)),
        ),
        lines.len() > 1 && header_of(lines.last().text) is None ==> entries_of(acc, lines)
            == entries_of(acc, lines.drop_last()).drop_last().push(
            crate::parser::extended(
                with_lines(acc, lines.drop_last()).pending.unwrap(),
                lines.last().text,
            ).entry,
        ) && entries_of(acc, lines.drop_last()).last() == with_lines(
            acc,
            lines.drop_last(),
        ).pending.unwrap().entry,
    decreases lines.len(),
{
    let before = lines.drop_last();
    if before.len() > 0 {
        lemma_one_more_line(acc, before);
    } else {
        assert(closed_by_lines(acc, before) =~= Seq::<EntryModel>::empty());
    }
    let old_acc = with_lines(acc, before);
    if before.len() == 0 || header_of(lines.last().text) is Some {
        assert(entries_of(acc, lines) =~= entries_of(acc, before).push(
            crate::parser::opened(acc, lines.last(), header_of(lines.last().text)),
        ));
    } else {
        assert(entries_of(acc, lines) =~= entries_of(acc, before).drop_last().push(
            crate::parser::extended(old_acc.pending.unwrap(), lines.last().text).entry,
        ));
    }
}

/// The entry still open is whole: with context, that stands behind its first
/// line; without, its last line is its first.
pub proof fn lemma_pending_is_whole(acc: AccumulatorModel, lines: Seq<LineModel>)
    requires
        acc.pending is None,
        lines.len() > 0,
    ensures
        with_lines(acc, lines).pending is Some,
        ({
            let pending = with_lines(acc, lines).pending.unwrap();
            let entry = pending.entry;
            &&& is_whole(entry, acc.project_id, acc.file)
            &&& !pending.has_context ==> entry.raw == lines.last().text && entry.context.len() == 0
                && starts_with(entry, lines.last().text)
            &&& pending.has_context ==> exists|first: Seq<char>|
                #[trigger] starts_with(entry, first) && entry.raw == first + seq!['\n']
                    + entry.context
        }),
    decreases lines.len(),
{
    let before = lines.drop_last();
    let line = lines.last();
    lemma_one_more_line(acc, lines);
    let pending = with_lines(acc, lines).pending.unwrap();
    if before.len() > 0 && header_of(line.text) is None {
        lemma_pending_is_whole(acc, before);
        let old_pending = with_lines(acc, before).pending.unwrap();
        let first = if old_pending.has_context {
            choose|first: Seq<char>|
                #[trigger] starts_with(old_pending.entry, first) && old_pending.entry.raw == first
                    + seq!['\n'] + old_pending.entry.context
        } else {
            before.last().text
        };
        assert(pending.entry.raw =~= first + seq!['\n'] + pending.entry.context);
        assert(starts_with(pending.entry, first));
    } else {
        assert(starts_with(pending.entry, line.text));
    }
}

/// Every entry of a log is whole.
pub proof fn every_entry_is_whole(
    project_id: Seq<char>,
    file: Seq<char>,
    offset: nat,
    bytes: Seq<u8>,
)
    ensures
        forall|i: int|
            0 <= i < parsed(project_id, file, offset, bytes).len() ==> is_whole(
                #[trigger] parsed(project_id, file, offset, bytes)[i],
                project_id,
                file,
            ),
{
    let acc = fresh(project_id, file);
    lemma_entries_are_whole(acc, lines_of(offset, bytes));
    assert(parsed(project_id, file, offset, bytes) == entries_of(acc, lines_of(offset, bytes)));
}

proof fn lemma_entries_are_whole(acc: AccumulatorModel, lines: Seq<LineModel>)
    requires
        acc.pending is None,
    ensures
        forall|i: int|
            0 <= i < entries_of(acc, lines).len() ==> is_whole(
                #[trigger] entries_of(acc, lines)[i],
                acc.project_id,
                acc.file,
            ),
    decreases lines.len(),
{
    if lines.len() > 0 {
        let before = lines.drop_last();
        lemma_entries_are_whole(acc, before);
        lemma_one_more_line(acc, lines);
        lemma_pending_is_whole(acc, lines);
        assert(entries_of(acc, lines).last() == with_lines(acc, lines).pending.unwrap().entry);
        assert forall|i: int| 0 <= i < entries_of(acc, lines).len() implies is_whole(
            #[trigger] entries_of(acc, lines)[i],
            acc.project_id,
            acc.file,
        ) by {
            if i < entries_of(acc, lines).len() - 1 {
                assert(entries_of(acc, lines)[i] == entries_of(acc, before)[i]);
            }
        }
    }
}

/// Where the lines of a file stand: within the bytes, in order.
pub proof fn lemma_lines_in_order(offset: nat, bytes: Seq<u8>)
    ensures
        forall|i: int|
            0 <= i < lines_of(offset, bytes).len() ==> offset <= (
            #[trigger] lines_of(offset, bytes)[i]).at < offset + bytes.len(),
        forall|i: int, j: int|
            0 <= i < j < lines_of(offset, bytes).len() ==> (#[trigger] lines_of(
                offset,
                bytes,
            )[i]).at < (#[trigger] lines_of(offset, bytes)[j]).at,
        bytes.len() > 0 ==> lines_of(offset, bytes).len() > 0 && lines_of(offset, bytes)[0].at
            == offset,
    decreases bytes.len(),
{
    if bytes.len() > 0 {
        lemma_line_size(bytes);
        let next = offset + line_size(bytes);
        let rest = bytes.skip(line_size(bytes) as int);
        lemma_lines_in_order(next, rest);
        let lines = lines_of(offset, bytes);
        let more = lines_of(next, rest);
        assert forall|i: int| 0 <= i < lines.len() implies offset <= (#[trigger] lines[i]).at
            < offset + bytes.len() by {
            if i > 0 {
                assert(lines[i] == more[i - 1]);
            }
        }
        assert forall|i: int, j: int| 0 <= i < j < lines.len() implies (#[trigger] lines[i]).at < (
        #[trigger] lines[j]).at by {
            assert(lines[j] == more[j - 1]);
            if i > 0 {
                assert(lines[i] == more[i - 1]);
            }
        }
    }
}

/// The entries of a log stand in it in order, each within the bytes that were
/// read and the first at their start: no two share an id.
pub proof fn entries_stand_in_order(
    project_id: Seq<char>,
    file: Seq<char>,
    offset: nat,
    bytes: Seq<u8>,
)
    ensures
        ({
            let entries = parsed(project_id, file, offset, bytes);
            &&& bytes.len() > 0 <==> entries.len() > 0
            &&& bytes.len() > 0 ==> entries[0].offset == offset
            &&& forall|i: int|
                0 <= i < entries.len() ==> offset <= (#[trigger] entries[i]).offset < offset
                    + bytes.len()
            &&& forall|i: int, j: int|
                0 <= i < j < entries.len() ==> (#[trigger] entries[i]).offset < (
                #[trigger] entries[j]).offset
        }),
{
    let acc = fresh(project_id, file);
    let lines = lines_of(offset, bytes);
    lemma_lines_in_order(offset, bytes);
    lemma_entries_in_order(acc, lines);
    if bytes.len() == 0 {
        assert(parsed(project_id, file, offset, bytes) =~= Seq::<EntryModel>::empty());
    }
    let entries = parsed(project_id, file, offset, bytes);
    assert forall|i: int| 0 <= i < entries.len() implies offset <= (
    #[trigger] entries[i]).offset < offset + bytes.len() by {
        let k = choose|k: int| 0 <= k < lines.len() && entries[i].offset == (#[trigger] lines[k]).at;
        assert(lines[k].at < offset + bytes.len());
    }
}

proof fn lemma_entries_in_order(acc: AccumulatorModel, lines: Seq<LineModel>)
    requires
        acc.pending is None,
        forall|i: int, j: int|
            0 <= i < j < lines.len() ==> (#[trigger] lines[i]).at < (#[trigger] lines[j]).at,
    ensures
        lines.len() > 0 ==> entries_of(acc, lines).len() > 0 && entries_of(acc, lines)[0].offset
            == lines[0].at,
        forall|i: int|
            0 <= i < entries_of(acc, lines).len() ==> exists|k: int|
                0 <= k < lines.len() && (#[trigger] entries_of(acc, lines)[i]).offset == (
                #[trigger] lines[k]).at,
        forall|i: int, j: int|
            0 <= i < j < entries_of(acc, lines).len() ==> (#[trigger] entries_of(
                acc,
                lines,
            )[i]).offset < (#[trigger] entries_of(acc, lines)[j]).offset,
    decreases lines.len(),
{
    let now = entries_of(acc, lines);
    if lines.len() == 0 {
        assert(now =~= Seq::<EntryModel>::empty());
    } else {
        let before = lines.drop_last();
        let then = entries_of(acc, before);
        lemma_entries_in_order(acc, before);
        lemma_one_more_line(acc, lines);
        let grown = lines.len() == 1 || header_of(lines.last().text) is Some;
        assert forall|i: int| 0 <= i < now.len() implies exists|k: int|
            0 <= k < lines.len() && (#[trigger] now[i]).offset == (#[trigger] lines[k]).at by {
            if i < then.len() {
                assert(now[i].offset == then[i].offset);
                let k = choose|k: int|
                    0 <= k < before.len() && then[i].offset == (#[trigger] before[k]).at;
                assert(lines[k].at == now[i].offset);
            } else {
                assert(now[i].offset == lines[lines.len() - 1].at);
            }
        }
        assert forall|i: int, j: int| 0 <= i < j < now.len() implies (#[trigger] now[i]).offset < (
        #[trigger] now[j]).offset by {
            assert(now[i].offset == then[i].offset);
            if j < then.len() {
                assert(now[j].offset == then[j].offset);
            } else {
                let k = choose|k: int|
                    0 <= k < before.len() && then[i].offset == (#[trigger] before[k]).at;
                assert(lines[k].at < lines[lines.len() - 1].at);
            }
        }
        if lines.len() > 1 {
            assert(now[0].offset == then[0].offset);
        }
    }
}

/// Only the first entry of a log can be without a header.
pub proof fn only_the_first_entry_can_lack_a_header(
    project_id: Seq<char>,
    file: Seq<char>,
    offset: nat,
    bytes: Seq<u8>,
)
    ensures
        forall|i: int|
            0 < i < parsed(project_id, file, offset, bytes).len() ==> has_header(
                #[trigger] parsed(project_id, file, offset, bytes)[i],
            ),
{
    let acc = fresh(project_id, file);
    lemma_later_entries_have_headers(acc, lines_of(offset, bytes));
    assert(parsed(project_id, file, offset, bytes) == entries_of(acc, lines_of(offset, bytes)));
}

proof fn lemma_later_entries_have_headers(acc: AccumulatorModel, lines: Seq<LineModel>)
    requires
        acc.pending is None,
    ensures
        forall|i: int|
            0 < i < entries_of(acc, lines).len() ==> has_header(
                #[trigger] entries_of(acc, lines)[i],
            ),
    decreases lines.len(),
{
    if lines.len() == 0 {
        assert(entries_of(acc, lines) =~= Seq::<EntryModel>::empty());
    } else {
        let before = lines.drop_last();
        lemma_later_entries_have_headers(acc, before);
        lemma_one_more_line(acc, lines);
        a_found_header_is_in_the_line(lines.last().text);
        assert forall|i: int| 0 < i < entries_of(acc, lines).len() implies has_header(
            #[trigger] entries_of(acc, lines)[i],
        ) by {
            if i < entries_of(acc, before).len() {
                assert(entries_of(acc, lines)[i].timestamp == entries_of(
                    acc,
                    before,
                )[i].timestamp);
            }
        }
    }
}

/// An entry that began with no header has no severity, and says so: it ranks
/// below everything that was logged at a level.
pub proof fn a_headerless_entry_has_no_severity(
    entry: EntryModel,
    project_id: Seq<char>,
    file: Seq<char>,
)
    requires
        is_whole(entry, project_id, file),
    ensures
        !has_header(entry) ==> entry.level == Level::Unknown && entry.env.len() == 0,
        forall|level: Level|
            level != Level::Unknown ==> Level::Unknown.severity() < #[trigger] level.severity(),
{
    let first = choose|first: Seq<char>| #[trigger] starts_with(entry, first);
    a_found_header_is_in_the_line(first);
}

/// Nothing of a log is lost or repeated: the verbatim texts of its entries, one
/// after the other, are its lines.
pub proof fn entries_hold_every_line_once(
    project_id: Seq<char>,
    file: Seq<char>,
    offset: nat,
    bytes: Seq<u8>,
)
    ensures
        joined(raws(parsed(project_id, file, offset, bytes)), seq!['\n']) == joined(
            line_texts(lines_of(offset, bytes)),
            seq!['\n'],
        ),
{
    lemma_raws_are_lines(fresh(project_id, file), lines_of(offset, bytes));
}

proof fn lemma_raws_are_lines(acc: AccumulatorModel, lines: Seq<LineModel>)
    requires
        acc.pending is None,
    ensures
        joined(raws(entries_of(acc, lines)), seq!['\n']) == joined(line_texts(lines), seq!['\n']),
    decreases lines.len(),
{
    let now = raws(entries_of(acc, lines));
    let texts = line_texts(lines);
    if lines.len() == 0 {
        assert(now =~= Seq::<Seq<char>>::empty());
        assert(texts =~= Seq::<Seq<char>>::empty());
    } else {
        let before = lines.drop_last();
        let then = raws(entries_of(acc, before));
        lemma_raws_are_lines(acc, before);
        lemma_one_more_line(acc, lines);
        assert(texts.drop_last() =~= line_texts(before));
        assert(texts.last() == lines.last().text);
        if lines.len() == 1 {
            assert(now =~= seq![lines.last().text]);
            assert(texts =~= seq![lines.last().text]);
        } else if header_of(lines.last().text) is Some {
            assert(now =~= then.push(lines.last().text));
            assert(now.drop_last() =~= then);
        } else {
            let longer = then.last() + seq!['\n'] + lines.last().text;
            assert(now =~= then.drop_last().push(longer));
            assert(now.drop_last() =~= then.drop_last());
            assert(joined(now, seq!['\n']) =~= joined(then, seq!['\n']) + seq!['\n']
                + lines.last().text);
        }
    }
}

/// A log without its last newline.
pub open spec fn unterminated(bytes: Seq<u8>) -> Seq<u8> {
    if bytes.len() > 0 && bytes.last() == 10 {
        bytes.drop_last()
    } else {
        bytes
    }
}

/// Whether no newline comes right after a carriage return.
pub open spec fn no_return_before_newline(bytes: Seq<u8>) -> bool {
    forall|i: int| 0 < i < bytes.len() && #[trigger] bytes[i] == 10 ==> bytes[i - 1] != 13
}

/// A log with Unix line ends is held verbatim: the texts of its entries, one
/// after the other, are the log, but for the newline at its end.
pub proof fn entries_hold_the_log_verbatim(
    project_id: Seq<char>,
    file: Seq<char>,
    offset: nat,
    text: Seq<char>,
)
    requires
        no_return_before_newline(encode_utf8(text)),
    ensures
        joined(raws(parsed(project_id, file, offset, encode_utf8(text))), seq!['\n']) == (if text.len()
            > 0 && text.last() == '\n' {
            text.drop_last()
        } else {
            text
        }),
{
    let bytes = encode_utf8(text);
    encode_utf8_valid_utf8(text);
    encode_utf8_decode_utf8(text);
    entries_hold_every_line_once(project_id, file, offset, bytes);
    lemma_lines_are_the_text(offset, bytes);
    let short = unterminated(bytes);
    if bytes.len() > 0 && bytes.last() == 10 {
        let n: int = bytes.len() - 1;
        lemma_cut_before_ascii(bytes, n);
        assert(bytes.take(n) =~= short);
        assert(bytes.skip(n) =~= seq![10u8]);
        lemma_newline_decodes();
        assert(text == decode_utf8(short) + seq!['\n']);
        assert(text.drop_last() =~= decode_utf8(short));
    } else if text.len() > 0 && text.last() == '\n' {
        let head = text.drop_last();
        lemma_newline_decodes();
        encode_utf8_valid_utf8(head);
        encode_utf8_decode_utf8(head);
        lemma_encode_push_newline(head);
        assert(head.push('\n') =~= text);
        assert(bytes.last() == 10);
        assert(false);
    }
}

proof fn lemma_newline_decodes()
    ensures
        valid_utf8(seq![10u8]),
        decode_utf8(seq![10u8]) == seq!['\n'],
        encode_utf8(seq!['\n']) == seq![10u8],
{
    assert(is_ascii_chars(seq!['\n']));
    is_ascii_chars_encode_utf8(seq!['\n']);
    assert(encode_utf8(seq!['\n']) =~= seq![10u8]);
    encode_utf8_valid_utf8(seq!['\n']);
    encode_utf8_decode_utf8(seq!['\n']);
}

proof fn lemma_encode_push_newline(head: Seq<char>)
    ensures
        encode_utf8(head.push('\n')) == encode_utf8(head).push(10),
    decreases head.len(),
{
    lemma_newline_decodes();
    if head.len() == 0 {
        assert(head.push('\n') =~= seq!['\n']);
        assert(encode_utf8(head).push(10) =~= seq![10u8]);
    } else {
        let tail = head.drop_first();
        lemma_encode_push_newline(tail);
        let whole = head.push('\n');
        assert(whole.drop_first() =~= tail.push('\n'));
        assert(encode_utf8(whole) =~= encode_utf8(head).push(10));
    }
}

/// UTF-8 bytes cut before an ASCII byte are UTF-8 on both sides.
proof fn lemma_cut_before_ascii(bytes: Seq<u8>, at: int)
    requires
        valid_utf8(bytes),
        0 <= at < bytes.len(),
        bytes[at] < 128,
    ensures
        valid_utf8(bytes.take(at)),
        valid_utf8(bytes.skip(at)),
        decode_utf8(bytes) == decode_utf8(bytes.take(at)) + decode_utf8(bytes.skip(at)),
{
    assert(!is_continuation_byte(bytes[at]));
    is_char_boundary_iff_not_is_continuation_byte(bytes, at);
    valid_utf8_split(bytes, at);
    decode_utf8_split(bytes, at);
    assert(bytes.take(at) =~= bytes.subrange(0, at));
    assert(bytes.skip(at) =~= bytes.subrange(at, bytes.len() as int));
}

/// What starts with an ASCII byte and is UTF-8 is UTF-8 without it.
proof fn lemma_after_newline(bytes: Seq<u8>)
    requires
        valid_utf8(bytes),
        bytes.len() > 0,
        bytes[0] == 10,
    ensures
        valid_utf8(bytes.skip(1)),
        decode_utf8(bytes) == seq!['\n'] + decode_utf8(bytes.skip(1)),
{
    assert(pop_first_scalar(bytes) =~= bytes.skip(1));
    assert(10u8 & 0x7f == 10u8) by (bit_vector);
}

/// The lines of UTF-8 bytes with Unix line ends, joined, are their text.
proof fn lemma_lines_are_the_text(offset: nat, bytes: Seq<u8>)
    requires
        valid_utf8(bytes),
        no_return_before_newline(bytes),
    ensures
        valid_utf8(unterminated(bytes)),
        joined(line_texts(lines_of(offset, bytes)), seq!['\n']) == decode_utf8(unterminated(bytes)),
    decreases bytes.len(),
{
    let lines = lines_of(offset, bytes);
    let texts = line_texts(lines);
    if bytes.len() == 0 {
        assert(texts =~= Seq::<Seq<char>>::empty());
    } else {
        lemma_line_end(bytes);
        lemma_line_size(bytes);
        let end = line_end(bytes) as int;
        let rest = bytes.skip(line_size(bytes) as int);
        let more = line_texts(lines_of(offset + line_size(bytes), rest));
        let line = bytes.take(end);
        if end < bytes.len() {
            lemma_cut_before_ascii(bytes, end);
            let from = bytes.skip(end);
            lemma_after_newline(from);
            assert(from.skip(1) =~= rest);
            assert forall|i: int| 0 < i < rest.len() && #[trigger] rest[i] == 10 implies rest[i - 1]
                != 13 by {
                assert(bytes[i + end + 1] == 10);
            }
            lemma_lines_are_the_text(offset + line_size(bytes), rest);
            if line.len() > 0 {
                assert(bytes[end] == 10);
                assert(line.last() == bytes[end - 1]);
            }
            assert(line_bytes(bytes) == line);
            assert(texts =~= seq![decode_utf8(line)] + more);
            if rest.len() == 0 {
                assert(more =~= Seq::<Seq<char>>::empty());
                assert(unterminated(bytes) =~= line);
                assert(texts =~= seq![decode_utf8(line)]);
            } else {
                lemma_lines_in_order(offset + line_size(bytes), rest);
                assert(more.len() > 0);
                lemma_joined_from_the_front(decode_utf8(line), more, seq!['\n']);
                let short = unterminated(rest);
                assert(unterminated(bytes) =~= line + (seq![10u8] + short));
                lemma_newline_decodes();
                valid_utf8_concat(seq![10u8], short);
                valid_utf8_concat(line, seq![10u8] + short);
                let whole = unterminated(bytes);
                lemma_cut_before_ascii(whole, end);
                assert(whole.take(end) =~= line);
                assert(whole.skip(end) =~= seq![10u8] + short);
                lemma_after_newline(whole.skip(end));
                assert(whole.skip(end).skip(1) =~= short);
                assert(joined(texts, seq!['\n']) =~= decode_utf8(whole));
            }
        } else {
            assert(line =~= bytes);
            assert(rest.len() == 0);
            assert(more =~= Seq::<Seq<char>>::empty());
            assert(texts =~= seq![decode_utf8(bytes)]);
            assert(bytes.last() == bytes[bytes.len() - 1]);
            assert(bytes.last() != 10);
        }
    }
}

proof fn lemma_joined_from_the_front(
    first: Seq<char>,
    more: Seq<Seq<char>>,
    separator: Seq<char>,
)
    requires
        more.len() > 0,
    ensures
        joined(seq![first] + more, separator) == first + separator + joined(more, separator),
    decreases more.len(),
{
    let all = seq![first] + more;
    if more.len() == 1 {
        assert(all.drop_last() =~= seq![first]);
        assert(joined(seq![first], separator) == first);
        assert(all.last() == more[0]);
        assert(joined(all, separator) =~= first + separator + joined(more, separator));
    } else {
        lemma_joined_from_the_front(first, more.drop_last(), separator);
        assert(all.drop_last() =~= seq![first] + more.drop_last());
        assert(all.last() == more.last());
        assert(joined(all, separator) =~= first + separator + joined(more, separator));
    }
}

/// A log cut after a newline has the lines of the one piece and then those of
/// the other.
proof fn lemma_lines_of_pieces(offset: nat, a: Seq<u8>, b: Seq<u8>)
    requires
        a.len() == 0 || a.last() == 10,
    ensures
        lines_of(offset, a + b) == lines_of(offset, a) + lines_of(offset + a.len(), b),
    decreases a.len(),
{
    if a.len() == 0 {
        assert(a + b =~= b);
        assert(lines_of(offset, a) + lines_of(offset + a.len(), b) =~= lines_of(offset, b));
    } else {
        let whole = a + b;
        lemma_line_end(a);
        lemma_line_size(a);
        let end = line_end(a) as int;
        if end == a.len() {
            assert(a[a.len() - 1] == 10);
        }
        lemma_line_end_is(whole, end);
        let size = line_size(a) as int;
        assert(whole.take(end) =~= a.take(end));
        assert(whole.skip(size) =~= a.skip(size) + b);
        if a.skip(size).len() > 0 {
            assert(a.skip(size).last() == a.last());
        }
        lemma_lines_of_pieces(offset + line_size(a), a.skip(size), b);
        assert(lines_of(offset, whole) =~= lines_of(offset, a) + lines_of(
            offset + a.len(),
            b,
        ));
    }
}

proof fn lemma_feeding_lines_in_pieces(
    acc: AccumulatorModel,
    a: Seq<LineModel>,
    b: Seq<LineModel>,
)
    ensures
        with_lines(acc, a + b) == with_lines(with_lines(acc, a), b),
        closed_by_lines(acc, a + b) == closed_by_lines(acc, a) + closed_by_lines(
            with_lines(acc, a),
            b,
        ),
    decreases b.len(),
{
    if b.len() == 0 {
        assert(a + b =~= a);
        assert(closed_by_lines(acc, a) + closed_by_lines(with_lines(acc, a), b)
            =~= closed_by_lines(acc, a));
    } else {
        let whole = a + b;
        lemma_feeding_lines_in_pieces(acc, a, b.drop_last());
        assert(whole.drop_last() =~= a + b.drop_last());
        assert(whole.last() == b.last());
        assert(closed_by_lines(acc, whole) =~= closed_by_lines(acc, a) + closed_by_lines(
            with_lines(acc, a),
            b,
        ));
    }
}

/// How a log is cut into chunks does not matter: fed in two chunks, the first
/// ending on a line boundary, it closes the same entries and leaves the same
/// one pending as fed at once.
pub proof fn feeding_in_chunks_changes_nothing(
    acc: AccumulatorModel,
    offset: nat,
    a: Seq<u8>,
    b: Seq<u8>,
)
    requires
        a.len() == 0 || a.last() == 10,
    ensures
        with_lines(acc, lines_of(offset, a + b)) == with_lines(
            with_lines(acc, lines_of(offset, a)),
            lines_of(offset + a.len(), b),
        ),
        closed_by_lines(acc, lines_of(offset, a + b)) == closed_by_lines(
            acc,
            lines_of(offset, a),
        ) + closed_by_lines(
            with_lines(acc, lines_of(offset, a)),
            lines_of(offset + a.len(), b),
        ),
{
    lemma_lines_of_pieces(offset, a, b);
    lemma_feeding_lines_in_pieces(acc, lines_of(offset, a), lines_of(offset + a.len(), b));
}

/// A verbatim text with these lines after it.
pub open spec fn raw_with(raw: Seq<char>, lines: Seq<LineModel>) -> Seq<char>
    decreases lines.len(),
{
    if lines.len() == 0 {
        raw
    } else {
        raw_with(raw, lines.drop_last()) + seq!['\n'] + lines.last().text
    }
}

/// A pending entry to which lines without a header are fed stays the same
/// entry: only its context and its verbatim text grow, by those lines, and
/// nothing is closed.
pub proof fn a_pending_entry_is_revised_in_place(
    acc: AccumulatorModel,
    lines: Seq<LineModel>,
)
    requires
        acc.pending is Some,
        forall|i: int| 0 <= i < lines.len() ==> header_of((#[trigger] lines[i]).text) is None,
    ensures
        closed_by_lines(acc, lines).len() == 0,
        with_lines(acc, lines).pending is Some,
        ({
            let before = acc.pending.unwrap().entry;
            let after = with_lines(acc, lines).pending.unwrap().entry;
            &&& after == EntryModel { context: after.context, raw: after.raw, ..before }
            &&& after.raw == raw_with(before.raw, lines)
            &&& before.raw.is_prefix_of(after.raw)
            &&& before.context.is_prefix_of(after.context)
        }),
    decreases lines.len(),
{
    if lines.len() > 0 {
        let before = lines.drop_last();
        assert forall|i: int| 0 <= i < before.len() implies header_of(
            (#[trigger] before[i]).text,
        ) is None by {
            assert(before[i] == lines[i]);
        }
        assert(header_of(lines[lines.len() - 1].text) is None);
        a_pending_entry_is_revised_in_place(acc, before);
    }
}

/// The lines of a file from one of its lines on are those of the bytes from
/// there on.
proof fn lemma_lines_from(offset: nat, bytes: Seq<u8>, k: int)
    requires
        0 <= k < lines_of(offset, bytes).len(),
    ensures
        offset <= lines_of(offset, bytes)[k].at < offset + bytes.len(),
        lines_of(offset, bytes).skip(k) == lines_of(
            lines_of(offset, bytes)[k].at,
            bytes.skip(lines_of(offset, bytes)[k].at - offset),
        ),
    decreases bytes.len(),
{
    let lines = lines_of(offset, bytes);
    lemma_lines_in_order(offset, bytes);
    if k == 0 {
        assert(lines.skip(0) =~= lines);
        assert(bytes.skip(0) =~= bytes);
    } else {
        lemma_line_size(bytes);
        let size = line_size(bytes) as int;
        let rest = bytes.skip(size);
        let more = lines_of(offset + line_size(bytes), rest);
        lemma_lines_from(offset + line_size(bytes), rest, k - 1);
        assert(lines[k] == more[k - 1]);
        assert(lines.skip(k) =~= more.skip(k - 1));
        assert(rest.skip(more[k - 1].at - offset - size) =~= bytes.skip(lines[k].at - offset));
    }
}

/// The entries of some lines from one of them on are those of the lines from its
/// own first line on.
proof fn lemma_entries_of_lines_from(acc: AccumulatorModel, lines: Seq<LineModel>, k: int) -> (m:
    int)
    requires
        acc.pending is None,
        0 <= k < entries_of(acc, lines).len(),
    ensures
        0 <= m < lines.len(),
        entries_of(acc, lines)[k].offset == lines[m].at,
        entries_of(acc, lines.skip(m)) == entries_of(acc, lines).skip(k),
        with_lines(acc, lines.skip(m)).pending == with_lines(acc, lines).pending,
    decreases lines.len(),
{
    let now = entries_of(acc, lines);
    if lines.len() == 0 {
        assert(now =~= Seq::<EntryModel>::empty());
        0
    } else {
        lemma_one_more_line(acc, lines);
        let before = lines.drop_last();
        let then = entries_of(acc, before);
        let last = lines.len() - 1;
        if k >= then.len() {
            let tail = lines.skip(last);
            lemma_one_more_line(acc, tail);
            assert(tail.drop_last() =~= Seq::<LineModel>::empty());
            assert(tail.last() == lines.last());
            assert(entries_of(acc, tail) =~= now.skip(k));
            last
        } else {
            let m = lemma_entries_of_lines_from(acc, before, k);
            let tail = lines.skip(m);
            assert(tail.drop_last() =~= before.skip(m));
            assert(tail.last() == lines.last());
            lemma_one_more_line(acc, tail);
            assert(then.skip(k).last() == then.last());
            assert(entries_of(acc, tail) =~= now.skip(k));
            m
        }
    }
}

/// Reading a log again from where one of its entries stands gives that entry and
/// those after it, under the ids they already have.
pub proof fn reading_resumes_at_an_entry(
    project_id: Seq<char>,
    file: Seq<char>,
    offset: nat,
    bytes: Seq<u8>,
    k: int,
)
    requires
        0 <= k < parsed(project_id, file, offset, bytes).len(),
    ensures
        ({
            let entries = parsed(project_id, file, offset, bytes);
            &&& offset <= entries[k].offset < offset + bytes.len()
            &&& parsed(
                project_id,
                file,
                entries[k].offset,
                bytes.skip(entries[k].offset - offset),
            ) == entries.skip(k)
        }),
{
    let acc = fresh(project_id, file);
    let lines = lines_of(offset, bytes);
    assert(parsed(project_id, file, offset, bytes) == entries_of(acc, lines));
    let m = lemma_entries_of_lines_from(acc, lines, k);
    lemma_lines_from(offset, bytes, m);
}

/// Reading a log again from where its last entry stands gives that entry and
/// nothing else: reading can resume there, and the entry is revised under the
/// id it already has.
pub proof fn reading_resumes_at_the_last_entry(
    project_id: Seq<char>,
    file: Seq<char>,
    offset: nat,
    bytes: Seq<u8>,
)
    requires
        bytes.len() > 0,
    ensures
        ({
            let entries = parsed(project_id, file, offset, bytes);
            let last = entries.last();
            &&& entries.len() > 0
            &&& offset <= last.offset < offset + bytes.len()
            &&& parsed(project_id, file, last.offset, bytes.skip(last.offset - offset)) == seq![
                last,
            ]
        }),
{
    let entries = parsed(project_id, file, offset, bytes);
    entries_stand_in_order(project_id, file, offset, bytes);
    let k = entries.len() - 1;
    reading_resumes_at_an_entry(project_id, file, offset, bytes, k);
    assert(entries.skip(k) =~= seq![entries.last()]);
}

/// Lines that begin with a header close what was open before them and are read
/// as they are on their own.
proof fn lemma_header_starts_afresh(acc: AccumulatorModel, lines: Seq<LineModel>)
    requires
        lines.len() > 0,
        header_of(lines[0].text) is Some,
    ensures
        closed_by_lines(acc, lines) == listed(pending_entry(acc)) + closed_by_lines(
            flushed(acc),
            lines,
        ),
        with_lines(acc, lines) == with_lines(flushed(acc), lines),
    decreases lines.len(),
{
    let front = lines.drop_last();
    if lines.len() == 1 {
        reveal_with_fuel(with_lines, 2);
        reveal_with_fuel(closed_by_lines, 2);
        assert(front =~= Seq::<LineModel>::empty());
        assert(closed_by_lines(acc, lines) =~= listed(pending_entry(acc)) + closed_by_lines(
            flushed(acc),
            lines,
        ));
    } else {
        assert(front[0] == lines[0]);
        lemma_header_starts_afresh(acc, front);
        assert(closed_by_lines(acc, lines) =~= listed(pending_entry(acc)) + closed_by_lines(
            flushed(acc),
            lines,
        ));
    }
}

/// Two pieces of a log, the first ending on a line boundary and the second
/// beginning with a header, have the entries of the one and then those of the
/// other.
pub proof fn pieces_that_meet_at_a_header_add_up(
    project_id: Seq<char>,
    file: Seq<char>,
    offset: nat,
    a: Seq<u8>,
    b: Seq<u8>,
)
    requires
        a.len() > 0,
        a.last() == 10,
        b.len() > 0,
        has_header(parsed(project_id, file, offset + a.len(), b)[0]),
    ensures
        parsed(project_id, file, offset, a + b) == parsed(project_id, file, offset, a) + parsed(
            project_id,
            file,
            offset + a.len(),
            b,
        ),
{
    let acc = fresh(project_id, file);
    let la = lines_of(offset, a);
    let lb = lines_of(offset + a.len(), b);
    feeding_in_chunks_changes_nothing(acc, offset, a, b);
    lemma_lines_in_order(offset, a);
    lemma_lines_in_order(offset + a.len(), b);
    lemma_first_entry_of_lines(acc, lb);
    lemma_header_starts_afresh(with_lines(acc, la), lb);
    lemma_one_more_line(acc, la);
    assert(flushed(with_lines(acc, la)) == acc);
    assert(parsed(project_id, file, offset, a + b) =~= parsed(project_id, file, offset, a)
        + parsed(project_id, file, offset + a.len(), b));
}

/// The first entry of some lines has a header exactly where their first line is
/// one.
proof fn lemma_first_entry_of_lines(acc: AccumulatorModel, lines: Seq<LineModel>)
    requires
        acc.pending is None,
        lines.len() > 0,
    ensures
        entries_of(acc, lines).len() > 0,
        has_header(entries_of(acc, lines)[0]) ==> header_of(lines[0].text) is Some,
    decreases lines.len(),
{
    lemma_one_more_line(acc, lines);
    if lines.len() > 1 {
        let front = lines.drop_last();
        lemma_first_entry_of_lines(acc, front);
        assert(front[0] == lines[0]);
        assert(entries_of(acc, lines)[0].timestamp == entries_of(acc, front)[0].timestamp);
    }
}

/// A log has no more lines than bytes, and lines close no more entries than
/// there are of them.
pub proof fn entries_are_no_more_than_bytes(acc: AccumulatorModel, offset: nat, bytes: Seq<u8>)
    ensures
        lines_of(offset, bytes).len() <= bytes.len(),
        closed_by_lines(acc, lines_of(offset, bytes)).len() <= bytes.len(),
{
    lemma_lines_are_no_more_than_bytes(offset, bytes);
    lemma_closed_are_no_more_than_lines(acc, lines_of(offset, bytes));
}

proof fn lemma_lines_are_no_more_than_bytes(offset: nat, bytes: Seq<u8>)
    ensures
        lines_of(offset, bytes).len() <= bytes.len(),
    decreases bytes.len(),
{
    if bytes.len() > 0 {
        lemma_line_size(bytes);
        lemma_lines_are_no_more_than_bytes(
            offset + line_size(bytes),
            bytes.skip(line_size(bytes) as int),
        );
    }
}

proof fn lemma_closed_are_no_more_than_lines(acc: AccumulatorModel, lines: Seq<LineModel>)
    ensures
        closed_by_lines(acc, lines).len() <= lines.len(),
    decreases lines.len(),
{
    if lines.len() > 0 {
        lemma_closed_are_no_more_than_lines(acc, lines.drop_last());
    }
}

/// Flushing again gives nothing more and changes nothing.
pub proof fn flushing_again_gives_nothing(acc: AccumulatorModel)
    ensures
        pending_entry(flushed(acc)) is None,
        flushed(flushed(acc)) == flushed(acc),
{
}

/// A log with each newline preceded by a carriage return.
pub open spec fn with_returns(bytes: Seq<u8>) -> Seq<u8>
    decreases bytes.len(),
{
    if bytes.len() == 0 {
        Seq::empty()
    } else if bytes[0] == 10 {
        seq![13u8, 10u8] + with_returns(bytes.skip(1))
    } else {
        seq![bytes[0]] + with_returns(bytes.skip(1))
    }
}

/// Whether two entries say the same, wherever they stand.
pub open spec fn same_words(a: EntryModel, b: EntryModel) -> bool {
    &&& a.timestamp == b.timestamp
    &&& a.env == b.env
    &&& a.level == b.level
    &&& a.message == b.message
    &&& a.context == b.context
    &&& a.raw == b.raw
}

/// A log written on Windows yields the same words as the same log written on
/// Unix.
pub proof fn windows_line_ends_change_no_words(
    project_id: Seq<char>,
    file: Seq<char>,
    offset: nat,
    bytes: Seq<u8>,
)
    requires
        no_return_before_newline(bytes),
    ensures
        ({
            let unix = parsed(project_id, file, offset, bytes);
            let windows = parsed(project_id, file, offset, with_returns(bytes));
            &&& unix.len() == windows.len()
            &&& forall|i: int|
                0 <= i < unix.len() ==> same_words(#[trigger] unix[i], #[trigger] windows[i])
        }),
{
    lemma_same_line_texts(offset, offset, bytes);
    lemma_same_texts_same_words(
        fresh(project_id, file),
        lines_of(offset, bytes),
        lines_of(offset, with_returns(bytes)),
    );
}

proof fn lemma_with_returns_of_a_line(bytes: Seq<u8>, n: int)
    requires
        0 <= n <= bytes.len(),
        forall|i: int| 0 <= i < n ==> bytes[i] != 10,
    ensures
        with_returns(bytes) == bytes.take(n) + with_returns(bytes.skip(n)),
    decreases n,
{
    if n == 0 {
        assert(bytes.skip(0) =~= bytes);
        assert(bytes.take(0) + with_returns(bytes) =~= with_returns(bytes));
    } else {
        let rest = bytes.skip(1);
        lemma_with_returns_of_a_line(rest, n - 1);
        assert(rest.skip(n - 1) =~= bytes.skip(n));
        assert(with_returns(bytes) =~= bytes.take(n) + with_returns(bytes.skip(n)));
    }
}

proof fn lemma_same_line_texts(offset: nat, other: nat, bytes: Seq<u8>)
    requires
        no_return_before_newline(bytes),
    ensures
        line_texts(lines_of(offset, bytes)) == line_texts(lines_of(other, with_returns(bytes))),
    decreases bytes.len(),
{
    let windows = with_returns(bytes);
    if bytes.len() > 0 {
        lemma_line_end(bytes);
        lemma_line_size(bytes);
        let end = line_end(bytes) as int;
        let line = bytes.take(end);
        lemma_with_returns_of_a_line(bytes, end);
        let from = bytes.skip(end);
        if end < bytes.len() {
            let rest = bytes.skip(end + 1);
            assert(from.skip(1) =~= rest);
            assert(windows =~= line + seq![13u8, 10u8] + with_returns(rest));
            lemma_line_end_is(windows, end + 1);
            assert(windows.take(end + 1) =~= line.push(13));
            assert(line.push(13).drop_last() =~= line);
            assert(windows.skip(end + 2) =~= with_returns(rest));
            if line.len() > 0 {
                assert(bytes[end] == 10);
                assert(line.last() == bytes[end - 1]);
            }
            assert(line_bytes(windows) == line);
            assert(line_bytes(bytes) == line);
            assert forall|i: int| 0 < i < rest.len() && #[trigger] rest[i] == 10 implies rest[i - 1]
                != 13 by {
                assert(bytes[i + end + 1] == 10);
            }
            lemma_same_line_texts(
                offset + line_size(bytes),
                other + line_size(windows),
                rest,
            );
            let unix_more = lines_of(offset + line_size(bytes), rest);
            let windows_more = lines_of(other + line_size(windows), with_returns(rest));
            assert(line_texts(lines_of(offset, bytes)) =~= seq![decoded(line)] + line_texts(
                unix_more,
            ));
            assert(line_texts(lines_of(other, windows)) =~= seq![decoded(line)] + line_texts(
                windows_more,
            ));
        } else {
            assert(from =~= Seq::<u8>::empty());
            assert(windows =~= bytes);
            let rest = bytes.skip(line_size(bytes) as int);
            assert(lines_of(offset + line_size(bytes), rest) =~= Seq::<LineModel>::empty());
            assert(lines_of(other + line_size(bytes), rest) =~= Seq::<LineModel>::empty());
            assert(line_texts(lines_of(offset, bytes)) =~= seq![decoded(line_bytes(bytes))]);
            assert(line_texts(lines_of(other, windows)) =~= seq![decoded(line_bytes(bytes))]);
        }
    } else {
        assert(line_texts(lines_of(offset, bytes)) =~= line_texts(lines_of(other, windows)));
    }
}

proof fn lemma_same_texts_same_words(
    acc: AccumulatorModel,
    a: Seq<LineModel>,
    b: Seq<LineModel>,
)
    requires
        acc.pending is None,
        line_texts(a) == line_texts(b),
    ensures
        entries_of(acc, a).len() == entries_of(acc, b).len(),
        forall|i: int|
            0 <= i < entries_of(acc, a).len() ==> same_words(
                #[trigger] entries_of(acc, a)[i],
                #[trigger] entries_of(acc, b)[i],
            ),
        a.len() > 0 ==> with_lines(acc, a).pending.unwrap().has_context == with_lines(
            acc,
            b,
        ).pending.unwrap().has_context,
    decreases a.len(),
{
    assert(a.len() == line_texts(a).len());
    assert(b.len() == line_texts(b).len());
    if a.len() > 0 {
        assert(line_texts(a).last() == a.last().text);
        assert(line_texts(b).last() == b.last().text);
        assert(line_texts(a.drop_last()) =~= line_texts(a).drop_last());
        assert(line_texts(b.drop_last()) =~= line_texts(b).drop_last());
        lemma_same_texts_same_words(acc, a.drop_last(), b.drop_last());
        lemma_one_more_line(acc, a);
        lemma_one_more_line(acc, b);
        let x = entries_of(acc, a);
        let y = entries_of(acc, b);
        let x0 = entries_of(acc, a.drop_last());
        let y0 = entries_of(acc, b.drop_last());
        assert forall|i: int| 0 <= i < x.len() implies same_words(
            #[trigger] x[i],
            #[trigger] y[i],
        ) by {
            if i < x.len() - 1 {
                assert(x[i] == x0[i]);
                assert(y[i] == y0[i]);
            } else if x0.len() > 0 {
                assert(same_words(x0[x0.len() - 1], y0[y0.len() - 1]));
            }
        }
    }
}

/// What a piece of a file says that holds one line: without its newline, and
/// without one carriage return right before that.
pub open spec fn says(piece: Seq<u8>) -> Seq<char> {
    let n = piece.len() as int;
    let line = if n > 0 && piece[n - 1] == 10 {
        if n > 1 && piece[n - 2] == 13 {
            piece.take(n - 2)
        } else {
            piece.take(n - 1)
        }
    } else {
        piece
    };
    if valid_utf8(line) {
        decode_utf8(line)
    } else {
        lossy_text(line)
    }
}

/// Where a line of a file ends: where the next one starts, or where the file
/// does.
pub open spec fn next_at(lines: Seq<LineModel>, k: int, end: int) -> int {
    if k + 1 < lines.len() {
        lines[k + 1].at as int
    } else {
        end
    }
}

/// Whether this line is what newlines cut out of a file at its place: from where
/// it starts to where the next one does there is a newline at the end, where
/// there is a next one, and none before that.
pub open spec fn is_cut_out(
    lines: Seq<LineModel>,
    k: int,
    offset: nat,
    bytes: Seq<u8>,
) -> bool {
    let from = lines[k].at - offset;
    let to = next_at(lines, k, (offset + bytes.len()) as int) - offset;
    &&& 0 <= from < to <= bytes.len()
    &&& forall|i: int| from <= i < to - 1 ==> bytes[i] != 10
    &&& k + 1 < lines.len() ==> bytes[to - 1] == 10
    &&& lines[k].text == says(bytes.subrange(from, to))
}

/// The lines of a file are what its newlines cut it into, each with what it
/// says: they follow on each other from the first byte to the last, and a
/// newline stands at the end of each but the last, where one may, and nowhere
/// else.
pub proof fn lines_are_cut_at_newlines(offset: nat, bytes: Seq<u8>)
    ensures
        lines_of(offset, bytes).len() > 0 <==> bytes.len() > 0,
        bytes.len() > 0 ==> lines_of(offset, bytes)[0].at == offset,
        forall|k: int|
            0 <= k < lines_of(offset, bytes).len() ==> #[trigger] is_cut_out(
                lines_of(offset, bytes),
                k,
                offset,
                bytes,
            ),
    decreases bytes.len(),
{
    let lines = lines_of(offset, bytes);
    if bytes.len() > 0 {
        lemma_line_size(bytes);
        let next = offset + line_size(bytes);
        let rest = bytes.skip(line_size(bytes) as int);
        lines_are_cut_at_newlines(next, rest);
        lemma_lines_in_order(offset, bytes);
        assert forall|k: int| 0 <= k < lines.len() implies #[trigger] is_cut_out(
            lines,
            k,
            offset,
            bytes,
        ) by {
            if k == 0 {
                lemma_first_line_is_cut_out(offset, bytes);
            } else {
                assert(is_cut_out(lines_of(next, rest), k - 1, next, rest));
                lemma_later_line_is_cut_out(offset, bytes, k);
            }
        }
    }
}

proof fn lemma_first_line_is_cut_out(offset: nat, bytes: Seq<u8>)
    requires
        bytes.len() > 0,
    ensures
        is_cut_out(lines_of(offset, bytes), 0, offset, bytes),
{
    let lines = lines_of(offset, bytes);
    lemma_line_end(bytes);
    lemma_line_size(bytes);
    let size = line_size(bytes) as int;
    let next = offset + line_size(bytes);
    let rest = bytes.skip(size);
    let more = lines_of(next, rest);
    lemma_lines_in_order(next, rest);
    if lines.len() > 1 {
        assert(lines[1] == more[0]);
        assert(rest.len() > 0);
    } else {
        assert(more.len() == 0);
        assert(rest.len() == 0);
    }
    assert(next_at(lines, 0, (offset + bytes.len()) as int) == next);
    let piece = bytes.subrange(0, size);
    let stop = line_end(bytes) as int;
    if stop < bytes.len() {
        assert(piece[size - 1] == 10);
        assert(piece.take(size - 1) =~= bytes.take(stop));
        if stop > 0 {
            assert(bytes.take(stop).last() == piece[size - 2]);
            assert(piece.take(size - 2) =~= bytes.take(stop).drop_last());
        }
    } else {
        assert(piece =~= bytes);
        assert(bytes[bytes.len() - 1] != 10);
    }
    assert(lines[0].text == says(piece));
}

proof fn lemma_later_line_is_cut_out(offset: nat, bytes: Seq<u8>, k: int)
    requires
        bytes.len() > 0,
        0 < k < lines_of(offset, bytes).len(),
        is_cut_out(
            lines_of(offset + line_size(bytes), bytes.skip(line_size(bytes) as int)),
            k - 1,
            offset + line_size(bytes),
            bytes.skip(line_size(bytes) as int),
        ),
    ensures
        is_cut_out(lines_of(offset, bytes), k, offset, bytes),
{
    lemma_line_size(bytes);
    let lines = lines_of(offset, bytes);
    let size = line_size(bytes) as int;
    let next = offset + line_size(bytes);
    let rest = bytes.skip(size);
    let more = lines_of(next, rest);
    let end = (offset + bytes.len()) as int;
    assert(lines[k] == more[k - 1]);
    if k + 1 < lines.len() {
        assert(lines[k + 1] == more[k]);
    }
    let from = more[k - 1].at - next;
    let to = next_at(more, k - 1, end) - next;
    assert(next_at(lines, k, end) == next_at(more, k - 1, end));
    assert(bytes.subrange(from + size, to + size) =~= rest.subrange(from, to));
    assert forall|i: int| from + size <= i < to + size - 1 implies bytes[i] != 10 by {
        assert(rest[i - size] == bytes[i]);
    }
    if k + 1 < lines.len() {
        assert(rest[to - 1] == bytes[to + size - 1]);
    }
}

/// Whether an entry is made of these lines: it stands where the first one does
/// and says what that one does, its verbatim text is all of them, and its
/// context is those after the first.
pub open spec fn is_made_of(
    entry: EntryModel,
    lines: Seq<LineModel>,
    project_id: Seq<char>,
    file: Seq<char>,
) -> bool {
    &&& lines.len() > 0
    &&& entry.offset == lines[0].at
    &&& entry.id == entry_id_text(file, lines[0].at)
    &&& entry.project_id == project_id
    &&& entry.file == file
    &&& entry.raw == joined(line_texts(lines), seq!['\n'])
    &&& entry.context == joined(line_texts(lines.skip(1)), seq!['\n'])
    &&& match header_of(lines[0].text) {
        Some(header) => {
            &&& entry.timestamp == header.timestamp
            &&& entry.env == header.env
            &&& entry.level == level_named(header.level)
            &&& entry.message == header.message
        },
        None => {
            &&& entry.timestamp.len() == 0
            &&& entry.env.len() == 0
            &&& entry.level == Level::Unknown
            &&& entry.message == lines[0].text
        },
    }
}

/// Whether these lines are cut into these entries at these places: one entry
/// from each place to the next.
pub open spec fn are_cut_at(
    lines: Seq<LineModel>,
    entries: Seq<EntryModel>,
    cuts: Seq<int>,
    project_id: Seq<char>,
    file: Seq<char>,
) -> bool {
    &&& cuts.len() == entries.len() + 1
    &&& cuts[0] == 0
    &&& cuts.last() == lines.len()
    &&& forall|k: int|
        0 <= k < entries.len() ==> #[trigger] is_cut_from(
            lines,
            entries[k],
            cuts[k],
            cuts[k + 1],
            project_id,
            file,
        )
}

/// Whether an entry is made of the lines from one place to another.
pub open spec fn is_cut_from(
    lines: Seq<LineModel>,
    entry: EntryModel,
    from: int,
    to: int,
    project_id: Seq<char>,
    file: Seq<char>,
) -> bool {
    &&& 0 <= from < to <= lines.len()
    &&& is_made_of(entry, lines.subrange(from, to), project_id, file)
}

/// The entries of a log are what its headers cut its lines into: every line that
/// is a header opens an entry, the first line does in any case, no other line
/// does, and an entry is all the lines up to the next one.
pub proof fn entries_are_cut_at_headers(
    project_id: Seq<char>,
    file: Seq<char>,
    offset: nat,
    bytes: Seq<u8>,
)
    ensures
        exists|cuts: Seq<int>|
            {
                &&& #[trigger] are_cut_at(
                    lines_of(offset, bytes),
                    parsed(project_id, file, offset, bytes),
                    cuts,
                    project_id,
                    file,
                )
                &&& forall|i: int|
                    0 < i < lines_of(offset, bytes).len() ==> (cuts.contains(i) <==> header_of(
                        (#[trigger] lines_of(offset, bytes)[i]).text,
                    ) is Some)
            },
{
    let acc = fresh(project_id, file);
    let lines = lines_of(offset, bytes);
    assert(parsed(project_id, file, offset, bytes) == entries_of(acc, lines));
    let cuts = lemma_cuts(acc, lines);
    assert(are_cut_at(lines, entries_of(acc, lines), cuts, project_id, file));
}

proof fn lemma_cuts(acc: AccumulatorModel, lines: Seq<LineModel>) -> (cuts: Seq<int>)
    requires
        acc.pending is None,
    ensures
        are_cut_at(lines, entries_of(acc, lines), cuts, acc.project_id, acc.file),
        forall|i: int|
            0 < i < lines.len() ==> (cuts.contains(i) <==> header_of((#[trigger] lines[i]).text)
                is Some),
        lines.len() > 0 ==> entries_of(acc, lines).len() > 0 && with_lines(
            acc,
            lines,
        ).pending.unwrap().has_context == (cuts[cuts.len() - 2] + 1 < lines.len()),
    decreases lines.len(),
{
    let now = entries_of(acc, lines);
    if lines.len() == 0 {
        assert(now =~= Seq::<EntryModel>::empty());
        let cuts = seq![0int];
        assert(cuts.len() == now.len() + 1);
        assert(cuts[0] == 0 && cuts.last() == 0);
        assert(are_cut_at(lines, now, cuts, acc.project_id, acc.file));
        cuts
    } else {
        let front = lines.drop_last();
        let last = lines.len() - 1;
        let line = lines.last();
        let then = entries_of(acc, front);
        let before = lemma_cuts(acc, front);
        lemma_one_more_line(acc, lines);
        let opens = lines.len() == 1 || header_of(line.text) is Some;
        let cuts = if opens {
            before.push(lines.len() as int)
        } else {
            before.drop_last().push(lines.len() as int)
        };
        assert(then.len() + 1 == before.len());
        assert(cuts[0] == 0) by {
            assert(before[0] == 0);
        }
        assert(cuts.last() == lines.len());
        assert(cuts.len() == now.len() + 1);
        assert forall|k: int| 0 <= k < now.len() implies #[trigger] is_cut_from(
            lines,
            now[k],
            cuts[k],
            cuts[k + 1],
            acc.project_id,
            acc.file,
        ) by {
            if k < now.len() - 1 {
                assert(is_cut_from(
                    front,
                    then[k],
                    before[k],
                    before[k + 1],
                    acc.project_id,
                    acc.file,
                ));
                assert(now[k] == then[k]);
                assert(cuts[k] == before[k] && cuts[k + 1] == before[k + 1]);
                assert(lines.subrange(before[k], before[k + 1]) =~= front.subrange(
                    before[k],
                    before[k + 1],
                ));
            } else if opens {
                assert(cuts[k] == last);
                let own = lines.subrange(last, lines.len() as int);
                assert(own =~= seq![line]);
                assert(line_texts(own) =~= seq![line.text]);
                assert(line_texts(own.skip(1)) =~= Seq::<Seq<char>>::empty());
                assert(now[k].context =~= joined(line_texts(own.skip(1)), seq!['\n']));
            } else {
                let from = before[before.len() - 2];
                assert(cuts[k] == from);
                let old_own = front.subrange(from, last);
                let own = lines.subrange(from, lines.len() as int);
                let j = then.len() - 1;
                assert(is_cut_from(
                    front,
                    then[j],
                    before[j],
                    before[j + 1],
                    acc.project_id,
                    acc.file,
                ));
                assert(old_own == front.subrange(before[j], before[j + 1]));
                assert(own.drop_last() =~= old_own);
                assert(own[0] == old_own[0]);
                assert(line_texts(own).drop_last() =~= line_texts(old_own));
                assert(line_texts(own).last() == line.text);
                assert(now[k].raw =~= joined(line_texts(own), seq!['\n']));
                let rest = own.skip(1);
                assert(rest.drop_last() =~= old_own.skip(1));
                assert(line_texts(rest).drop_last() =~= line_texts(old_own.skip(1)));
                assert(line_texts(rest).last() == line.text);
                let pending = with_lines(acc, front).pending.unwrap();
                assert(pending.has_context == (from + 1 < front.len()));
                if pending.has_context {
                    assert(now[k].context =~= joined(line_texts(rest), seq!['\n']));
                } else {
                    assert(line_texts(rest) =~= seq![line.text]);
                    assert(line_texts(old_own.skip(1)) =~= Seq::<Seq<char>>::empty());
                    assert(now[k].context =~= line.text);
                }
            }
        }
        assert forall|i: int| 0 < i < lines.len() implies (cuts.contains(i) <==> header_of(
            (#[trigger] lines[i]).text,
        ) is Some) by {
            if i < last {
                assert(front[i] == lines[i]);
                if before.contains(i) {
                    let k = choose|k: int| 0 <= k < before.len() && before[k] == i;
                    assert(cuts[k] == i);
                }
                if cuts.contains(i) {
                    let k = choose|k: int| 0 <= k < cuts.len() && cuts[k] == i;
                    assert(before[k] == i);
                }
            } else {
                if opens {
                    assert(cuts[before.len() - 1] == last);
                } else if cuts.contains(i) {
                    let k = choose|k: int| 0 <= k < cuts.len() && cuts[k] == i;
                    assert(k < before.len() - 1);
                    assert(is_cut_from(
                        front,
                        then[k],
                        before[k],
                        before[k + 1],
                        acc.project_id,
                        acc.file,
                    ));
                }
            }
        }
        assert(are_cut_at(lines, now, cuts, acc.project_id, acc.file));
        if !opens {
            let j = then.len() - 1;
            assert(is_cut_from(
                front,
                then[j],
                before[j],
                before[j + 1],
                acc.project_id,
                acc.file,
            ));
            assert(cuts[cuts.len() - 2] == before[j]);
        }
        cuts
    }
}

/// How many of these lines are headers.
pub open spec fn headers_in(lines: Seq<LineModel>) -> nat
    decreases lines.len(),
{
    if lines.len() == 0 {
        0
    } else {
        headers_in(lines.drop_last()) + if header_of(lines.last().text) is Some {
            1nat
        } else {
            0nat
        }
    }
}

proof fn lemma_headers_add_up(a: Seq<LineModel>, b: Seq<LineModel>)
    ensures
        headers_in(a + b) == headers_in(a) + headers_in(b),
    decreases b.len(),
{
    if b.len() == 0 {
        assert(a + b =~= a);
    } else {
        lemma_headers_add_up(a, b.drop_last());
        assert((a + b).drop_last() =~= a + b.drop_last());
        assert((a + b).last() == b.last());
    }
}

/// There is one entry for the first line and one for each header after it.
pub proof fn entries_are_as_many_as_headers(
    project_id: Seq<char>,
    file: Seq<char>,
    offset: nat,
    bytes: Seq<u8>,
)
    requires
        bytes.len() > 0,
    ensures
        parsed(project_id, file, offset, bytes).len() == 1 + headers_in(
            lines_of(offset, bytes).skip(1),
        ),
{
    lemma_lines_in_order(offset, bytes);
    lemma_as_many_as_headers(fresh(project_id, file), lines_of(offset, bytes));
}

proof fn lemma_as_many_as_headers(acc: AccumulatorModel, lines: Seq<LineModel>)
    requires
        acc.pending is None,
        lines.len() > 0,
    ensures
        entries_of(acc, lines).len() == 1 + headers_in(lines.skip(1)),
    decreases lines.len(),
{
    lemma_one_more_line(acc, lines);
    if lines.len() == 1 {
        assert(lines.skip(1) =~= Seq::<LineModel>::empty());
    } else {
        lemma_as_many_as_headers(acc, lines.drop_last());
        assert(lines.skip(1).drop_last() =~= lines.drop_last().skip(1));
        assert(lines.skip(1).last() == lines.last());
    }
}

/// What is left of a log from any byte on has no more entries than the log.
pub proof fn a_tail_has_no_more_entries(
    project_id: Seq<char>,
    file: Seq<char>,
    offset: nat,
    bytes: Seq<u8>,
    from: nat,
)
    requires
        from <= bytes.len(),
    ensures
        parsed(project_id, file, offset + from, bytes.skip(from as int)).len() <= parsed(
            project_id,
            file,
            offset,
            bytes,
        ).len(),
{
    let tail = bytes.skip(from as int);
    if from == 0 {
        assert(tail =~= bytes);
    } else if tail.len() == 0 {
        entries_stand_in_order(project_id, file, offset + from, tail);
    } else {
        entries_are_as_many_as_headers(project_id, file, offset, bytes);
        entries_are_as_many_as_headers(project_id, file, offset + from, tail);
        lemma_line_end(tail);
        lemma_line_size(tail);
        let size = line_size(tail);
        let cut = (from + size) as int;
        let rest = bytes.skip(cut);
        assert(tail.skip(size as int) =~= rest);
        let more = lines_of((offset + from) + size, rest);
        let tail_lines = lines_of(offset + from, tail);
        assert(tail_lines.skip(1) =~= more);
        if rest.len() > 0 {
            let head = bytes.take(cut);
            assert(head.last() == tail[size - 1]);
            assert(head + rest =~= bytes);
            lemma_lines_of_pieces(offset, head, rest);
            lemma_lines_in_order(offset, head);
            let head_lines = lines_of(offset, head);
            assert(lines_of(offset, bytes).skip(1) =~= head_lines.skip(1) + more);
            lemma_headers_add_up(head_lines.skip(1), more);
        } else {
            assert(more =~= Seq::<LineModel>::empty());
        }
    }
}

/// Each of the eight levels is named by its own word, and by no other; every
/// other word names none.
pub proof fn levels_are_named_by_their_words(text: Seq<char>)
    ensures
        level_named(text) == Level::Debug <==> text == "DEBUG"@,
        level_named(text) == Level::Info <==> text == "INFO"@,
        level_named(text) == Level::Notice <==> text == "NOTICE"@,
        level_named(text) == Level::Warning <==> text == "WARNING"@,
        level_named(text) == Level::Error <==> text == "ERROR"@,
        level_named(text) == Level::Critical <==> text == "CRITICAL"@,
        level_named(text) == Level::Alert <==> text == "ALERT"@,
        level_named(text) == Level::Emergency <==> text == "EMERGENCY"@,
{
    reveal_strlit("DEBUG");
    reveal_strlit("INFO");
    reveal_strlit("NOTICE");
    reveal_strlit("WARNING");
    reveal_strlit("ERROR");
    reveal_strlit("CRITICAL");
    reveal_strlit("ALERT");
    reveal_strlit("EMERGENCY");
    assert("DEBUG"@[0] == 'D');
    assert("INFO"@[0] == 'I');
    assert("NOTICE"@[0] == 'N');
    assert("WARNING"@[0] == 'W');
    assert("ERROR"@[0] == 'E' && "ERROR"@.len() == 5);
    assert("CRITICAL"@[0] == 'C');
    assert("ALERT"@[0] == 'A');
    assert("EMERGENCY"@[0] == 'E' && "EMERGENCY"@.len() == 9);
}

} // verus!
