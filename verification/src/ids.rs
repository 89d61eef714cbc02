//! Identity across a break.
//!
//! A file and an offset alone are not unique within one session: a truncation
//! resets the offset to 0 under the same file name. So ids are salted with a
//! generation, the number of breaks passed when they were made. Before the
//! first break there is no salt.

use vstd::prelude::*;
use vstd::string::*;

use crate::files::names_a_log;
use crate::model::{break_id_text, entry_id_text, BreakId, EntryId};
use crate::text::{
    all_digits, cut_at_last, cut_last, decimal, decimal_text, is_digit, lemma_cut_at_last,
    lemma_decimal, lemma_last_position, lemma_number_of_decimal, number, number_of, unsigned_part,
};

verus! {

/// How many breaks a watcher has passed.
pub type Generation = u64;

/// The file token an id is built from: the name itself before any break, and a
/// generation-qualified name after one.
pub open spec fn token_text(file: Seq<char>, generation: nat) -> Seq<char> {
    if generation == 0 {
        file
    } else {
        file + seq!['@'] + decimal(generation)
    }
}

/// The text of an entry's id in a generation.
pub open spec fn stamped_entry_text(file: Seq<char>, offset: nat, generation: nat) -> Seq<char> {
    entry_id_text(token_text(file, generation), offset)
}

/// The text of a break's id in a generation.
pub open spec fn stamped_break_text(file: Seq<char>, offset: nat, generation: nat) -> Seq<char> {
    break_id_text(token_text(file, generation), offset)
}

/// What an entry's id says: a file, a generation and an offset.
pub open spec fn id_parts(id: Seq<char>) -> Option<(Seq<char>, Generation, u64)> {
    match cut_at_last(id, ':') {
        None => None,
        Some((token, offset)) => match number(offset) {
            None => None,
            Some(offset) => match cut_at_last(token, '@') {
                Some((file, generation)) => match number(generation) {
                    Some(generation) => if file.len() > 0 {
                        Some((file, generation, offset))
                    } else {
                        Some((token, 0, offset))
                    },
                    None => Some((token, 0, offset)),
                },
                None => Some((token, 0, offset)),
            },
        },
    }
}

/// What is said of a text that is not an entry's id.
pub open spec fn not_an_id_text(id: Seq<char>) -> Seq<char> {
    "`"@ + id + "` is not an Entry id"@
}

/// The file token an id is built from.
pub fn generation_token(file: &str, generation: Generation) -> (token: String)
    ensures
        token@ == token_text(file@, generation as nat),
{
    let mut token = String::from_str(file);
    if generation != 0 {
        token.append("@");
        token.append(decimal_text(generation).as_str());
        proof {
            reveal_strlit("@");
            assert("@"@ =~= seq!['@']);
        }
    }
    token
}

/// The id of an entry in a generation.
pub fn stamped_entry_id(file: &str, offset: u64, generation: Generation) -> (id: EntryId)
    ensures
        id@ == stamped_entry_text(file@, offset as nat, generation as nat),
{
    EntryId::new(generation_token(file, generation).as_str(), offset)
}

/// The id of a break in a generation.
pub fn stamped_break_id(file: &str, offset: u64, generation: Generation) -> (id: BreakId)
    ensures
        id@ == stamped_break_text(file@, offset as nat, generation as nat),
{
    BreakId::new(generation_token(file, generation).as_str(), offset)
}

fn not_an_id(id: &str) -> (reason: String)
    ensures
        reason@ == not_an_id_text(id@),
{
    let mut reason = String::from_str("`");
    reason.append(id);
    reason.append("` is not an Entry id");
    reason
}

/// The inverse of [`stamped_entry_id`]: the file, generation and offset out of
/// an id a client is holding.
///
/// Paging back needs all three: after a break the oldest entry held belongs to
/// the previous file and generation.
///
/// The parse is unambiguous because a log file name always ends in `.log`: what
/// follows the last `@` is a generation only where it is a number.
pub fn decode_entry_id(id: &str) -> (parts: Result<(String, Generation, u64), String>)
    ensures
        parts is Ok <==> id_parts(id@) is Some,
        parts matches Ok((file, generation, offset)) ==> id_parts(id@) == Some(
            (file@, generation, offset),
        ),
        parts matches Err(reason) ==> reason@ == not_an_id_text(id@),
{
    let (token, digits) = match cut_last(id, ':') {
        Some(cut) => cut,
        None => {
            return Err(not_an_id(id));
        },
    };
    let offset: u64 = match number_of(digits.as_str()) {
        Some(offset) => offset,
        None => {
            return Err(not_an_id(id));
        },
    };
    match cut_last(token.as_str(), '@') {
        Some((file, digits)) => match number_of(digits.as_str()) {
            Some(generation) => if file.as_str().unicode_len() > 0 {
                Ok((file, generation, offset))
            } else {
                Ok((token, 0, offset))
            },
            None => Ok((token, 0, offset)),
        },
        None => Ok((token, 0, offset)),
    }
}

/// A log's name never reads as a generation-qualified one.
proof fn lemma_log_name_has_no_generation(file: Seq<char>)
    requires
        names_a_log(file),
    ensures
        file.len() > 0,
        cut_at_last(file, '@') matches Some((head, tail)) ==> number(tail) is None,
{
    reveal_strlit(".log");
    let end = file.subrange(file.len() - 4, file.len() as int);
    assert(end == ".log"@);
    assert(file[file.len() - 1] == end[3]);
    assert(file[file.len() - 2] == end[2]);
    lemma_last_position(file, '@');
    if let Some((head, tail)) = cut_at_last(file, '@') {
        assert(tail.last() == 'g');
        let digits = unsigned_part(tail);
        assert(tail.len() > 1);
        assert(digits[digits.len() - 1] == 'g');
        assert(!is_digit(digits[digits.len() - 1]));
    }
}

/// What was stamped into an entry's id comes back out of it.
pub proof fn an_id_decodes_to_what_was_stamped(file: Seq<char>, offset: u64, generation: Generation)
    requires
        names_a_log(file),
    ensures
        id_parts(stamped_entry_text(file, offset as nat, generation as nat)) == Some(
            (file, generation, offset),
        ),
{
    let token = token_text(file, generation as nat);
    let digits = decimal(offset as nat);
    lemma_decimal(offset as nat);
    lemma_number_of_decimal(offset);
    lemma_digits_hold_no_mark(digits);
    lemma_cut_at_last(token, ':', digits);
    lemma_log_name_has_no_generation(file);
    if generation != 0 {
        let salt = decimal(generation as nat);
        lemma_decimal(generation as nat);
        lemma_number_of_decimal(generation);
        lemma_digits_hold_no_mark(salt);
        lemma_cut_at_last(file, '@', salt);
    }
}

proof fn lemma_digits_hold_no_mark(digits: Seq<char>)
    requires
        all_digits(digits),
    ensures
        !digits.contains(':'),
        !digits.contains('@'),
{
    assert forall|i: int| 0 <= i < digits.len() implies digits[i] != ':' && digits[i] != '@' by {
        assert(is_digit(digits[i]));
    }
}

/// No two entries share an id unless they are at the same place of the same
/// file in the same generation: an id spent before a break is not used again
/// after it.
pub proof fn ids_tell_entries_apart(
    file: Seq<char>,
    offset: u64,
    generation: Generation,
    other_file: Seq<char>,
    other_offset: u64,
    other_generation: Generation,
)
    requires
        names_a_log(file),
        names_a_log(other_file),
        stamped_entry_text(file, offset as nat, generation as nat) == stamped_entry_text(
            other_file,
            other_offset as nat,
            other_generation as nat,
        ),
    ensures
        file == other_file,
        offset == other_offset,
        generation == other_generation,
{
    an_id_decodes_to_what_was_stamped(file, offset, generation);
    an_id_decodes_to_what_was_stamped(other_file, other_offset, other_generation);
}

/// A break's id is no entry's id.
pub proof fn a_break_id_is_no_entry_id(
    file: Seq<char>,
    offset: nat,
    generation: nat,
    other_file: Seq<char>,
    other_offset: nat,
    other_generation: nat,
)
    ensures
        stamped_break_text(file, offset, generation) != stamped_entry_text(
            other_file,
            other_offset,
            other_generation,
        ),
{
    let a = stamped_break_text(file, offset, generation);
    let b = stamped_entry_text(other_file, other_offset, other_generation);
    lemma_decimal(other_offset);
    let digits = decimal(other_offset);
    assert(a.last() == 'k');
    assert(b.last() == digits[digits.len() - 1]);
    assert(is_digit(digits[digits.len() - 1]));
}

/// No two breaks share an id unless they are at the same place of the same file
/// in the same generation.
pub proof fn ids_tell_breaks_apart(
    file: Seq<char>,
    offset: u64,
    generation: Generation,
    other_file: Seq<char>,
    other_offset: u64,
    other_generation: Generation,
)
    requires
        names_a_log(file),
        names_a_log(other_file),
        stamped_break_text(file, offset as nat, generation as nat) == stamped_break_text(
            other_file,
            other_offset as nat,
            other_generation as nat,
        ),
    ensures
        file == other_file,
        offset == other_offset,
        generation == other_generation,
{
    let a = stamped_break_text(file, offset as nat, generation as nat);
    let b = stamped_break_text(other_file, other_offset as nat, other_generation as nat);
    let x = stamped_entry_text(file, offset as nat, generation as nat);
    let y = stamped_entry_text(other_file, other_offset as nat, other_generation as nat);
    assert(x =~= a.take(a.len() - 6));
    assert(y =~= b.take(b.len() - 6));
    ids_tell_entries_apart(
        file,
        offset,
        generation,
        other_file,
        other_offset,
        other_generation,
    );
}

/// Before the first break an id is the file and the offset alone.
pub proof fn ids_before_a_break_are_unsalted(file: Seq<char>, offset: nat)
    ensures
        stamped_entry_text(file, offset, 0) == entry_id_text(file, offset),
        stamped_break_text(file, offset, 0) == break_id_text(file, offset),
{
}

} // verus!
