//! The header line that opens an entry, matched by a regular expression.

use regex::Regex;
use vstd::prelude::*;

use crate::text::{all_digits, is_digit};

verus! {

/// What a header line says: when, in which environment, how severe, and what.
#[derive(Debug, PartialEq, Eq)]
pub struct Header {
    pub timestamp: String,
    pub env: String,
    pub level: String,
    pub message: String,
}

/// What a header line says, as text.
#[verifier::ext_equal]
pub struct HeaderModel {
    pub timestamp: Seq<char>,
    pub env: Seq<char>,
    pub level: Seq<char>,
    pub message: Seq<char>,
}

impl View for Header {
    type V = HeaderModel;

    open spec fn view(&self) -> HeaderModel {
        HeaderModel {
            timestamp: self.timestamp@,
            env: self.env@,
            level: self.level@,
            message: self.message@,
        }
    }
}

/// The three header shapes that occur in practice: bare, with a fraction of a
/// second, and with a timezone offset. Line-anchored, so header-shaped text
/// inside a message does not split an entry.
pub const HEADER_PATTERN: &'static str = r"^\[(?P<ts>\d{4}-\d{2}-\d{2}[ T]\d{2}:\d{2}:\d{2}(?:\.\d+)?(?:[+-]\d{2}:?\d{2}|Z)?)\]\s(?P<env>\S+)\.(?P<level>[A-Z]{4,9}):\s?(?P<msg>.*)$";

/// The Unicode white space characters.
pub open spec fn is_white(c: char) -> bool {
    ||| '\u{9}' <= c <= '\u{d}'
    ||| c == ' '
    ||| c == '\u{85}'
    ||| c == '\u{a0}'
    ||| c == '\u{1680}'
    ||| '\u{2000}' <= c <= '\u{200a}'
    ||| '\u{2028}' <= c <= '\u{2029}'
    ||| c == '\u{202f}'
    ||| c == '\u{205f}'
    ||| c == '\u{3000}'
}

/// A level as a header writes it: four to nine capital letters.
pub open spec fn is_level_text(text: Seq<char>) -> bool {
    &&& 4 <= text.len() <= 9
    &&& forall|i: int| 0 <= i < text.len() ==> 'A' <= #[trigger] text[i] <= 'Z'
}

/// An environment as a header writes it: at least one character, none white.
pub open spec fn is_env_text(text: Seq<char>) -> bool {
    &&& text.len() > 0
    &&& forall|i: int| 0 <= i < text.len() ==> !is_white(#[trigger] text[i])
}

/// A fraction of a second: nothing, or a dot and at least one digit.
pub open spec fn is_fraction(text: Seq<char>) -> bool {
    text.len() == 0 || (text.len() > 1 && text[0] == '.' && all_digits(text.skip(1)))
}

/// A timezone: nothing, `Z`, `+hh:mm` or `+hhmm`, or the same with `-`.
pub open spec fn is_zone(text: Seq<char>) -> bool {
    ||| text.len() == 0
    ||| text == seq!['Z']
    ||| {
        &&& text.len() == 5 || (text.len() == 6 && text[3] == ':')
        &&& text[0] == '+' || text[0] == '-'
        &&& is_digit(text[1]) && is_digit(text[2])
        &&& is_digit(text[text.len() - 2]) && is_digit(text[text.len() - 1])
    }
}

/// A timestamp in ASCII digits: `YYYY-MM-DD hh:mm:ss`, or with a `T` between,
/// then a fraction, then a timezone.
pub open spec fn is_timestamp(text: Seq<char>) -> bool {
    &&& text.len() >= 19
    &&& forall|i: int|
        0 <= i < 19 && i != 4 && i != 7 && i != 10 && i != 13 && i != 16 ==> is_digit(
            #[trigger] text[i],
        )
    &&& text[4] == '-' && text[7] == '-'
    &&& text[10] == ' ' || text[10] == 'T'
    &&& text[13] == ':' && text[16] == ':'
    &&& exists|cut: int|
        19 <= cut <= text.len() && is_fraction(#[trigger] text.subrange(19, cut)) && is_zone(
            text.skip(cut),
        )
}

/// A header line put together from its parts, with `gap` between the colon and
/// the message.
pub open spec fn header_line(header: HeaderModel, space: char, gap: Seq<char>) -> Seq<char> {
    seq!['['] + header.timestamp + seq![']', space] + header.env + seq!['.'] + header.level + seq![
        ':',
    ] + gap + header.message
}

/// Whether a line, read as these parts, is a header.
///
/// The white character after the colon belongs to the gap where there is one.
pub open spec fn reads_as(line: Seq<char>, header: HeaderModel, space: char, gap: Seq<char>) -> bool {
    &&& line == header_line(header, space, gap)
    &&& is_white(space)
    &&& gap.len() <= 1
    &&& gap.len() == 1 ==> is_white(gap[0])
    &&& gap.len() == 0 && header.message.len() > 0 ==> !is_white(header.message[0])
    &&& header.timestamp.len() >= 19
    &&& is_ascii(header.timestamp) ==> is_timestamp(header.timestamp)
    &&& is_env_text(header.env)
    &&& is_level_text(header.level)
    &&& !header.message.contains('\n')
}

/// Whether every character of a text is ASCII.
pub open spec fn is_ascii(text: Seq<char>) -> bool {
    forall|i: int| 0 <= i < text.len() ==> #[trigger] text[i] < '\u{80}'
}

/// Whether a line can be read as a header that says this.
pub open spec fn may_say(line: Seq<char>, header: HeaderModel) -> bool {
    exists|space: char, gap: Seq<char>| #[trigger] reads_as(line, header, space, gap)
}

/// Whether a line can be read as a header that says this, its timestamp in
/// ASCII digits.
pub open spec fn plainly_may_say(line: Seq<char>, header: HeaderModel) -> bool {
    is_timestamp(header.timestamp) && may_say(line, header)
}

/// Whether a line is a header that says this, its timestamp in ASCII digits: of
/// all the ways to read it, the environment takes as much as it can.
pub open spec fn plainly_says(line: Seq<char>, header: HeaderModel) -> bool {
    &&& plainly_may_say(line, header)
    &&& forall|other: HeaderModel| #[trigger]
        plainly_may_say(line, other) ==> other.env.len() <= header.env.len()
}

/// What [`HEADER_PATTERN`] captures from a line, if it matches.
pub uninterp spec fn header_captures(line: Seq<char>) -> Option<HeaderModel>;

/// The text a compiled expression was built from.
pub uninterp spec fn pattern_of(regex: Regex) -> Seq<char>;

/// The header a line holds, if it holds one.
///
/// Where a line can be read with a timestamp in ASCII digits, that decides. Of
/// any other line the expression does, within what the line can be read as.
pub open spec fn header_of(line: Seq<char>) -> Option<HeaderModel> {
    if exists|header: HeaderModel| plainly_says(line, header) {
        Some(choose|header: HeaderModel| plainly_says(line, header))
    } else {
        match header_captures(line) {
            Some(header) => if may_say(line, header) {
                Some(header)
            } else {
                None
            },
            None => None,
        }
    }
}

/// No character of a timestamp closes the brackets around it.
proof fn lemma_timestamp_has_no_bracket(text: Seq<char>)
    requires
        is_timestamp(text),
    ensures
        !text.contains(']'),
{
    let cut = choose|cut: int|
        19 <= cut <= text.len() && is_fraction(#[trigger] text.subrange(19, cut)) && is_zone(
            text.skip(cut),
        );
    let fraction = text.subrange(19, cut);
    let zone = text.skip(cut);
    assert(is_zone(zone));
    assert(seq!['Z'].len() == 1);
    assert(zone.len() <= 6);
    assert forall|i: int| 0 <= i < text.len() implies text[i] != ']' by {
        if i < 19 {
        } else if i < cut {
            assert(text[i] == fraction[i - 19]);
            if i > 19 {
                assert(fraction[i - 19] == fraction.skip(1)[i - 20]);
                assert(is_digit(fraction.skip(1)[i - 20]));
            }
        } else {
            let at: int = i - cut;
            assert(text[i] == zone[at]);
            assert(at == 0 || at == 1 || at == 2 || at == 3 || at == 4 || at == 5);
            if zone.len() == 1 {
                assert(zone[0] == 'Z');
            }
        }
    }
}

/// A line is plainly at most one header.
proof fn lemma_one_plain_header(line: Seq<char>, a: HeaderModel, b: HeaderModel)
    requires
        plainly_says(line, a),
        plainly_says(line, b),
    ensures
        a == b,
{
    let (sa, ga) = choose|space: char, gap: Seq<char>| #[trigger] reads_as(line, a, space, gap);
    let (sb, gb) = choose|space: char, gap: Seq<char>| #[trigger] reads_as(line, b, space, gap);
    lemma_same_timestamp(line, a, sa, ga, b, sb, gb);
    assert(a.env.len() == b.env.len());
    lemma_level_is_no_longer(line, a, sa, ga, b, sb, gb);
    lemma_level_is_no_longer(line, b, sb, gb, a, sa, ga);
    let n: int = a.timestamp.len() as int + 3;
    let cut: int = n + a.env.len() + 1;
    let end: int = cut + a.level.len() + 1;
    assert(a.env =~= line.subrange(n, cut - 1));
    assert(b.env =~= line.subrange(n, cut - 1));
    assert(a.level =~= line.subrange(cut, end - 1));
    assert(b.level =~= line.subrange(cut, end - 1));
    assert(ga.len() == gb.len()) by {
        if ga.len() == 1 {
            assert(line[end] == ga[0]);
            if gb.len() == 0 {
                assert(line[end] == b.message[0]);
            }
        } else if gb.len() == 1 {
            assert(line[end] == gb[0]);
            assert(line[end] == a.message[0]);
        }
    }
    assert(a.message =~= line.skip(end + ga.len()));
    assert(b.message =~= line.skip(end + ga.len()));
}

/// Whatever a line is read as, its timestamp is the same.
proof fn lemma_same_timestamp(
    line: Seq<char>,
    a: HeaderModel,
    sa: char,
    ga: Seq<char>,
    b: HeaderModel,
    sb: char,
    gb: Seq<char>,
)
    requires
        reads_as(line, a, sa, ga),
        reads_as(line, b, sb, gb),
        is_timestamp(a.timestamp),
        is_timestamp(b.timestamp),
    ensures
        a.timestamp == b.timestamp,
{
    lemma_timestamp_is_no_longer(line, a, sa, ga, b, sb, gb);
    lemma_timestamp_is_no_longer(line, b, sb, gb, a, sa, ga);
    let n: int = a.timestamp.len() as int;
    assert(a.timestamp =~= line.subrange(1, n + 1));
    assert(b.timestamp =~= line.subrange(1, n + 1));
}

proof fn lemma_timestamp_is_no_longer(
    line: Seq<char>,
    a: HeaderModel,
    sa: char,
    ga: Seq<char>,
    b: HeaderModel,
    sb: char,
    gb: Seq<char>,
)
    requires
        reads_as(line, a, sa, ga),
        reads_as(line, b, sb, gb),
        is_timestamp(b.timestamp),
    ensures
        b.timestamp.len() <= a.timestamp.len(),
{
    if a.timestamp.len() < b.timestamp.len() {
        lemma_timestamp_has_no_bracket(b.timestamp);
        let at: int = a.timestamp.len() as int + 1;
        assert(line[at] == ']');
        assert(line[at] == b.timestamp[at - 1]);
    }
}

/// Where two readings agree up to the level, they agree on it: a colon ends it.
proof fn lemma_level_is_no_longer(
    line: Seq<char>,
    a: HeaderModel,
    sa: char,
    ga: Seq<char>,
    b: HeaderModel,
    sb: char,
    gb: Seq<char>,
)
    requires
        reads_as(line, a, sa, ga),
        reads_as(line, b, sb, gb),
        a.timestamp.len() == b.timestamp.len(),
        a.env.len() == b.env.len(),
    ensures
        b.level.len() <= a.level.len(),
{
    if a.level.len() < b.level.len() {
        let start: int = a.timestamp.len() as int + 3 + a.env.len() + 1;
        let at: int = start + a.level.len();
        assert(line[at] == ':');
        assert(line[at] == b.level[at - start]);
    }
}

/// A line that can be read plainly is plainly a header: among the ways to read
/// it, one has the longest environment.
proof fn lemma_some_reading_is_longest(line: Seq<char>, header: HeaderModel, room: nat)
    requires
        plainly_may_say(line, header),
        line.len() <= header.env.len() + room,
    ensures
        exists|longest: HeaderModel| plainly_says(line, longest),
    decreases room,
{
    if !plainly_says(line, header) {
        let other = choose|other: HeaderModel| #[trigger]
            plainly_may_say(line, other) && other.env.len() > header.env.len();
        let (space, gap) = choose|space: char, gap: Seq<char>|
            #[trigger] reads_as(line, other, space, gap);
        assert(other.env.len() <= line.len());
        lemma_some_reading_is_longest(line, other, (room - 1) as nat);
    }
}

/// Where white space or the end of the line follows the colon, no other reading
/// of the line has a longer environment.
proof fn lemma_environment_is_longest(
    line: Seq<char>,
    a: HeaderModel,
    sa: char,
    ga: Seq<char>,
    b: HeaderModel,
    sb: char,
    gb: Seq<char>,
)
    requires
        reads_as(line, a, sa, ga),
        reads_as(line, b, sb, gb),
        a.timestamp.len() == b.timestamp.len(),
        ga.len() == 1 || a.message.len() == 0,
    ensures
        b.env.len() <= a.env.len(),
{
    if b.env.len() > a.env.len() {
        let n: int = a.timestamp.len() as int + 3;
        let word: int = a.env.len() as int + a.level.len() + 2;
        let dot: int = n + b.env.len();
        assert(line[dot] == '.');
        if b.env.len() > word {
            assert(ga.len() == 1);
            assert(line[n + word] == ga[0]);
            assert(line[n + word] == b.env[word]);
        } else if b.env.len() == word {
            assert(ga.len() == 1);
            assert(line[dot] == ga[0]);
        } else if b.env.len() == word - 1 {
            assert(line[dot] == ':');
        } else {
            assert(line[dot] == a.level[b.env.len() - a.env.len() - 1]);
        }
    }
}

/// A line written as a header, with white space or nothing after the colon, is
/// read back as what was written.
pub proof fn a_written_header_reads_back(header: HeaderModel, space: char, gap: Seq<char>)
    requires
        is_timestamp(header.timestamp),
        is_env_text(header.env),
        is_level_text(header.level),
        !header.message.contains('\n'),
        is_white(space),
        gap.len() == 1 && is_white(gap[0]) || gap.len() == 0 && header.message.len() == 0,
    ensures
        header_of(header_line(header, space, gap)) == Some(header),
{
    let line = header_line(header, space, gap);
    assert(reads_as(line, header, space, gap));
    assert forall|other: HeaderModel| #[trigger] plainly_may_say(
        line,
        other,
    ) implies other.env.len() <= header.env.len() by {
        let (s, g) = choose|space: char, gap: Seq<char>|
            #[trigger] reads_as(line, other, space, gap);
        lemma_same_timestamp(line, header, space, gap, other, s, g);
        lemma_environment_is_longest(line, header, space, gap, other, s, g);
    }
    assert(plainly_says(line, header));
    let found = choose|header: HeaderModel| plainly_says(line, header);
    lemma_one_plain_header(line, header, found);
}

/// Of a line in ASCII its text alone decides whether it is a header: it is one
/// exactly where it can be read as one, and then it says what the reading with
/// the longest environment says.
pub proof fn an_ascii_line_is_decided_by_its_text(line: Seq<char>)
    requires
        is_ascii(line),
    ensures
        header_of(line) is Some <==> exists|header: HeaderModel| may_say(line, header),
        forall|header: HeaderModel| #[trigger]
            plainly_says(line, header) ==> header_of(line) == Some(header),
{
    assert forall|header: HeaderModel| #[trigger] may_say(line, header) implies exists|
        longest: HeaderModel,
    | plainly_says(line, longest) by {
        let (space, gap) = choose|space: char, gap: Seq<char>|
            #[trigger] reads_as(line, header, space, gap);
        assert forall|i: int| 0 <= i < header.timestamp.len() implies #[trigger] header.timestamp[i]
            < '\u{80}' by {
            assert(line[i + 1] == header.timestamp[i]);
        }
        assert(plainly_may_say(line, header));
        lemma_some_reading_is_longest(line, header, line.len());
    }
    if exists|longest: HeaderModel| plainly_says(line, longest) {
        let longest = choose|longest: HeaderModel| plainly_says(line, longest);
        assert(may_say(line, longest));
        assert forall|header: HeaderModel| #[trigger] plainly_says(line, header) implies header_of(
            line,
        ) == Some(header) by {
            lemma_one_plain_header(line, header, longest);
        }
    }
    a_found_header_is_in_the_line(line);
}

/// A header that is found in a line is one the line can be read as; a line
/// without an opening bracket holds none.
pub proof fn a_found_header_is_in_the_line(line: Seq<char>)
    ensures
        header_of(line) matches Some(header) ==> may_say(line, header) && header.timestamp.len()
            > 0 && header.env.len() > 0 && is_level_text(header.level),
        line.len() == 0 || line[0] != '[' ==> header_of(line) is None,
{
    if exists|header: HeaderModel| plainly_says(line, header) {
        let found = choose|header: HeaderModel| plainly_says(line, header);
        assert(may_say(line, found));
    }
    if let Some(header) = header_of(line) {
        let (space, gap) = choose|space: char, gap: Seq<char>|
            #[trigger] reads_as(line, header, space, gap);
        assert(header_line(header, space, gap)[0] == '[');
    }
}

/// `regex::Regex`, the compiled form of an expression.
#[verifier::external_type_specification]
#[verifier::external_body]
pub struct ExRegex(Regex);

/// `Regex::new` on [`HEADER_PATTERN`], which is a valid expression.
///
/// Claimed: the compiled expression is the one that was written down.
#[verifier::external_body]
fn compile_header() -> (regex: Regex)
    ensures
        pattern_of(regex) == HEADER_PATTERN@,
{
    Regex::new(HEADER_PATTERN).expect("the header pattern is a valid expression")
}

/// `Regex::captures` with the header expression, its four named groups as text.
///
/// Claimed: what comes back depends on the line alone. A line that can be read
/// as the expression lays it out, its timestamp in ASCII digits, gives the parts
/// of the reading with the longest environment: `\S+` takes as much as it can,
/// and once it is fixed the other parts are. Whatever else comes back can be
/// read that way too, but for digits that are not ASCII, of which `\d` takes
/// every decimal digit of Unicode: which those are is left to the name.
#[verifier::external_body]
fn capture(regex: &Regex, line: &str) -> (header: Option<Header>)
    requires
        pattern_of(*regex) == HEADER_PATTERN@,
    ensures
        found(header) == header_captures(line@),
        found(header) == header_of(line@),
{
    regex.captures(line).map(|caps| Header {
        timestamp: caps["ts"].to_owned(),
        env: caps["env"].to_owned(),
        level: caps["level"].to_owned(),
        message: caps["msg"].to_owned(),
    })
}

/// A header that was found, as text.
pub open spec fn found(header: Option<Header>) -> Option<HeaderModel> {
    match header {
        Some(header) => Some(header@),
        None => None,
    }
}

/// The header expression in compiled form, so that it is not compiled for every
/// line that it runs against.
pub struct HeaderMatcher {
    regex: Regex,
}

impl View for HeaderMatcher {
    type V = Seq<char>;

    /// The text of the expression that lines are matched against.
    closed spec fn view(&self) -> Seq<char> {
        pattern_of(self.regex)
    }
}

impl HeaderMatcher {
    #[verifier::type_invariant]
    spec fn inv(&self) -> bool {
        self@ == HEADER_PATTERN@
    }

    /// A matcher for [`HEADER_PATTERN`].
    pub fn new() -> (matcher: Self)
        ensures
            matcher@ == HEADER_PATTERN@,
    {
        HeaderMatcher { regex: compile_header() }
    }

    /// The header a line holds, if it holds one.
    pub fn header(&self, line: &str) -> (header: Option<Header>)
        ensures
            found(header) == header_of(line@),
    {
        proof {
            use_type_invariant(self);
        }
        capture(&self.regex, line)
    }
}

} // verus!
